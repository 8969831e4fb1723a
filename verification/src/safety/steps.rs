//! The steps of the protocol, each of which keeps the invariant.
use vstd::prelude::*;

use super::protocol;
use super::protocol::Entries;
use super::protocol::Note;
use super::protocol::Peer;
use super::protocol::PeerRole;
use super::protocol::World;
use crate::types::config::Members;
use crate::types::log::EntryView;
use crate::types::log::PayloadView;
use crate::types::primitives::LogIndex;
use crate::types::primitives::NodeId;
use crate::types::quorum;

verus! {

/// Whether a leader's log only got longer, by entries of its own.
pub open spec fn extends<C>(new: Entries<C>, old: Entries<C>, t: nat) -> bool {
    &&& old.len() <= new.len()
    &&& new.take(old.len() as int) == old
    &&& forall|k: int| old.len() <= k < new.len() ==> (#[trigger] new[k]).term == t
}

/// Whether nothing that happened before is forgotten.
pub open spec fn grows<C>(w: World<C>, x: World<C>) -> bool {
    &&& x.servers == w.servers
    &&& x.initial == w.initial
    &&& forall|t: nat| #[trigger]
        w.led(t) ==> {
            &&& x.led(t)
            &&& x.leaders[t] == w.leaders[t]
            &&& x.electors[t] == w.electors[t]
            &&& extends(x.leader_logs[t], w.leader_logs[t], t)
            &&& w.durable[t] <= x.durable[t]
            &&& w.shown[t] <= x.shown[t]
        }
    &&& forall|v: NodeId, t: nat| #[trigger]
        w.voted(v, t) ==> {
            &&& x.voted(v, t)
            &&& x.votes[(v, t)] == w.votes[(v, t)]
            &&& x.vote_logs[(v, t)] == w.vote_logs[(v, t)]
        }
    &&& forall|note: Note<C>| #[trigger] w.notes.contains(note) ==> x.notes.contains(note)
}

/// Whether only `a` acted.
pub open spec fn acts<C>(w: World<C>, x: World<C>, a: NodeId) -> bool {
    &&& grows(w, x)
    &&& x.shape()
    &&& w.servers.contains(a)
    &&& x.peers[a].term >= w.peers[a].term
    &&& forall|i: NodeId| #[trigger] w.servers.contains(i) && i != a ==> x.peers[i] == w.peers[i]
    &&& forall|i: NodeId, t: nat| #[trigger] x.voted(i, t) && i != a ==> w.voted(i, t)
    &&& forall|t: nat| #[trigger]
        x.led(t) && x.leaders[t] != a ==> {
            &&& w.led(t)
            &&& x.leader_logs[t] == w.leader_logs[t]
            &&& x.durable[t] == w.durable[t]
            &&& x.shown[t] == w.shown[t]
        }
    &&& forall|t: nat, v: NodeId, index: nat| #[trigger]
        x.notes.contains(Note::Ack { term: t, from: v, index }) && v != a ==> w.notes.contains(
            Note::Ack { term: t, from: v, index },
        )
}

/// Whether nothing is forgotten and nobody but `a` changed.
pub open spec fn follows<C>(w: World<C>, x: World<C>, a: NodeId) -> bool {
    &&& grows(w, x)
    &&& x.peers.dom() == w.peers.dom()
    &&& forall|i: NodeId| #[trigger] w.servers.contains(i) && i != a ==> x.peers[i] == w.peers[i]
    &&& forall|t: nat| #[trigger]
        x.led(t) && x.leaders[t] != a ==> w.led(t) && x.shown[t] == w.shown[t]
    &&& x.peers[a].term >= w.peers[a].term
}

/// What is not forgotten twice is not forgotten.
pub proof fn lemma_grows_trans<C>(w: World<C>, x: World<C>, y: World<C>)
    requires
        grows(w, x),
        grows(x, y),
    ensures
        grows(w, y),
{
    assert forall|t: nat| #[trigger] w.led(t) implies {
        &&& y.led(t)
        &&& y.leaders[t] == w.leaders[t]
        &&& y.electors[t] == w.electors[t]
        &&& extends(y.leader_logs[t], w.leader_logs[t], t)
        &&& w.durable[t] <= y.durable[t]
        &&& w.shown[t] <= y.shown[t]
    } by {
        assert(x.led(t));
        let (a, b, c) = (w.leader_logs[t], x.leader_logs[t], y.leader_logs[t]);
        assert(c.take(a.len() as int) =~= c.take(b.len() as int).take(a.len() as int));
        assert forall|k: int| a.len() <= k < c.len() implies (#[trigger] c[k]).term == t by {
            if k < b.len() {
                assert(c.take(b.len() as int)[k] == c[k]);
                assert(b[k].term == t);
            }
        }
    }
    assert forall|v: NodeId, t: nat| #[trigger] w.voted(v, t) implies {
        &&& y.voted(v, t)
        &&& y.votes[(v, t)] == w.votes[(v, t)]
        &&& y.vote_logs[(v, t)] == w.vote_logs[(v, t)]
    } by {
        assert(x.voted(v, t));
    }
    assert forall|note: Note<C>| #[trigger] w.notes.contains(note) implies y.notes.contains(
        note,
    ) by {
        assert(x.notes.contains(note));
    }
}

/// What one server does in two steps, it does.
pub proof fn lemma_follows_trans<C>(w: World<C>, x: World<C>, y: World<C>, a: NodeId)
    requires
        follows(w, x, a),
        follows(x, y, a),
    ensures
        follows(w, y, a),
{
    lemma_grows_trans(w, x, y);
}

/// Nothing happening is a step too.
pub proof fn lemma_follows_self<C>(w: World<C>, a: NodeId)
    ensures
        follows(w, w, a),
{
    assert forall|t: nat| #[trigger] w.led(t) implies extends(
        w.leader_logs[t],
        w.leader_logs[t],
        t,
    ) by {
        assert(w.leader_logs[t].take(w.leader_logs[t].len() as int) =~= w.leader_logs[t]);
    }
}

pub proof fn lemma_agree_grows<C>(w: World<C>, x: World<C>, log: Entries<C>, t: nat, n: nat)
    requires
        grows(w, x),
        w.led(t),
        protocol::agree(log, w.leader_logs[t], n),
    ensures
        protocol::agree(log, x.leader_logs[t], n),
{
    let old = w.leader_logs[t];
    let new = x.leader_logs[t];
    assert(new.take(n as int) =~= new.take(old.len() as int).take(n as int));
}

pub proof fn lemma_agree_shrinks<C>(w: World<C>, x: World<C>, log: Entries<C>, t: nat, n: nat)
    requires
        grows(w, x),
        w.led(t),
        n <= w.leader_logs[t].len(),
        protocol::agree(log, x.leader_logs[t], n),
    ensures
        protocol::agree(log, w.leader_logs[t], n),
{
    let old = w.leader_logs[t];
    let new = x.leader_logs[t];
    assert(new.take(n as int) =~= new.take(old.len() as int).take(n as int));
}

pub proof fn lemma_grounded_grows<C>(w: World<C>, x: World<C>, log: Entries<C>, exempt: nat)
    requires
        grows(w, x),
        w.all_grounded(log, exempt),
    ensures
        x.all_grounded(log, exempt),
{
    assert forall|k: int| 0 <= k < log.len() implies #[trigger] x.grounded(log, k, exempt) by {
        assert(w.grounded(log, k, exempt));
        lemma_agree_grows(w, x, log, log[k].term, (k + 1) as nat);
    }
}

pub proof fn lemma_acked_grows<C>(w: World<C>, x: World<C>, v: NodeId, t: nat, n: nat)
    requires
        grows(w, x),
        w.acked(v, t, n),
    ensures
        x.acked(v, t, n),
{
    if exists|index: nat|
        index >= n && #[trigger] w.notes.contains(Note::Ack { term: t, from: v, index }) {
        let index = choose|index: nat|
            index >= n && #[trigger] w.notes.contains(Note::Ack { term: t, from: v, index });
        assert(x.notes.contains(Note::Ack { term: t, from: v, index }));
    }
}

pub proof fn lemma_committed_grows<C>(w: World<C>, x: World<C>, t: nat, n: nat, m: nat)
    requires
        grows(w, x),
        w.leaders_ok(),
        w.committed(t, n, m),
    ensures
        x.committed(t, n, m),
{
    assert(w.leader_ok(t));
    let old = w.leader_logs[t];
    let new = x.leader_logs[t];
    let members = protocol::config_in(w.initial, old.take(m as int));
    let q = choose|q: Set<NodeId>| #[trigger]
        quorum::is_quorum(q, members) && forall|v: NodeId| #[trigger]
            q.contains(v) ==> w.acked(v, t, n);
    assert forall|v: NodeId| #[trigger] q.contains(v) implies x.acked(v, t, n) by {
        assert(w.acked(v, t, n));
        lemma_acked_grows(w, x, v, t, n);
    }
    assert(new.take(m as int) =~= new.take(old.len() as int).take(m as int));
    assert(quorum::is_quorum(q, protocol::config_in(x.initial, new.take(m as int))));
    assert(new.take(old.len() as int)[n - 1] == new[n - 1]);
}

pub proof fn lemma_settled_grows<C>(
    w: World<C>,
    x: World<C>,
    log: Entries<C>,
    n: nat,
    last: nat,
    later: nat,
)
    requires
        grows(w, x),
        w.leaders_ok(),
        w.settled(log, n, last),
        last <= later,
    ensures
        x.settled(log, n, later),
{
    if n > 0 {
        let (t, c, m) = choose|t: nat, c: nat, m: nat| #[trigger]
            w.committed(t, c, m) && t <= last && n <= c && protocol::agree(
                log,
                w.leader_logs[t],
                n,
            );
        lemma_committed_grows(w, x, t, c, m);
        lemma_agree_grows(w, x, log, t, n);
        assert(x.committed(t, c, m));
    }
}

/// A membership change that a leader could make, it still could have made.
proof fn lemma_change_ok_grows<C>(w: World<C>, x: World<C>, t: nat, k: int)
    requires
        grows(w, x),
        w.leaders_ok(),
        w.led(t),
        0 <= k < w.leader_logs[t].len(),
        w.change_ok(t, k),
    ensures
        x.change_ok(t, k),
{
    let old = w.leader_logs[t];
    let new = x.leader_logs[t];
    assert(new.take(k + 1) =~= new.take(old.len() as int).take(k + 1));
    assert(new.take(k) =~= new.take(old.len() as int).take(k));
    let (n, m) = choose|n: nat, m: nat| #[trigger]
        w.committed(t, n, m) && m <= k && protocol::steady(old, n as int, k);
    lemma_committed_grows(w, x, t, n, m);
    assert forall|i: int| n <= i < k implies !((#[trigger] new[i]).payload is ConfigChange) by {
        assert(new.take(old.len() as int)[i] == new[i]);
        assert(!(old[i].payload is ConfigChange));
    }
    assert(x.committed(t, n, m) && m <= k && protocol::steady(new, n as int, k));
}

/// What is settled in a log is settled in any log that starts with it.
pub proof fn lemma_settled_transfers<C>(
    w: World<C>,
    log: Entries<C>,
    other: Entries<C>,
    n: nat,
    last: nat,
)
    requires
        w.settled(log, n, last),
        protocol::agree(other, log, n),
    ensures
        w.settled(other, n, last),
{
    if n > 0 {
        let (t, c, m) = choose|t: nat, c: nat, m: nat| #[trigger]
            w.committed(t, c, m) && t <= last && n <= c && protocol::agree(
                log,
                w.leader_logs[t],
                n,
            );
        protocol::lemma_agree_trans(other, log, w.leader_logs[t], n);
        assert(w.committed(t, c, m));
    }
}

/// Less of what is settled is settled.
pub proof fn lemma_settled_shorter<C>(w: World<C>, log: Entries<C>, n: nat, m: nat, last: nat)
    requires
        w.settled(log, n, last),
        m <= n,
    ensures
        w.settled(log, m, last),
{
    if m > 0 {
        let (t, c, k) = choose|t: nat, c: nat, k: nat| #[trigger]
            w.committed(t, c, k) && t <= last && n <= c && protocol::agree(
                log,
                w.leader_logs[t],
                n,
            );
        protocol::lemma_agree_shorter(log, w.leader_logs[t], n, m);
        assert(w.committed(t, c, k));
    }
}

pub proof fn lemma_supplanted_grows<C>(
    w: World<C>,
    x: World<C>,
    t: nat,
    n: nat,
    last: nat,
    later: nat,
)
    requires
        grows(w, x),
        w.leaders_ok(),
        w.led(t),
        n <= w.leader_logs[t].len(),
        w.supplanted(t, n, last),
        last <= later,
    ensures
        x.supplanted(t, n, later),
{
    let s = choose|s: nat|
        t < s <= last && #[trigger] w.led(s) && !protocol::agree(
            w.leader_logs[s],
            w.leader_logs[t],
            n,
        );
    assert(w.leader_ok(s));
    assert(w.leader_ok(t));
    assert(x.led(s));
    if protocol::agree(x.leader_logs[s], x.leader_logs[t], n) {
        let old_s = w.leader_logs[s];
        let new_s = x.leader_logs[s];
        lemma_agree_shrinks(w, x, new_s, t, n);
        if n <= old_s.len() {
            assert(extends(new_s, old_s, s));
            assert(old_s.take(n as int) =~= new_s.take(n as int)) by {
                assert(old_s =~= new_s.take(old_s.len() as int));
            }
            assert(protocol::agree(old_s, w.leader_logs[t], n));
        } else {
            let k = old_s.len() as int;
            protocol::lemma_agree_at(new_s, w.leader_logs[t], n, k);
            assert(new_s[k].term == s);
            assert(w.leader_logs[t][k].term <= t);
        }
    }
}

pub proof fn lemma_vote_ok_grows<C>(w: World<C>, x: World<C>, v: NodeId, t: nat)
    requires
        grows(w, x),
        w.votes_ok(),
        w.voted(v, t),
    ensures
        x.vote_ok(v, t),
{
    assert(w.vote_ok(v, t));
    let c = w.votes[(v, t)];
    assert(w.voted(c, t));
    lemma_grounded_grows(w, x, w.vote_logs[(v, t)], 0);
}

pub proof fn lemma_note_ok_grows<C>(w: World<C>, x: World<C>, note: Note<C>)
    requires
        grows(w, x),
        w.leaders_ok(),
        w.note_ok(note),
    ensures
        x.note_ok(note),
{
    match note {
        Note::VoteRequest { term, candidate, last_index, last_term } => {
            assert(w.voted(candidate, term));
        },
        Note::Grant { term, voter, candidate } => {
            assert(w.voted(voter, term));
        },
        Note::Append { term, prev, prev_term, entries, commit } => {
            assert(w.leader_ok(term));
            let old = w.leader_logs[term];
            let new = x.leader_logs[term];
            let end = prev + entries.len();
            assert(w.voted(w.leaders[term], term));
            assert(new.subrange(prev as int, end as int) =~= new.take(old.len() as int).subrange(
                prev as int,
                end as int,
            ));
            if prev > 0 {
                assert(new.take(old.len() as int)[prev - 1] == new[prev - 1]);
            }
            lemma_settled_grows(w, x, old, commit, term, term);
            assert(protocol::agree(new, old, commit)) by {
                assert(new.take(commit as int) =~= new.take(old.len() as int).take(commit as int));
            }
            lemma_settled_transfers(x, old, new, commit, term);
        },
        Note::Snap { term, index, index_term } => {
            assert(w.leader_ok(term));
            let old = w.leader_logs[term];
            let new = x.leader_logs[term];
            assert(new.take(old.len() as int)[index - 1] == new[index - 1]);
            lemma_settled_grows(w, x, old, index, term, term);
            assert(protocol::agree(new, old, index)) by {
                assert(new.take(index as int) =~= new.take(old.len() as int).take(index as int));
            }
            lemma_settled_transfers(x, old, new, index, term);
        },
        Note::Ack { .. } => {},
    }
}

/// A leader whose log is untouched stays what it was.
proof fn lemma_leader_ok_grows<C>(w: World<C>, x: World<C>, t: nat)
    requires
        grows(w, x),
        w.leaders_ok(),
        w.leader_ok(t),
        w.led(t),
        x.leader_logs[t] == w.leader_logs[t],
        x.durable[t] == w.durable[t],
        x.shown[t] == w.shown[t],
        x.peers[w.leaders[t]].term >= w.peers[w.leaders[t]].term,
    ensures
        x.leader_ok(t),
{
    assert(w.voted(w.leaders[t], t));
    lemma_grounded_grows(w, x, w.leader_logs[t], t);
    assert forall|v: NodeId| #[trigger] x.electors[t].contains(v) implies x.voted(v, t)
        && x.votes[(v, t)] == x.leaders[t] by {
        assert(w.electors[t].contains(v));
        assert(w.voted(v, t));
    }
    let log = w.leader_logs[t];
    assert forall|k: int|
        w.base(t).len() <= k < log.len()
            && (#[trigger] log[k]).payload is ConfigChange implies x.change_ok(t, k) by {
        lemma_change_ok_grows(w, x, t, k);
    }
}

/// A server that did not act stays what it was.
proof fn lemma_peer_ok_frame<C>(w: World<C>, x: World<C>, a: NodeId, i: NodeId)
    requires
        w.inv(),
        acts(w, x, a),
        w.servers.contains(i),
        i != a,
    ensures
        x.peer_ok(i),
{
    reveal(World::inv);
    assert(w.peer_ok(i));
    let p = w.peers[i];
    assert(x.peers[i] == p);
    assert(x.elected(i) == w.elected(i)) by {
        if x.elected(i) {
            assert(x.led(p.term) && x.leaders[p.term] != a);
        }
        if w.elected(i) {
            assert(w.led(p.term));
        }
    }
    if w.elected(i) {
        assert(x.led(p.term) && x.leaders[p.term] != a);
    }
    lemma_grounded_grows(w, x, p.log, w.exempt(i));
    lemma_settled_grows(w, x, p.log, p.commit, p.term, p.term);
    assert(x.ballot_ok(i)) by {
        if x.voted(i, p.term) {
            assert(w.voted(i, p.term));
        }
        assert forall|t: nat| #[trigger] x.voted(i, t) implies t <= p.term by {
            assert(w.voted(i, t));
        }
    }
    assert(x.role_ok(i)) by {
        match p.role {
            PeerRole::Follower => {},
            PeerRole::Candidate(granted) => {
                assert(w.voted(i, p.term));
                assert forall|v: NodeId| #[trigger] granted.contains(v) implies x.voted(v, p.term)
                    && x.votes[(v, p.term)] == i by {
                    assert(w.voted(v, p.term));
                }
            },
            PeerRole::Leader(matched) => {
                assert(w.led(p.term));
                assert(x.led(p.term));
                assert forall|v: NodeId| #[trigger]
                    matched.dom().contains(v) && matched[v].value > 0 implies x.acked(
                    v,
                    p.term,
                    matched[v].value as nat,
                ) by {
                    lemma_acked_grows(w, x, v, p.term, matched[v].value as nat);
                }
            },
        }
    }
}

/// What an acknowledgement meant for a server that did not act, it still means.
proof fn lemma_ack_frame<C>(w: World<C>, x: World<C>, a: NodeId, v: NodeId, t: nat, n: nat)
    requires
        w.inv(),
        acts(w, x, a),
        v != a,
        n >= 1,
        x.acked(v, t, n),
    ensures
        x.ack_kept(v, t, n),
{
    reveal(World::inv);
    assert(w.acked(v, t, n)) by {
        if exists|index: nat|
            index >= n && #[trigger] x.notes.contains(Note::Ack { term: t, from: v, index }) {
            let index = choose|index: nat|
                index >= n && #[trigger] x.notes.contains(Note::Ack { term: t, from: v, index });
            assert(w.notes.contains(Note::Ack { term: t, from: v, index }));
        } else {
            assert(x.led(t) && x.leaders[t] == v);
            assert(w.led(t));
        }
    }
    assert(w.ack_kept(v, t, n));
    assert(w.leader_ok(t));
    let p = w.peers[v];
    assert(x.peers[v] == p);
    if protocol::agree(p.log, w.leader_logs[t], n) && n <= p.durable {
        lemma_agree_grows(w, x, p.log, t, n);
    } else {
        lemma_supplanted_grows(w, x, t, n, p.term, p.term);
    }
    assert forall|s: nat| #[trigger]
        x.voted(v, s) && s > t && (x.led(s) ==> x.electors[s].contains(v)) implies protocol::agree(
        x.vote_logs[(v, s)],
        x.leader_logs[t],
        n,
    ) || x.supplanted(t, n, (s - 1) as nat) by {
        assert(w.voted(v, s));
        if w.led(s) {
            assert(x.led(s));
        }
        lemma_vote_kept_grows(w, x, v, t, n, s, (s - 1) as nat);
    }
    assert forall|s: nat| #[trigger] x.voted(v, s) && s > t implies protocol::agree(
        x.vote_logs[(v, s)],
        x.leader_logs[t],
        n,
    ) || x.supplanted(t, n, s) by {
        assert(w.voted(v, s));
        lemma_vote_kept_grows(w, x, v, t, n, s, s);
    }
}

/// What an acknowledgement meant for an earlier vote, it still means.
proof fn lemma_vote_kept_grows<C>(
    w: World<C>,
    x: World<C>,
    v: NodeId,
    t: nat,
    n: nat,
    s: nat,
    last: nat,
)
    requires
        grows(w, x),
        w.leaders_ok(),
        w.led(t),
        n <= w.leader_logs[t].len(),
        w.voted(v, s),
        protocol::agree(w.vote_logs[(v, s)], w.leader_logs[t], n) || w.supplanted(t, n, last),
    ensures
        protocol::agree(x.vote_logs[(v, s)], x.leader_logs[t], n) || x.supplanted(t, n, last),
{
    if protocol::agree(w.vote_logs[(v, s)], w.leader_logs[t], n) {
        lemma_agree_grows(w, x, w.vote_logs[(v, s)], t, n);
    } else {
        lemma_supplanted_grows(w, x, t, n, last, last);
    }
}

/// What has to be shown of a step in which only `a` acts: the invariant of `a`, of what it newly
/// leads, voted, or said, and of its acknowledgements.
pub proof fn lemma_step<C>(w: World<C>, x: World<C>, a: NodeId)
    requires
        w.inv(),
        acts(w, x, a),
        x.peer_ok(a),
        forall|t: nat| #[trigger]
            x.led(t) && x.leaders[t] == a && !(w.led(t) && x.leader_logs[t] == w.leader_logs[t]
                && x.durable[t] == w.durable[t] && x.shown[t] == w.shown[t]) ==> x.leader_ok(t),
        forall|t: nat| #[trigger] x.voted(a, t) && !w.voted(a, t) ==> x.vote_ok(a, t),
        forall|note: Note<C>| #[trigger]
            x.notes.contains(note) && !w.notes.contains(note) ==> x.note_ok(note),
        forall|t: nat, n: nat| n >= 1 && #[trigger] x.acked(a, t, n) ==> x.ack_kept(a, t, n),
    ensures
        x.inv(),
        follows(w, x, a),
{
    reveal(World::inv);
    assert forall|i: NodeId| #[trigger] x.servers.contains(i) implies x.peer_ok(i) by {
        if i != a {
            lemma_peer_ok_frame(w, x, a, i);
        }
    }
    assert forall|t: nat| #[trigger] x.led(t) implies x.leader_ok(t) by {
        if w.led(t) && x.leader_logs[t] == w.leader_logs[t] && x.durable[t] == w.durable[t]
            && x.shown[t] == w.shown[t] {
            assert(w.leader_ok(t));
            assert(w.servers.contains(w.leaders[t]));
            lemma_leader_ok_grows(w, x, t);
        }
    }
    assert forall|v: NodeId, t: nat| #[trigger] x.voted(v, t) implies x.vote_ok(v, t) by {
        if w.voted(v, t) {
            lemma_vote_ok_grows(w, x, v, t);
        }
    }
    assert forall|note: Note<C>| #[trigger] x.notes.contains(note) implies x.note_ok(note) by {
        if w.notes.contains(note) {
            lemma_note_ok_grows(w, x, note);
        }
    }
    assert forall|v: NodeId, t: nat, n: nat| n >= 1 && #[trigger] x.acked(v, t, n) implies x.ack_kept(
        v,
        t,
        n,
    ) by {
        if v != a {
            lemma_ack_frame(w, x, a, v, t, n);
        }
    }
}

impl<C> World<C> {
    /// The world with `p` in the place of `a`.
    pub open spec fn with(self, a: NodeId, p: Peer<C>) -> Self {
        World { peers: self.peers.insert(a, p), ..self }
    }
}

/// Changing a server and nothing else is an act of that server.
proof fn lemma_with_acts<C>(w: World<C>, a: NodeId, p: Peer<C>)
    requires
        w.inv(),
        w.servers.contains(a),
        p.term >= w.peers[a].term,
    ensures
        acts(w, w.with(a, p), a),
        grows(w, w.with(a, p)),
{
    reveal(World::inv);
    let x = w.with(a, p);
    assert(x.peers.dom() =~= w.servers);
    assert forall|t: nat| #[trigger] w.led(t) implies extends(
        x.leader_logs[t],
        w.leader_logs[t],
        t,
    ) by {
        assert(w.leader_logs[t].take(w.leader_logs[t].len() as int) =~= w.leader_logs[t]);
    }
}

/// The earlier acknowledgements of a server that has not voted anew are kept if its log keeps what
/// it held, or its term has moved past whoever is to blame.
proof fn lemma_acks_kept<C>(w: World<C>, x: World<C>, a: NodeId, t: nat, n: nat)
    requires
        w.inv(),
        grows(w, x),
        w.servers.contains(a),
        n >= 1,
        w.acked(a, t, n),
        x.peers[a].term >= w.peers[a].term,
        protocol::agree(w.peers[a].log, w.leader_logs[t], n) && n <= w.peers[a].durable ==> (
        protocol::agree(x.peers[a].log, w.leader_logs[t], n) && n <= x.peers[a].durable)
            || w.supplanted(t, n, x.peers[a].term),
        forall|s: nat| #[trigger] x.voted(a, s) ==> w.voted(a, s),
    ensures
        x.ack_kept(a, t, n),
{
    reveal(World::inv);
    assert(w.ack_kept(a, t, n));
    assert(w.leader_ok(t));
    let p = w.peers[a];
    let q = x.peers[a];
    if protocol::agree(p.log, w.leader_logs[t], n) && n <= p.durable {
        if protocol::agree(q.log, w.leader_logs[t], n) && n <= q.durable {
            lemma_agree_grows(w, x, q.log, t, n);
        } else {
            lemma_supplanted_grows(w, x, t, n, q.term, q.term);
        }
    } else {
        lemma_supplanted_grows(w, x, t, n, p.term, q.term);
    }
    assert forall|s: nat| #[trigger]
        x.voted(a, s) && s > t && (x.led(s) ==> x.electors[s].contains(a)) implies protocol::agree(
        x.vote_logs[(a, s)],
        x.leader_logs[t],
        n,
    ) || x.supplanted(t, n, (s - 1) as nat) by {
        assert(w.voted(a, s));
        if w.led(s) {
            assert(x.led(s));
        }
        lemma_vote_kept_grows(w, x, a, t, n, s, (s - 1) as nat);
    }
    assert forall|s: nat| #[trigger] x.voted(a, s) && s > t implies protocol::agree(
        x.vote_logs[(a, s)],
        x.leader_logs[t],
        n,
    ) || x.supplanted(t, n, s) by {
        assert(w.voted(a, s));
        lemma_vote_kept_grows(w, x, a, t, n, s, s);
    }
}

// ---- Terms and elections ----
/// A server learns of a higher term.
pub open spec fn adopt_term<C>(w: World<C>, a: NodeId, t: nat) -> World<C> {
    w.with(a, Peer { term: t, vote: None, role: PeerRole::Follower, ..w.peers[a] })
}

pub proof fn lemma_adopt_term<C>(w: World<C>, a: NodeId, t: nat)
    requires
        w.inv(),
        w.servers.contains(a),
        t > w.peers[a].term,
        w.elected(a) ==> w.shown[w.peers[a].term] == w.peers[a].log.len(),
    ensures
        adopt_term(w, a, t).inv(),
        follows(w, adopt_term(w, a, t), a),
{
    reveal(World::inv);
    let x = adopt_term(w, a, t);
    let p = w.peers[a];
    lemma_with_acts(w, a, x.peers[a]);
    assert(w.peer_ok(a));
    lemma_settled_grows(w, x, p.log, p.commit, p.term, t);
    lemma_step_down_grounded(w, a);
    assert(!x.elected(a)) by {
        if w.led(t) && w.leaders[t] == a {
            assert(w.leader_ok(t));
        }
    }
    lemma_grounded_grows(w, x, p.log, 0);
    assert(x.ballot_ok(a)) by {
        assert forall|s: nat| #[trigger] x.voted(a, s) implies s <= t by {
            assert(w.voted(a, s));
        }
        if x.voted(a, t) {
            assert(w.voted(a, t));
        }
    }
    assert forall|s: nat, n: nat| n >= 1 && #[trigger] x.acked(a, s, n) implies x.ack_kept(
        a,
        s,
        n,
    ) by {
        assert(w.acked(a, s, n));
        lemma_acks_kept(w, x, a, s, n);
    }
    lemma_step(w, x, a);
}

/// Once everything is stored, what a leader holds is grounded without exemption.
proof fn lemma_step_down_grounded<C>(w: World<C>, a: NodeId)
    requires
        w.inv(),
        w.servers.contains(a),
        w.elected(a) ==> w.shown[w.peers[a].term] == w.peers[a].log.len(),
    ensures
        w.all_grounded(w.peers[a].log, 0),
{
    reveal(World::inv);
    assert(w.peer_ok(a));
    let p = w.peers[a];
    assert forall|k: int| 0 <= k < p.log.len() implies #[trigger] w.grounded(p.log, k, 0) by {
        assert(w.grounded(p.log, k, w.exempt(a)));
    }
}

/// A server votes for itself in the next term, and takes on a role in it.
pub open spec fn pledge<C>(w: World<C>, a: NodeId, role: PeerRole) -> World<C> {
    let p = w.peers[a];
    let t = p.term + 1;
    World {
        votes: w.votes.insert((a, t), a),
        vote_logs: w.vote_logs.insert((a, t), p.log),
        ..w.with(a, Peer { term: t, vote: Some(a), role, ..p })
    }
}

/// A server stands for election.
pub open spec fn stand<C>(w: World<C>, a: NodeId) -> World<C> {
    pledge(w, a, PeerRole::Candidate(set![a]))
}

pub proof fn lemma_stand<C>(w: World<C>, a: NodeId)
    requires
        w.inv(),
        w.servers.contains(a),
        !(w.peers[a].role is Leader),
        w.elected(a) ==> w.shown[w.peers[a].term] == w.peers[a].log.len(),
        protocol::config_in(w.initial, w.peers[a].log).contains(a),
    ensures
        stand(w, a).inv(),
        follows(w, stand(w, a), a),
{
    lemma_pledge(w, a, PeerRole::Candidate(set![a]));
}

pub proof fn lemma_pledge<C>(w: World<C>, a: NodeId, role: PeerRole)
    requires
        w.inv(),
        w.servers.contains(a),
        !(w.peers[a].role is Leader),
        w.elected(a) ==> w.shown[w.peers[a].term] == w.peers[a].log.len(),
        role is Follower || (role == PeerRole::Candidate(set![a]) && protocol::config_in(
            w.initial,
            w.peers[a].log,
        ).contains(a)),
    ensures
        pledge(w, a, role).inv(),
        follows(w, pledge(w, a, role), a),
{
    reveal(World::inv);
    let x = pledge(w, a, role);
    let p = w.peers[a];
    let t = p.term + 1;
    assert(w.peer_ok(a));
    assert(!w.voted(a, t));
    lemma_with_acts(w, a, x.peers[a]);
    assert(x.votes.dom() =~= w.votes.dom().insert((a, t)));
    assert(x.vote_logs.dom() =~= w.vote_logs.dom().insert((a, t)));
    assert forall|v: NodeId, s: nat| #[trigger] w.voted(v, s) implies {
        &&& x.voted(v, s)
        &&& x.votes[(v, s)] == w.votes[(v, s)]
        &&& x.vote_logs[(v, s)] == w.vote_logs[(v, s)]
    } by {
        assert((v, s) != (a, t));
    }
    assert forall|i: NodeId, s: nat| #[trigger] x.voted(i, s) && i != a implies w.voted(i, s) by {
        assert((i, s) != (a, t));
    }
    assert(grows(w, x));
    assert(acts(w, x, a));
    lemma_settled_grows(w, x, p.log, p.commit, p.term, t);
    lemma_step_down_grounded(w, a);
    lemma_grounded_grows(w, x, p.log, 0);
    protocol::lemma_config_fit(w, p.log, 0);
    assert(x.voted(a, t));
    assert(!(x.led(t) && x.leaders[t] == a)) by {
        if w.led(t) && w.leaders[t] == a {
            assert(w.leader_ok(t));
        }
    }
    assert(x.ballot_ok(a)) by {
        assert forall|s: nat| #[trigger] x.voted(a, s) implies s <= t by {
            if s != t {
                assert(w.voted(a, s));
            }
        }
    }
    assert forall|s: nat| #[trigger] x.voted(a, s) && !w.voted(a, s) implies x.vote_ok(a, s) by {
        assert(s == t);
    }
    assert forall|s: nat, n: nat| n >= 1 && #[trigger] x.acked(a, s, n) implies x.ack_kept(
        a,
        s,
        n,
    ) by {
        assert(w.acked(a, s, n));
        assert(w.ack_kept(a, s, n));
        assert(w.leader_ok(s));
        lemma_new_vote_kept(w, x, a, s, n, t);
    }
    lemma_step(w, x, a);
}

/// An acknowledgement is kept by a vote that is cast with the log it holds for, before anybody leads
/// the term.
proof fn lemma_new_vote_kept<C>(w: World<C>, x: World<C>, a: NodeId, s: nat, n: nat, t: nat)
    requires
        w.inv(),
        grows(w, x),
        w.servers.contains(a),
        n >= 1,
        w.acked(a, s, n),
        x.peers[a].log == w.peers[a].log,
        x.peers[a].durable == w.peers[a].durable,
        x.peers[a].term == t,
        t >= w.peers[a].term,
        x.vote_logs[(a, t)] == w.peers[a].log,
        t > w.peers[a].term || !w.led(t) || !w.electors[t].contains(a),
        forall|r: nat| #[trigger] x.voted(a, r) ==> w.voted(a, r) || r == t,
        forall|r: nat| #[trigger] x.led(r) ==> w.led(r),
    ensures
        x.ack_kept(a, s, n),
{
    reveal(World::inv);
    assert(w.ack_kept(a, s, n));
    assert(w.leader_ok(s));
    let p = w.peers[a];
    if protocol::agree(p.log, w.leader_logs[s], n) && n <= p.durable {
        lemma_agree_grows(w, x, p.log, s, n);
    } else {
        lemma_supplanted_grows(w, x, s, n, p.term, t);
    }
    assert forall|r: nat| #[trigger]
        x.voted(a, r) && r > s && (x.led(r) ==> x.electors[r].contains(a)) implies protocol::agree(
        x.vote_logs[(a, r)],
        x.leader_logs[s],
        n,
    ) || x.supplanted(s, n, (r - 1) as nat) by {
        if w.led(r) {
            assert(x.led(r));
        }
        if r == t && !w.voted(a, t) {
            if !protocol::agree(p.log, w.leader_logs[s], n) || n > p.durable {
                if t > p.term {
                    lemma_supplanted_grows(w, x, s, n, p.term, (t - 1) as nat);
                } else {
                    // Nobody leads this term, or its electors would count this server.
                    let b = choose|b: nat|
                        s < b <= p.term && #[trigger] w.led(b) && !protocol::agree(
                            w.leader_logs[b],
                            w.leader_logs[s],
                            n,
                        );
                    assert(b != t);
                    assert(w.supplanted(s, n, (t - 1) as nat));
                    lemma_supplanted_grows(w, x, s, n, (t - 1) as nat, (t - 1) as nat);
                }
            }
        } else {
            assert(w.voted(a, r));
            lemma_vote_kept_grows(w, x, a, s, n, r, (r - 1) as nat);
        }
    }
    assert forall|r: nat| #[trigger] x.voted(a, r) && r > s implies protocol::agree(
        x.vote_logs[(a, r)],
        x.leader_logs[s],
        n,
    ) || x.supplanted(s, n, r) by {
        if r != t || w.voted(a, t) {
            assert(w.voted(a, r));
            lemma_vote_kept_grows(w, x, a, s, n, r, r);
        }
    }
}

/// A server grants its vote.
pub open spec fn grant<C>(w: World<C>, a: NodeId, c: NodeId) -> World<C> {
    let p = w.peers[a];
    World {
        votes: w.votes.insert((a, p.term), c),
        vote_logs: w.vote_logs.insert((a, p.term), p.log),
        ..w.with(a, Peer { vote: Some(c), ..p })
    }
}

pub proof fn lemma_grant<C>(
    w: World<C>,
    a: NodeId,
    c: NodeId,
    last_index: nat,
    last_term: nat,
)
    requires
        w.inv(),
        w.servers.contains(a),
        w.peers[a].vote is None,
        w.peers[a].durable == w.peers[a].log.len(),
        w.notes.contains(
            Note::VoteRequest { term: w.peers[a].term, candidate: c, last_index, last_term },
        ),
        protocol::up_to_date(last_term, last_index, w.peers[a].log),
    ensures
        grant(w, a, c).inv(),
        follows(w, grant(w, a, c), a),
{
    reveal(World::inv);
    let x = grant(w, a, c);
    let p = w.peers[a];
    let t = p.term;
    let note = Note::<C>::VoteRequest { term: t, candidate: c, last_index, last_term };
    assert(w.note_ok(note));
    assert(w.peer_ok(a));
    assert(!w.voted(a, t));
    assert(w.vote_ok(c, t));
    assert(a != c);
    lemma_with_acts(w, a, x.peers[a]);
    assert(x.votes.dom() =~= w.votes.dom().insert((a, t)));
    assert(x.vote_logs.dom() =~= w.vote_logs.dom().insert((a, t)));
    assert forall|v: NodeId, s: nat| #[trigger] w.voted(v, s) implies {
        &&& x.voted(v, s)
        &&& x.votes[(v, s)] == w.votes[(v, s)]
        &&& x.vote_logs[(v, s)] == w.vote_logs[(v, s)]
    } by {
        assert((v, s) != (a, t));
    }
    assert forall|i: NodeId, s: nat| #[trigger] x.voted(i, s) && i != a implies w.voted(i, s) by {
        assert((i, s) != (a, t));
    }
    assert(grows(w, x));
    assert(acts(w, x, a));
    assert(!w.elected(a)) by {
        if w.elected(a) {
            assert(w.leader_ok(t));
        }
    }
    assert(p.role is Follower);
    lemma_settled_grows(w, x, p.log, p.commit, t, t);
    lemma_grounded_grows(w, x, p.log, 0);
    assert(x.voted(a, t));
    assert(x.voted(c, t)) by {
        assert(w.voted(c, t));
    }
    assert(x.ballot_ok(a)) by {
        assert forall|s: nat| #[trigger] x.voted(a, s) implies s <= t by {
            if s != t {
                assert(w.voted(a, s));
            }
        }
    }
    assert forall|s: nat| #[trigger] x.voted(a, s) && !w.voted(a, s) implies x.vote_ok(a, s) by {
        assert(s == t);
    }
    assert(!w.led(t) || !w.electors[t].contains(a)) by {
        if w.led(t) && w.electors[t].contains(a) {
            assert(w.leader_ok(t));
            assert(w.voted(a, t));
        }
    }
    assert forall|s: nat, n: nat| n >= 1 && #[trigger] x.acked(a, s, n) implies x.ack_kept(
        a,
        s,
        n,
    ) by {
        assert(w.acked(a, s, n));
        lemma_new_vote_kept(w, x, a, s, n, t);
    }
    lemma_step(w, x, a);
}

/// A candidate counts a vote.
pub open spec fn count<C>(w: World<C>, a: NodeId, v: NodeId) -> World<C> {
    let p = w.peers[a];
    w.with(
        a,
        Peer {
            role: match p.role {
                PeerRole::Candidate(granted) => PeerRole::Candidate(granted.insert(v)),
                role => role,
            },
            ..p
        },
    )
}

pub proof fn lemma_count<C>(w: World<C>, a: NodeId, v: NodeId)
    requires
        w.inv(),
        w.servers.contains(a),
        protocol::config_in(w.initial, w.peers[a].log).contains(v),
        w.peers[a].role is Candidate,
        w.notes.contains(Note::Grant { term: w.peers[a].term, voter: v, candidate: a }),
    ensures
        count(w, a, v).inv(),
        follows(w, count(w, a, v), a),
{
    reveal(World::inv);
    let x = count(w, a, v);
    let note = Note::<C>::Grant { term: w.peers[a].term, voter: v, candidate: a };
    assert(w.note_ok(note));
    assert(w.peer_ok(a));
    lemma_with_acts(w, a, x.peers[a]);
    lemma_role_step(w, x, a);
}

/// A candidate concedes, or a leader steps down.
pub open spec fn concede<C>(w: World<C>, a: NodeId) -> World<C> {
    w.with(a, Peer { role: PeerRole::Follower, ..w.peers[a] })
}

pub proof fn lemma_concede<C>(w: World<C>, a: NodeId)
    requires
        w.inv(),
        w.servers.contains(a),
    ensures
        concede(w, a).inv(),
        follows(w, concede(w, a), a),
{
    reveal(World::inv);
    let x = concede(w, a);
    assert(w.peer_ok(a));
    lemma_with_acts(w, a, x.peers[a]);
    lemma_role_step(w, x, a);
}

/// A change of the role alone.
proof fn lemma_role_step<C>(w: World<C>, x: World<C>, a: NodeId)
    requires
        w.inv(),
        w.servers.contains(a),
        x == w.with(a, Peer { role: x.peers[a].role, ..w.peers[a] }),
        x.role_ok(a),
    ensures
        x.inv(),
        follows(w, x, a),
{
    reveal(World::inv);
    let p = w.peers[a];
    assert(w.peer_ok(a));
    lemma_with_acts(w, a, x.peers[a]);
    lemma_settled_grows(w, x, p.log, p.commit, p.term, p.term);
    lemma_grounded_grows(w, x, p.log, w.exempt(a));
    assert(x.ballot_ok(a)) by {
        assert forall|s: nat| #[trigger] x.voted(a, s) implies s <= p.term by {
            assert(w.voted(a, s));
        }
        if x.voted(a, p.term) {
            assert(w.voted(a, p.term));
        }
        if p.vote is Some {
            assert(w.voted(a, p.term));
        }
    }
    assert forall|s: nat, n: nat| n >= 1 && #[trigger] x.acked(a, s, n) implies x.ack_kept(
        a,
        s,
        n,
    ) by {
        assert(w.acked(a, s, n));
        lemma_acks_kept(w, x, a, s, n);
    }
    lemma_step(w, x, a);
}

/// A candidate with a majority becomes the leader, and appends an entry of its term.
pub open spec fn lead<C>(
    w: World<C>,
    a: NodeId,
    entry: EntryView<C>,
    matched: Map<NodeId, LogIndex>,
) -> World<C> {
    let p = w.peers[a];
    let log = p.log.push(entry);
    World {
        leaders: w.leaders.insert(p.term, a),
        electors: w.electors.insert(p.term, p.role->Candidate_0),
        leader_logs: w.leader_logs.insert(p.term, log),
        durable: w.durable.insert(p.term, log.len()),
        shown: w.shown.insert(p.term, log.len()),
        ..w.with(a, Peer { log, durable: log.len(), role: PeerRole::Leader(matched), ..p })
    }
}

pub proof fn lemma_lead<C>(
    w: World<C>,
    a: NodeId,
    entry: EntryView<C>,
    matched: Map<NodeId, LogIndex>,
)
    requires
        w.inv(),
        w.servers.contains(a),
        w.peers[a].role is Candidate,
        w.peers[a].durable == w.peers[a].log.len(),
        quorum::is_quorum(
            w.peers[a].role->Candidate_0,
            protocol::config_in(w.initial, w.peers[a].log),
        ),
        entry.term == w.peers[a].term,
        !(entry.payload is ConfigChange),
        forall|v: NodeId| #[trigger] matched.dom().contains(v) ==> matched[v].value == 0,
    ensures
        lead(w, a, entry, matched).inv(),
        follows(w, lead(w, a, entry, matched), a),
        !w.led(w.peers[a].term),
{
    reveal(World::inv);
    let x = lead(w, a, entry, matched);
    let p = w.peers[a];
    let t = p.term;
    let granted = p.role->Candidate_0;
    let log = p.log.push(entry);
    assert(w.peer_ok(a));
    assert(!w.led(t)) by {
        if w.led(t) {
            protocol::lemma_one_leader(w, t, a, granted);
        }
    }
    assert(w.voted(a, t));
    assert(w.vote_ok(a, t));
    assert(x.peers.dom() =~= w.servers);
    assert(x.leaders.dom() =~= w.leaders.dom().insert(t));
    assert(x.electors.dom() =~= w.leaders.dom().insert(t));
    assert(x.leader_logs.dom() =~= w.leaders.dom().insert(t));
    assert(x.durable.dom() =~= w.leaders.dom().insert(t));
    assert(x.shown.dom() =~= w.leaders.dom().insert(t));
    assert forall|s: nat| #[trigger] w.led(s) implies {
        &&& x.led(s)
        &&& x.leaders[s] == w.leaders[s]
        &&& x.electors[s] == w.electors[s]
        &&& extends(x.leader_logs[s], w.leader_logs[s], s)
        &&& w.durable[s] <= x.durable[s]
        &&& w.shown[s] <= x.shown[s]
    } by {
        assert(s != t);
        assert(w.leader_logs[s].take(w.leader_logs[s].len() as int) =~= w.leader_logs[s]);
    }
    assert(grows(w, x));
    assert forall|s: nat| #[trigger] x.led(s) && x.leaders[s] != a implies {
        &&& w.led(s)
        &&& x.leader_logs[s] == w.leader_logs[s]
        &&& x.durable[s] == w.durable[s]
        &&& x.shown[s] == w.shown[s]
    } by {
        assert(s != t);
    }
    assert(acts(w, x, a));
    assert(x.all_grounded(log, t)) by {
        assert forall|k: int| 0 <= k < log.len() implies #[trigger] x.grounded(log, k, t) by {
            if k < p.log.len() {
                assert(w.grounded(p.log, k, 0));
                let s = p.log[k].term;
                assert(log[k] == p.log[k]);
                lemma_agree_grows(w, x, p.log, s, (k + 1) as nat);
                lemma_agree_push(p.log, entry, x.leader_logs[s], (k + 1) as nat);
            } else {
                assert(log.take(log.len() as int) =~= log);
            }
        }
    }
    assert(protocol::ordered(log, t)) by {
        assert forall|i: int, j: int| 0 <= i <= j < log.len() implies (#[trigger] log[i]).term
            <= (#[trigger] log[j]).term by {
            if j < p.log.len() {
                assert(p.log[i].term <= p.log[j].term);
            } else if i < p.log.len() {
                assert(p.log[i].term <= t);
            }
        }
    }
    lemma_settled_grows(w, x, p.log, p.commit, t, t);
    assert(protocol::agree(log, p.log, p.commit)) by {
        assert(log.take(p.commit as int) =~= p.log.take(p.commit as int));
    }
    lemma_settled_transfers(x, p.log, log, p.commit, t);
    assert(x.leader_ok(t)) by {
        assert(x.base(t) == p.log);
        assert(log.take(p.log.len() as int) =~= p.log);
        assert(p.log.take(p.log.len() as int) =~= p.log);
        assert forall|v: NodeId| #[trigger] x.electors[t].contains(v) implies x.voted(v, t)
            && x.votes[(v, t)] == a by {
            assert(granted.contains(v));
            assert(w.voted(v, t));
        }
        assert(x.voted(a, t));
    }
    assert(x.ballot_ok(a)) by {
        assert forall|s: nat| #[trigger] x.voted(a, s) implies s <= t by {
            assert(w.voted(a, s));
        }
    }
    assert(x.led(t));
    assert forall|s: nat, n: nat| n >= 1 && #[trigger] x.acked(a, s, n) implies x.ack_kept(
        a,
        s,
        n,
    ) by {
        if w.acked(a, s, n) {
            assert(w.ack_kept(a, s, n));
            if protocol::agree(p.log, w.leader_logs[s], n) {
                lemma_agree_push(p.log, entry, w.leader_logs[s], n);
            }
            lemma_acks_kept(w, x, a, s, n);
        } else {
            assert(s == t) by {
                if exists|index: nat|
                    index >= n && #[trigger] x.notes.contains(
                        Note::Ack { term: s, from: a, index },
                    ) {
                    let index = choose|index: nat|
                        index >= n && #[trigger] x.notes.contains(
                            Note::Ack { term: s, from: a, index },
                        );
                    assert(w.notes.contains(Note::Ack { term: s, from: a, index }));
                }
            }
            assert(protocol::agree(log, x.leader_logs[t], n));
            assert forall|r: nat| #[trigger] x.voted(a, r) && r > t implies false by {
                assert(w.voted(a, r));
            }
        }
    }
    lemma_step(w, x, a);
}

proof fn lemma_agree_push<C>(log: Entries<C>, entry: EntryView<C>, other: Entries<C>, n: nat)
    requires
        protocol::agree(log, other, n),
    ensures
        protocol::agree(log.push(entry), other, n),
{
    assert(log.push(entry).take(n as int) =~= log.take(n as int));
}

// ---- Replication ----
/// A leader appends an entry of its term, and does not store it yet.
pub open spec fn push<C>(w: World<C>, a: NodeId, entry: EntryView<C>) -> World<C> {
    let p = w.peers[a];
    World {
        leader_logs: w.leader_logs.insert(p.term, p.log.push(entry)),
        ..w.with(a, Peer { log: p.log.push(entry), ..p })
    }
}

/// A server stores its log, and may show it.
pub open spec fn save<C>(w: World<C>, a: NodeId) -> World<C> {
    let p = w.peers[a];
    World {
        durable: if w.elected(a) {
            w.durable.insert(p.term, p.log.len())
        } else {
            w.durable
        },
        shown: if w.elected(a) {
            w.shown.insert(p.term, p.log.len())
        } else {
            w.shown
        },
        ..w.with(a, Peer { durable: p.log.len(), ..p })
    }
}

/// Whether a leader may put a membership in force: it differs by one server from the one in force,
/// and the leader has committed an entry of its own term behind every earlier change.
pub open spec fn may_change<C>(w: World<C>, a: NodeId, members: Set<NodeId>) -> bool {
    let p = w.peers[a];
    &&& w.fit(members)
    &&& protocol::near(protocol::config_in(w.initial, p.log), members)
    &&& p.commit > 0
    &&& p.log[p.commit - 1].term == p.term
    &&& protocol::steady(p.log, p.commit as int, p.log.len() as int)
}

pub proof fn lemma_push<C>(w: World<C>, a: NodeId, entry: EntryView<C>)
    requires
        w.inv(),
        w.servers.contains(a),
        w.peers[a].role is Leader,
        entry.term == w.peers[a].term,
        entry.payload matches PayloadView::ConfigChange(config) ==> may_change(
            w,
            a,
            config.dom(),
        ),
    ensures
        push(w, a, entry).inv(),
        follows(w, push(w, a, entry), a),
{
    reveal(World::inv);
    let x = push(w, a, entry);
    let p = w.peers[a];
    assert(w.peer_ok(a));
    assert(w.led(p.term));
    assert(w.leader_ok(p.term));
    let log = p.log.push(entry);
    assert(log.take(p.log.len() as int) =~= p.log);
    assert(w.durable.insert(p.term, p.durable) =~= w.durable);
    assert forall|k: int|
        p.log.len() <= k < log.len() && (#[trigger] log[k]).payload is ConfigChange implies {
        &&& w.fit(protocol::config_in(w.initial, log.take(k + 1)))
        &&& protocol::near(
            protocol::config_in(w.initial, log.take(k)),
            protocol::config_in(w.initial, log.take(k + 1)),
        )
        &&& exists|n: nat, m: nat| #[trigger]
            w.committed(p.term, n, m) && m <= k && protocol::steady(log, n as int, k)
    } by {
        assert(log.take(k + 1) =~= log);
        assert(log.drop_last() =~= p.log);
        let (t, c, m) = choose|t: nat, c: nat, m: nat| #[trigger]
            w.committed(t, c, m) && t <= p.term && p.commit <= c && protocol::agree(
                p.log,
                w.leader_logs[t],
                p.commit,
            );
        assert(w.leader_ok(t));
        protocol::lemma_agree_at(p.log, w.leader_logs[t], p.commit, p.commit - 1);
        assert(w.leader_logs[t][p.commit - 1].term <= t);
        assert(t == p.term);
        assert forall|i: int| c <= i < k implies !((#[trigger] log[i]).payload is ConfigChange) by {
            assert(!(p.log[i].payload is ConfigChange));
        }
        assert(w.committed(p.term, c, m) && m <= k && protocol::steady(log, c as int, k));
    }
    lemma_leader_grows(w, x, a);
}

/// A leader counts the first `n` entries of its log as stored, and does not show them yet.
pub open spec fn vouch<C>(w: World<C>, a: NodeId, n: nat) -> World<C> {
    let p = w.peers[a];
    World {
        durable: w.durable.insert(p.term, n),
        ..w.with(a, Peer { durable: n, ..p })
    }
}

pub proof fn lemma_vouch<C>(w: World<C>, a: NodeId, n: nat)
    requires
        w.inv(),
        w.servers.contains(a),
        w.elected(a),
        w.peers[a].durable <= n <= w.peers[a].log.len(),
    ensures
        vouch(w, a, n).inv(),
        follows(w, vouch(w, a, n), a),
{
    lemma_leader_stores(w, vouch(w, a, n), a);
}

/// What a server was elected with, or has appended since, it stores.
proof fn lemma_leader_stores<C>(w: World<C>, x: World<C>, a: NodeId)
    requires
        w.inv(),
        w.servers.contains(a),
        w.elected(a),
        x == vouch(w, a, x.peers[a].durable) || x == save(w, a),
        w.peers[a].durable <= x.peers[a].durable <= w.peers[a].log.len(),
    ensures
        x.inv(),
        follows(w, x, a),
{
    reveal(World::inv);
    let p = w.peers[a];
    let t = p.term;
    assert(w.peer_ok(a));
    assert(w.leader_ok(t));
    assert(x.peers.dom() =~= w.servers);
    assert(x.durable.dom() =~= w.leaders.dom());
    assert(x.shown.dom() =~= w.leaders.dom());
    assert forall|s: nat| #[trigger] w.led(s) implies {
        &&& x.led(s)
        &&& extends(x.leader_logs[s], w.leader_logs[s], s)
        &&& w.durable[s] <= x.durable[s]
        &&& w.shown[s] <= x.shown[s]
    } by {
        assert(w.leader_logs[s].take(w.leader_logs[s].len() as int) =~= w.leader_logs[s]);
    }
    assert(grows(w, x));
    assert(acts(w, x, a));
    lemma_grounded_grows(w, x, p.log, t);
    lemma_grounded_grows(w, x, w.leader_logs[t], t);
    lemma_settled_grows(w, x, p.log, p.commit, t, t);
    lemma_same_ballot(w, x, a);
    assert(x.role_ok(a)) by {
        if let PeerRole::Leader(matched) = p.role {
            assert forall|v: NodeId| #[trigger]
                matched.dom().contains(v) && matched[v].value > 0 implies x.acked(
                v,
                t,
                matched[v].value as nat,
            ) by {
                lemma_acked_grows(w, x, v, t, matched[v].value as nat);
            }
        }
    }
    assert(x.leader_ok(t)) by {
        let log = w.leader_logs[t];
        assert(w.voted(a, t));
        assert forall|v: NodeId| #[trigger] x.electors[t].contains(v) implies x.voted(v, t)
            && x.votes[(v, t)] == a by {
            assert(w.electors[t].contains(v));
            assert(w.voted(v, t));
        }
        assert forall|k: int|
            w.base(t).len() <= k < log.len()
                && (#[trigger] log[k]).payload is ConfigChange implies x.change_ok(t, k) by {
            lemma_change_ok_grows(w, x, t, k);
        }
    }
    assert forall|s: nat, n: nat| n >= 1 && #[trigger] x.acked(a, s, n) implies x.ack_kept(
        a,
        s,
        n,
    ) by {
        if w.acked(a, s, n) {
            lemma_acks_kept(w, x, a, s, n);
        } else {
            assert(s == t) by {
                if exists|index: nat|
                    index >= n && #[trigger] x.notes.contains(
                        Note::Ack { term: s, from: a, index },
                    ) {
                    let index = choose|index: nat|
                        index >= n && #[trigger] x.notes.contains(
                            Note::Ack { term: s, from: a, index },
                        );
                    assert(w.notes.contains(Note::Ack { term: s, from: a, index }));
                }
            }
            protocol::lemma_agree_shorter(p.log, w.leader_logs[t], p.log.len(), n);
            assert forall|r: nat| #[trigger] x.voted(a, r) && r > t implies false by {
                assert(w.voted(a, r));
            }
        }
    }
    lemma_step(w, x, a);
}

pub proof fn lemma_save<C>(w: World<C>, a: NodeId)
    requires
        w.inv(),
        w.servers.contains(a),
    ensures
        save(w, a).inv(),
        follows(w, save(w, a), a),
{
    reveal(World::inv);
    let x = save(w, a);
    let p = w.peers[a];
    assert(w.peer_ok(a));
    if w.elected(a) {
        lemma_leader_stores(w, x, a);
    } else {
        lemma_with_acts(w, a, x.peers[a]);
        lemma_settled_grows(w, x, p.log, p.commit, p.term, p.term);
        lemma_grounded_grows(w, x, p.log, 0);
        lemma_same_ballot(w, x, a);
        assert(x.role_ok(a)) by {
            if let PeerRole::Candidate(granted) = p.role {
                assert(w.voted(a, p.term));
            }
        }
        assert forall|s: nat, n: nat| n >= 1 && #[trigger] x.acked(a, s, n) implies x.ack_kept(
            a,
            s,
            n,
        ) by {
            assert(w.acked(a, s, n));
            lemma_acks_kept(w, x, a, s, n);
        }
        lemma_step(w, x, a);
    }
}

/// A ballot that did not change stays what it was.
proof fn lemma_same_ballot<C>(w: World<C>, x: World<C>, a: NodeId)
    requires
        w.ballot_ok(a),
        x.peers[a].vote == w.peers[a].vote,
        x.peers[a].term == w.peers[a].term,
        x.votes == w.votes,
    ensures
        x.ballot_ok(a),
{
    let p = w.peers[a];
    assert forall|s: nat| #[trigger] x.voted(a, s) implies s <= p.term by {
        assert(w.voted(a, s));
    }
    if x.voted(a, p.term) {
        assert(w.voted(a, p.term));
    }
    if p.vote is Some {
        assert(w.voted(a, p.term));
    }
}

/// A leader's log grows by entries of its own, or more of it is stored.
proof fn lemma_leader_grows<C>(w: World<C>, x: World<C>, a: NodeId)
    requires
        w.inv(),
        w.servers.contains(a),
        w.peers[a].role is Leader,
        x.peers[a] == (Peer { log: x.peers[a].log, durable: x.peers[a].durable, ..w.peers[a] }),
        extends(x.peers[a].log, w.peers[a].log, w.peers[a].term),
        w.peers[a].durable <= x.peers[a].durable <= x.peers[a].log.len(),
        x == (World {
            peers: w.peers.insert(a, x.peers[a]),
            leader_logs: w.leader_logs.insert(w.peers[a].term, x.peers[a].log),
            durable: w.durable.insert(w.peers[a].term, x.peers[a].durable),
            ..w
        }),
        forall|k: int|
            w.peers[a].log.len() <= k < x.peers[a].log.len() && (
            #[trigger] x.peers[a].log[k]).payload is ConfigChange ==> {
                let log = x.peers[a].log;
                &&& w.fit(protocol::config_in(w.initial, log.take(k + 1)))
                &&& protocol::near(
                    protocol::config_in(w.initial, log.take(k)),
                    protocol::config_in(w.initial, log.take(k + 1)),
                )
                &&& exists|n: nat, m: nat| #[trigger]
                    w.committed(w.peers[a].term, n, m) && m <= k && protocol::steady(
                        log,
                        n as int,
                        k,
                    )
            },
    ensures
        x.inv(),
        follows(w, x, a),
{
    reveal(World::inv);
    let p = w.peers[a];
    let q = x.peers[a];
    let t = p.term;
    assert(w.peer_ok(a));
    assert(w.led(t));
    assert(w.leader_ok(t));
    assert(p.log.take(p.log.len() as int) =~= p.log);
    assert(extends(q.log, p.log, t));
    assert(x.peers.dom() =~= w.servers);
    assert(x.leader_logs.dom() =~= w.leaders.dom());
    assert(x.durable.dom() =~= w.leaders.dom());
    assert(x.leader_logs[t] == q.log);
    assert(x.durable[t] == q.durable);
    assert forall|s: nat| #[trigger] w.led(s) implies {
        &&& x.led(s)
        &&& x.leaders[s] == w.leaders[s]
        &&& x.electors[s] == w.electors[s]
        &&& extends(x.leader_logs[s], w.leader_logs[s], s)
        &&& w.durable[s] <= x.durable[s]
        &&& w.shown[s] <= x.shown[s]
    } by {
        if s != t {
            assert(w.leader_logs[s].take(w.leader_logs[s].len() as int) =~= w.leader_logs[s]);
        }
    }
    assert(grows(w, x));
    assert forall|s: nat| #[trigger] x.led(s) && x.leaders[s] != a implies {
        &&& w.led(s)
        &&& x.leader_logs[s] == w.leader_logs[s]
        &&& x.durable[s] == w.durable[s]
        &&& x.shown[s] == w.shown[s]
    } by {
        assert(s != t);
    }
    assert(acts(w, x, a));
    assert(x.all_grounded(q.log, t)) by {
        assert forall|k: int| 0 <= k < q.log.len() implies #[trigger] x.grounded(q.log, k, t) by {
            if k < p.log.len() {
                assert(w.grounded(p.log, k, t));
                let s = p.log[k].term;
                assert(q.log.take(p.log.len() as int)[k] == q.log[k]);
                lemma_agree_grows(w, x, p.log, s, (k + 1) as nat);
                assert(q.log.take(k + 1) =~= q.log.take(p.log.len() as int).take(k + 1));
            } else {
                assert(q.log[k].term == t);
            }
        }
    }
    assert(protocol::ordered(q.log, t)) by {
        assert forall|k: int| 0 <= k < q.log.len() implies 1 <= (#[trigger] q.log[k]).term <= t by {
            if k < p.log.len() {
                assert(q.log.take(p.log.len() as int)[k] == q.log[k]);
                assert(p.log[k].term <= t);
            }
        }
        assert forall|i: int, j: int| 0 <= i <= j < q.log.len() implies (#[trigger] q.log[i]).term
            <= (#[trigger] q.log[j]).term by {
            if j < p.log.len() {
                assert(q.log.take(p.log.len() as int)[i] == q.log[i]);
                assert(q.log.take(p.log.len() as int)[j] == q.log[j]);
                assert(p.log[i].term <= p.log[j].term);
            }
        }
    }
    lemma_settled_grows(w, x, p.log, p.commit, t, t);
    assert(protocol::agree(q.log, p.log, p.commit)) by {
        assert(q.log.take(p.commit as int) =~= q.log.take(p.log.len() as int).take(
            p.commit as int,
        ));
    }
    lemma_settled_transfers(x, p.log, q.log, p.commit, t);
    assert(x.leader_ok(t)) by {
        let base = w.base(t);
        assert(w.voted(a, t));
        assert(q.log.take(base.len() as int) =~= q.log.take(p.log.len() as int).take(
            base.len() as int,
        ));
        assert forall|k: int| base.len() <= k < q.log.len() implies (#[trigger] q.log[k]).term
            == t by {
            if k < p.log.len() {
                assert(q.log.take(p.log.len() as int)[k] == q.log[k]);
                assert(p.log[k].term == t);
            }
        }
        assert forall|v: NodeId| #[trigger] x.electors[t].contains(v) implies x.voted(v, t)
            && x.votes[(v, t)] == a by {
            assert(w.electors[t].contains(v));
            assert(w.voted(v, t));
        }
        assert forall|k: int|
            base.len() <= k < q.log.len()
                && (#[trigger] q.log[k]).payload is ConfigChange implies x.change_ok(t, k) by {
            if k < p.log.len() {
                assert(q.log.take(p.log.len() as int)[k] == q.log[k]);
                assert(p.log[k].payload is ConfigChange);
                lemma_change_ok_grows(w, x, t, k);
            } else {
                let (n, m) = choose|n: nat, m: nat| #[trigger]
                    w.committed(t, n, m) && m <= k && protocol::steady(q.log, n as int, k);
                lemma_committed_grows(w, x, t, n, m);
                assert(x.committed(t, n, m) && m <= k && protocol::steady(q.log, n as int, k));
            }
        }
    }
    lemma_same_ballot(w, x, a);
    assert(x.role_ok(a)) by {
        let matched = p.role->Leader_0;
        assert forall|v: NodeId| #[trigger]
            matched.dom().contains(v) && matched[v].value > 0 implies x.acked(
            v,
            t,
            matched[v].value as nat,
        ) by {
            lemma_acked_grows(w, x, v, t, matched[v].value as nat);
        }
    }
    assert forall|s: nat, n: nat| n >= 1 && #[trigger] x.acked(a, s, n) implies x.ack_kept(
        a,
        s,
        n,
    ) by {
        if w.acked(a, s, n) {
            assert(w.ack_kept(a, s, n));
            if protocol::agree(p.log, w.leader_logs[s], n) {
                assert(q.log.take(n as int) =~= q.log.take(p.log.len() as int).take(n as int));
            }
            lemma_acks_kept(w, x, a, s, n);
        } else {
            assert(s == t) by {
                if exists|index: nat|
                    index >= n && #[trigger] x.notes.contains(
                        Note::Ack { term: s, from: a, index },
                    ) {
                    let index = choose|index: nat|
                        index >= n && #[trigger] x.notes.contains(
                            Note::Ack { term: s, from: a, index },
                        );
                    assert(w.notes.contains(Note::Ack { term: s, from: a, index }));
                }
            }
            assert forall|r: nat| #[trigger] x.voted(a, r) && r > t implies false by {
                assert(w.voted(a, r));
            }
        }
    }
    lemma_step(w, x, a);
}

/// A leader takes note of how far its peers have come.
pub open spec fn set_matched<C>(
    w: World<C>,
    a: NodeId,
    matched: Map<NodeId, LogIndex>,
) -> World<C> {
    w.with(a, Peer { role: PeerRole::Leader(matched), ..w.peers[a] })
}

pub proof fn lemma_set_matched<C>(w: World<C>, a: NodeId, matched: Map<NodeId, LogIndex>)
    requires
        w.inv(),
        w.servers.contains(a),
        w.peers[a].role is Leader,
        forall|v: NodeId| #[trigger]
            matched.dom().contains(v) && matched[v].value > 0 ==> w.acked(
                v,
                w.peers[a].term,
                matched[v].value as nat,
            ),
    ensures
        set_matched(w, a, matched).inv(),
        follows(w, set_matched(w, a, matched), a),
{
    reveal(World::inv);
    let x = set_matched(w, a, matched);
    let p = w.peers[a];
    assert(w.peer_ok(a));
    lemma_with_acts(w, a, x.peers[a]);
    assert forall|v: NodeId| #[trigger]
        matched.dom().contains(v) && matched[v].value > 0 implies x.acked(
        v,
        p.term,
        matched[v].value as nat,
    ) by {
        lemma_acked_grows(w, x, v, p.term, matched[v].value as nat);
    }
    lemma_role_step(w, x, a);
}

/// A server learns that more is committed.
pub open spec fn commit_to<C>(w: World<C>, a: NodeId, n: nat) -> World<C> {
    w.with(a, Peer { commit: n, ..w.peers[a] })
}

pub proof fn lemma_commit_to<C>(w: World<C>, a: NodeId, n: nat)
    requires
        w.inv(),
        w.servers.contains(a),
        n <= w.peers[a].log.len(),
        w.settled(w.peers[a].log, n, w.peers[a].term),
    ensures
        commit_to(w, a, n).inv(),
        follows(w, commit_to(w, a, n), a),
{
    reveal(World::inv);
    let x = commit_to(w, a, n);
    let p = w.peers[a];
    assert(w.peer_ok(a));
    lemma_with_acts(w, a, x.peers[a]);
    lemma_settled_grows(w, x, p.log, n, p.term, p.term);
    lemma_grounded_grows(w, x, p.log, w.exempt(a));
    lemma_same_ballot(w, x, a);
    assert(x.role_ok(a)) by {
        if let PeerRole::Leader(matched) = p.role {
            assert(w.led(p.term));
            assert forall|v: NodeId| #[trigger]
                matched.dom().contains(v) && matched[v].value > 0 implies x.acked(
                v,
                p.term,
                matched[v].value as nat,
            ) by {
                lemma_acked_grows(w, x, v, p.term, matched[v].value as nat);
            }
        }
        if let PeerRole::Candidate(granted) = p.role {
            assert(w.voted(a, p.term));
            assert forall|v: NodeId| #[trigger] granted.contains(v) implies x.voted(v, p.term)
                && x.votes[(v, p.term)] == a by {
                assert(w.voted(v, p.term));
            }
        }
    }
    assert forall|s: nat, m: nat| m >= 1 && #[trigger] x.acked(a, s, m) implies x.ack_kept(
        a,
        s,
        m,
    ) by {
        assert(w.acked(a, s, m));
        lemma_acks_kept(w, x, a, s, m);
    }
    lemma_step(w, x, a);
}

/// What a majority has acknowledged of a leader's log, down to an entry of its term, is settled.
pub proof fn lemma_majority_settles<C>(w: World<C>, a: NodeId, n: nat, q: Set<NodeId>)
    requires
        w.inv(),
        w.servers.contains(a),
        w.peers[a].role is Leader,
        1 <= n <= w.peers[a].log.len(),
        w.peers[a].log[n - 1].term == w.peers[a].term,
        quorum::is_quorum(q, protocol::config_in(w.initial, w.peers[a].log)),
        n <= w.peers[a].durable || q != set![a],
        forall|v: NodeId| #[trigger]
            q.contains(v) && v != a ==> w.acked(v, w.peers[a].term, n),
    ensures
        w.settled(w.peers[a].log, n, w.peers[a].term),
{
    reveal(World::inv);
    let p = w.peers[a];
    let t = p.term;
    assert(w.peer_ok(a));
    assert(w.leader_ok(t));
    let members = protocol::config_in(w.initial, p.log);
    protocol::lemma_config_fit(w, p.log, t);
    assert(n <= w.durable[t]) by {
        vstd::set_lib::lemma_len_subset(q, members);
        let others = q.remove(a);
        if others.len() == 0 {
            assert(q.contains(a)) by {
                if !q.contains(a) {
                    assert(others =~= q);
                }
            }
            assert forall|v: NodeId| q.contains(v) implies v == a by {
                if v != a {
                    assert(others.contains(v));
                }
            }
            assert(q =~= set![a]);
        }
        if others.len() > 0 {
            let v = others.choose();
            assert(others.contains(v));
            assert(q.contains(v) && v != a);
            assert(w.acked(v, t, n));
            assert(w.ack_kept(v, t, n));
        }
    }
    assert forall|v: NodeId| #[trigger] q.contains(v) implies w.acked(v, t, n) by {
        if v == a {
            assert(w.led(t) && w.leaders[t] == a);
        }
    }
    let m = p.log.len();
    assert(p.log.take(m as int) =~= p.log);
    assert(w.committed(t, n, m));
    assert(protocol::agree(p.log, w.leader_logs[t], n));
}

/// A follower replaces its log by one that keeps what it must.
pub open spec fn replace_log<C>(w: World<C>, a: NodeId, log: Entries<C>) -> World<C> {
    w.with(a, Peer { log, durable: log.len(), ..w.peers[a] })
}

/// A follower may replace its log by a part of the log of the leader of its term that has not lost
/// anything the two had in common.
pub proof fn lemma_replace_log<C>(w: World<C>, a: NodeId, log: Entries<C>)
    requires
        w.inv(),
        w.servers.contains(a),
        w.peers[a].role is Follower,
        w.peers[a].durable == w.peers[a].log.len(),
        w.led(w.peers[a].term),
        w.leaders[w.peers[a].term] != a,
        log.len() <= w.shown[w.peers[a].term],
        protocol::agree(log, w.leader_logs[w.peers[a].term], log.len()),
        forall|n: nat| #[trigger]
            protocol::agree(
                w.peers[a].log,
                w.leader_logs[w.peers[a].term],
                n,
            ) ==> n <= log.len(),
    ensures
        replace_log(w, a, log).inv(),
        follows(w, replace_log(w, a, log), a),
{
    reveal(World::inv);
    let x = replace_log(w, a, log);
    let p = w.peers[a];
    let t = p.term;
    let theirs = w.leader_logs[t];
    assert(w.peer_ok(a));
    assert(w.leader_ok(t));
    lemma_with_acts(w, a, x.peers[a]);
    assert(x.all_grounded(log, 0)) by {
        assert forall|k: int| 0 <= k < log.len() implies #[trigger] x.grounded(log, k, 0) by {
            protocol::lemma_agree_at(log, theirs, log.len(), k);
            assert(w.grounded(theirs, k, t));
            protocol::lemma_agree_shorter(log, theirs, log.len(), (k + 1) as nat);
            protocol::lemma_agree_trans(
                log,
                theirs,
                w.leader_logs[log[k].term],
                (k + 1) as nat,
            );
        }
    }
    assert(protocol::ordered(log, t)) by {
        assert forall|k: int| 0 <= k < log.len() implies 1 <= (#[trigger] log[k]).term <= t by {
            protocol::lemma_agree_at(log, theirs, log.len(), k);
            assert(theirs[k].term <= t);
        }
        assert forall|i: int, j: int| 0 <= i <= j < log.len() implies (#[trigger] log[i]).term <= (
        #[trigger] log[j]).term by {
            protocol::lemma_agree_at(log, theirs, log.len(), i);
            protocol::lemma_agree_at(log, theirs, log.len(), j);
            assert(theirs[i].term <= theirs[j].term);
        }
    }
    protocol::lemma_settled_in_leader(w, p.log, p.commit, t, t);
    assert(p.commit <= log.len());
    protocol::lemma_agree_shorter(log, theirs, log.len(), p.commit);
    protocol::lemma_agree_trans(log, theirs, p.log, p.commit);
    lemma_settled_transfers(w, p.log, log, p.commit, t);
    lemma_settled_grows(w, x, log, p.commit, t, t);
    lemma_same_ballot(w, x, a);
    assert forall|s: nat, n: nat| n >= 1 && #[trigger] x.acked(a, s, n) implies x.ack_kept(
        a,
        s,
        n,
    ) by {
        assert(w.acked(a, s, n));
        assert(w.ack_kept(a, s, n));
        if protocol::agree(p.log, w.leader_logs[s], n) {
            if protocol::agree(theirs, w.leader_logs[s], n) {
                protocol::lemma_agree_trans(p.log, w.leader_logs[s], theirs, n);
                assert(n <= log.len());
                protocol::lemma_agree_shorter(log, theirs, log.len(), n);
                protocol::lemma_agree_trans(log, theirs, w.leader_logs[s], n);
            } else {
                assert(s < t) by {
                    if s == t {
                        assert(n <= theirs.len());
                        assert(protocol::agree(theirs, w.leader_logs[s], n));
                    }
                }
                assert(w.supplanted(s, n, t));
            }
        }
        lemma_acks_kept(w, x, a, s, n);
    }
    lemma_step(w, x, a);
}

// ---- Notes ----
/// Something is said that is not an acknowledgement.
pub open spec fn say<C>(w: World<C>, said: Set<Note<C>>) -> World<C> {
    World { notes: w.notes.union(said), ..w }
}

pub proof fn lemma_say<C>(w: World<C>, a: NodeId, said: Set<Note<C>>)
    requires
        w.inv(),
        w.servers.contains(a),
        forall|note: Note<C>| #[trigger]
            said.contains(note) ==> w.note_ok(note) && !(note is Ack),
    ensures
        say(w, said).inv(),
        follows(w, say(w, said), a),
{
    reveal(World::inv);
    let x = say(w, said);
    let p = w.peers[a];
    assert(w.peer_ok(a));
    lemma_note_acts(w, x, a);
    assert forall|note: Note<C>| #[trigger]
        x.notes.contains(note) && !w.notes.contains(note) implies x.note_ok(note) by {
        assert(said.contains(note));
        lemma_note_ok_grows(w, x, note);
    }
    assert forall|s: nat, n: nat| n >= 1 && #[trigger] x.acked(a, s, n) implies x.ack_kept(
        a,
        s,
        n,
    ) by {
        assert(w.acked(a, s, n)) by {
            if exists|index: nat|
                index >= n && #[trigger] x.notes.contains(
                    Note::Ack { term: s, from: a, index },
                ) {
                let index = choose|index: nat|
                    index >= n && #[trigger] x.notes.contains(
                        Note::Ack { term: s, from: a, index },
                    );
                assert(!said.contains(Note::Ack { term: s, from: a, index }));
                assert(w.notes.contains(Note::Ack { term: s, from: a, index }));
            }
        }
        lemma_acks_kept(w, x, a, s, n);
    }
    lemma_step(w, x, a);
}

/// Saying more leaves every server as it was.
proof fn lemma_note_acts<C>(w: World<C>, x: World<C>, a: NodeId)
    requires
        w.inv(),
        w.servers.contains(a),
        x == (World { notes: x.notes, ..w }),
        forall|note: Note<C>| #[trigger] w.notes.contains(note) ==> x.notes.contains(note),
        forall|t: nat, v: NodeId, index: nat| #[trigger]
            x.notes.contains(Note::Ack { term: t, from: v, index }) && v != a
                ==> w.notes.contains(Note::Ack { term: t, from: v, index }),
    ensures
        acts(w, x, a),
        x.peer_ok(a),
{
    reveal(World::inv);
    let p = w.peers[a];
    assert(w.peer_ok(a));
    assert forall|t: nat| #[trigger] w.led(t) implies extends(
        x.leader_logs[t],
        w.leader_logs[t],
        t,
    ) by {
        assert(w.leader_logs[t].take(w.leader_logs[t].len() as int) =~= w.leader_logs[t]);
    }
    assert(grows(w, x));
    assert(acts(w, x, a));
    lemma_settled_grows(w, x, p.log, p.commit, p.term, p.term);
    lemma_grounded_grows(w, x, p.log, w.exempt(a));
    lemma_same_ballot(w, x, a);
    assert(x.role_ok(a)) by {
        if let PeerRole::Leader(matched) = p.role {
            assert(w.led(p.term));
            assert forall|v: NodeId| #[trigger]
                matched.dom().contains(v) && matched[v].value > 0 implies x.acked(
                v,
                p.term,
                matched[v].value as nat,
            ) by {
                lemma_acked_grows(w, x, v, p.term, matched[v].value as nat);
            }
        }
        if let PeerRole::Candidate(granted) = p.role {
            assert(w.voted(a, p.term));
            assert forall|v: NodeId| #[trigger] granted.contains(v) implies x.voted(v, p.term)
                && x.votes[(v, p.term)] == a by {
                assert(w.voted(v, p.term));
            }
        }
    }
}

/// A server acknowledges the first `n` entries of the leader of its term.
pub open spec fn ack<C>(w: World<C>, a: NodeId, n: nat) -> World<C> {
    World {
        notes: w.notes.insert(Note::Ack { term: w.peers[a].term, from: a, index: n }),
        ..w
    }
}

pub proof fn lemma_ack<C>(w: World<C>, a: NodeId, n: nat)
    requires
        w.inv(),
        w.servers.contains(a),
        n > 0 ==> {
            &&& w.led(w.peers[a].term)
            &&& n <= w.durable[w.peers[a].term]
            &&& n <= w.peers[a].durable
            &&& protocol::agree(w.peers[a].log, w.leader_logs[w.peers[a].term], n)
        },
    ensures
        ack(w, a, n).inv(),
        follows(w, ack(w, a, n), a),
{
    reveal(World::inv);
    let x = ack(w, a, n);
    let p = w.peers[a];
    let t = p.term;
    let note = Note::<C>::Ack { term: t, from: a, index: n };
    assert(w.peer_ok(a));
    lemma_note_acts(w, x, a);
    assert forall|s: nat, m: nat| m >= 1 && #[trigger] x.acked(a, s, m) implies x.ack_kept(
        a,
        s,
        m,
    ) by {
        if w.acked(a, s, m) {
            lemma_acks_kept(w, x, a, s, m);
        } else {
            let index = choose|index: nat|
                index >= m && #[trigger] x.notes.contains(Note::Ack { term: s, from: a, index });
            if w.notes.contains(Note::Ack { term: s, from: a, index }) {
                assert(w.acked(a, s, m));
            }
            assert(Note::<C>::Ack { term: s, from: a, index } == note);
            protocol::lemma_agree_shorter(p.log, w.leader_logs[t], n, m);
            assert forall|r: nat| #[trigger] x.voted(a, r) && r > t implies false by {
                assert(w.voted(a, r));
            }
        }
    }
    lemma_step(w, x, a);
}

// ---- Crashes ----
/// A server crashes and comes back with what it had stored.
pub open spec fn restart<C>(w: World<C>, a: NodeId, commit: nat) -> World<C> {
    let p = w.peers[a];
    w.with(
        a,
        Peer {
            log: p.log.take(p.durable as int),
            commit,
            role: PeerRole::Follower,
            ..p
        },
    )
}

pub proof fn lemma_restart<C>(w: World<C>, a: NodeId, commit: nat)
    requires
        w.inv(),
        w.servers.contains(a),
        commit <= w.peers[a].commit,
        commit <= w.peers[a].durable,
    ensures
        restart(w, a, commit).inv(),
        follows(w, restart(w, a, commit), a),
{
    reveal(World::inv);
    let x = restart(w, a, commit);
    let p = w.peers[a];
    let log = p.log.take(p.durable as int);
    assert(w.peer_ok(a));
    lemma_with_acts(w, a, x.peers[a]);
    assert(x.elected(a) == w.elected(a));
    protocol::lemma_grounded_take(w, p.log, w.exempt(a), p.durable);
    lemma_grounded_grows(w, x, log, w.exempt(a));
    if w.elected(a) {
        protocol::lemma_agree_shorter(p.log, w.leader_logs[p.term], p.log.len(), p.durable);
        assert(log.take(p.durable as int) =~= log);
    }
    assert(protocol::ordered(log, p.term)) by {
        assert forall|i: int, j: int| 0 <= i <= j < log.len() implies (#[trigger] log[i]).term <= (
        #[trigger] log[j]).term by {
            assert(p.log[i].term <= p.log[j].term);
        }
        assert forall|k: int| 0 <= k < log.len() implies 1 <= (#[trigger] log[k]).term
            <= p.term by {
            assert(p.log[k].term <= p.term);
        }
    }
    lemma_settled_shorter(w, p.log, p.commit, commit, p.term);
    assert(protocol::agree(log, p.log, commit)) by {
        assert(log.take(commit as int) =~= p.log.take(commit as int));
    }
    lemma_settled_transfers(w, p.log, log, commit, p.term);
    lemma_settled_grows(w, x, log, commit, p.term, p.term);
    lemma_same_ballot(w, x, a);
    assert forall|s: nat, n: nat| n >= 1 && #[trigger] x.acked(a, s, n) implies x.ack_kept(
        a,
        s,
        n,
    ) by {
        assert(w.acked(a, s, n));
        if protocol::agree(p.log, w.leader_logs[s], n) && n <= p.durable {
            assert(log.take(n as int) =~= p.log.take(n as int));
        }
        lemma_acks_kept(w, x, a, s, n);
    }
    lemma_step(w, x, a);
}

// ---- The beginning ----
/// A cluster in which nothing has happened.
pub open spec fn beginning<C>(servers: Set<NodeId>, initial: Members) -> World<C> {
    World {
        servers,
        initial,
        peers: Map::new(
            |id: NodeId| servers.contains(id),
            |id: NodeId|
                Peer {
                    term: 0,
                    vote: None,
                    log: Seq::empty(),
                    durable: 0,
                    commit: 0,
                    role: PeerRole::Follower,
                },
        ),
        notes: Set::empty(),
        votes: Map::empty(),
        vote_logs: Map::empty(),
        leaders: Map::empty(),
        electors: Map::empty(),
        leader_logs: Map::empty(),
        durable: Map::empty(),
        shown: Map::empty(),
    }
}

pub proof fn lemma_beginning<C>(servers: Set<NodeId>, initial: Members)
    requires
        initial.dom().finite(),
        initial.dom().len() >= 1,
        initial.dom().subset_of(servers),
    ensures
        beginning::<C>(servers, initial).inv(),
{
    reveal(World::inv);
    let w = beginning::<C>(servers, initial);
    assert(w.peers.dom() =~= servers);
}

} // verus!
