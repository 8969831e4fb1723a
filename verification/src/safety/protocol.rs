//! The protocol over whole logs, and its invariant.
use vstd::prelude::*;

use crate::types::config::Members;
use crate::types::log;
use crate::types::log::EntryView;
use crate::types::primitives::LogIndex;
use crate::types::primitives::NodeId;
use crate::types::quorum;

verus! {

/// A whole log: the entry with index `i` is at position `i - 1`.
pub type Entries<C> = Seq<EntryView<C>>;

/// The role of a server.
pub enum PeerRole {
    Follower,
    /// Those who granted this server their vote.
    Candidate(Set<NodeId>),
    /// How far each peer has acknowledged the log.
    Leader(Map<NodeId, LogIndex>),
}

/// A server.
pub struct Peer<C> {
    pub term: nat,
    pub vote: Option<NodeId>,
    pub log: Entries<C>,
    /// How much of the log is in storage.
    pub durable: nat,
    pub commit: nat,
    pub role: PeerRole,
}

/// Something that was said.
pub enum Note<C> {
    VoteRequest { term: nat, candidate: NodeId, last_index: nat, last_term: nat },
    Grant { term: nat, voter: NodeId, candidate: NodeId },
    Append { term: nat, prev: nat, prev_term: nat, entries: Entries<C>, commit: nat },
    Snap { term: nat, index: nat, index_term: nat },
    Ack { term: nat, from: NodeId, index: nat },
}

/// A cluster, with what has happened in it.
#[verifier::reject_recursive_types(C)]
pub struct World<C> {
    /// All servers, members or not.
    pub servers: Set<NodeId>,
    /// The membership that every server starts with.
    pub initial: Members,
    pub peers: Map<NodeId, Peer<C>>,
    pub notes: Set<Note<C>>,
    /// Who a server voted for in a term, and what its log was at that moment.
    pub votes: Map<(NodeId, nat), NodeId>,
    pub vote_logs: Map<(NodeId, nat), Entries<C>>,
    /// Who led a term, elected by whom, and what its log was at the end of it. How much of that
    /// counts as stored, and how much of it others can have heard of.
    pub leaders: Map<nat, NodeId>,
    pub electors: Map<nat, Set<NodeId>>,
    pub leader_logs: Map<nat, Entries<C>>,
    pub durable: Map<nat, nat>,
    pub shown: Map<nat, nat>,
}

/// Whether two logs have the same first `n` entries.
pub open spec fn agree<C>(a: Entries<C>, b: Entries<C>, n: nat) -> bool {
    &&& n <= a.len()
    &&& n <= b.len()
    &&& a.take(n as int) == b.take(n as int)
}

/// Term of the last entry.
pub open spec fn last_term<C>(log: Entries<C>) -> nat {
    if log.len() == 0 {
        0
    } else {
        log.last().term
    }
}

/// Whether a log that ends like this is at least as up to date as `log`.
pub open spec fn up_to_date<C>(term: nat, index: nat, log: Entries<C>) -> bool {
    ||| term > last_term(log)
    ||| term == last_term(log) && index >= log.len()
}

/// Terms are positive, never decrease along the log, and are at most `max`.
pub open spec fn ordered<C>(log: Entries<C>, max: nat) -> bool {
    &&& forall|i: int| 0 <= i < log.len() ==> 1 <= (#[trigger] log[i]).term <= max
    &&& forall|i: int, j: int|
        0 <= i <= j < log.len() ==> (#[trigger] log[i]).term <= (#[trigger] log[j]).term
}

/// The membership that a log puts in force: the newest one in it, or the first.
pub open spec fn config_in<C>(initial: Members, log: Entries<C>) -> Set<NodeId> {
    match log::latest_config(log) {
        Some(config) => config.dom(),
        None => initial.dom(),
    }
}

/// Whether two memberships differ by at most one server.
pub open spec fn near(a: Set<NodeId>, b: Set<NodeId>) -> bool {
    exists|id: NodeId| #[trigger] a.insert(id) == b.insert(id)
}

/// Whether there is no membership change at the positions from `i` up to `j`.
pub open spec fn steady<C>(log: Entries<C>, i: int, j: int) -> bool {
    forall|k: int| i <= k < j ==> !((#[trigger] log[k]).payload is ConfigChange)
}

impl<C> World<C> {
    pub open spec fn led(self, t: nat) -> bool {
        self.leaders.dom().contains(t)
    }

    pub open spec fn voted(self, v: NodeId, t: nat) -> bool {
        self.votes.dom().contains((v, t))
    }

    /// The log that the leader of `t` was elected with.
    pub open spec fn base(self, t: nat) -> Entries<C> {
        self.vote_logs[(self.leaders[t], t)]
    }

    /// Whether the entry at `k` comes from a leader: up to there, the log is that leader's, and it
    /// is something the leader had shown, unless it is the leader of `exempt`.
    pub open spec fn grounded(self, log: Entries<C>, k: int, exempt: nat) -> bool {
        let t = log[k].term;
        &&& self.led(t)
        &&& agree(log, self.leader_logs[t], (k + 1) as nat)
        &&& k < self.shown[t] || t == exempt
    }

    /// Whether every entry comes from a leader.
    pub open spec fn all_grounded(self, log: Entries<C>, exempt: nat) -> bool {
        forall|k: int| 0 <= k < log.len() ==> #[trigger] self.grounded(log, k, exempt)
    }

    /// Whether `v` has said that it stores the first `n` entries of the leader of `t`.
    pub open spec fn acked(self, v: NodeId, t: nat, n: nat) -> bool {
        ||| exists|index: nat|
            index >= n && #[trigger] self.notes.contains(Note::Ack { term: t, from: v, index })
        ||| self.led(t) && self.leaders[t] == v && n <= self.durable[t]
    }

    /// Whether a leader since `t` and up to `last` has a log without the first `n` entries of the
    /// leader of `t`.
    pub open spec fn supplanted(self, t: nat, n: nat, last: nat) -> bool {
        exists|s: nat|
            t < s <= last && #[trigger] self.led(s) && !agree(
                self.leader_logs[s],
                self.leader_logs[t],
                n,
            )
    }

    /// Whether a majority stores the first `n` entries of the leader of `t`, the last of which it
    /// created itself. The majority is one of the membership that the first `m` entries put in
    /// force.
    pub open spec fn committed(self, t: nat, n: nat, m: nat) -> bool {
        &&& self.led(t)
        &&& 1 <= n <= self.durable[t]
        &&& n <= m <= self.leader_logs[t].len()
        &&& self.leader_logs[t][n - 1].term == t
        &&& exists|q: Set<NodeId>| #[trigger]
            quorum::is_quorum(q, config_in(self.initial, self.leader_logs[t].take(m as int)))
                && forall|v: NodeId| #[trigger] q.contains(v) ==> self.acked(v, t, n)
    }

    /// Whether the first `n` entries of `log` are committed, by a leader up to `last`.
    pub open spec fn settled(self, log: Entries<C>, n: nat, last: nat) -> bool {
        n == 0 || exists|t: nat, c: nat, m: nat| #[trigger]
            self.committed(t, c, m) && t <= last && n <= c && agree(log, self.leader_logs[t], n)
    }

    /// Whether a membership is one that can be in force.
    pub open spec fn fit(self, members: Set<NodeId>) -> bool {
        &&& members.finite()
        &&& members.len() >= 1
        &&& members.subset_of(self.servers)
    }

    /// Whether the leader of `t` may have put a membership in force with the entry at position `k`:
    /// it differs by one server from the one before, and the leader had committed an entry of its
    /// own term behind every earlier change.
    pub open spec fn change_ok(self, t: nat, k: int) -> bool {
        let log = self.leader_logs[t];
        &&& self.fit(config_in(self.initial, log.take(k + 1)))
        &&& near(
            config_in(self.initial, log.take(k)),
            config_in(self.initial, log.take(k + 1)),
        )
        &&& exists|n: nat, m: nat| #[trigger]
            self.committed(t, n, m) && m <= k && steady(log, n as int, k)
    }

    // ---- The invariant ----
    pub open spec fn shape(self) -> bool {
        &&& self.fit(self.initial.dom())
        &&& self.peers.dom() == self.servers
        &&& self.votes.dom() == self.vote_logs.dom()
        &&& self.leaders.dom() == self.electors.dom()
        &&& self.leaders.dom() == self.leader_logs.dom()
        &&& self.leaders.dom() == self.durable.dom()
        &&& self.leaders.dom() == self.shown.dom()
    }

    /// What holds of a server's role.
    pub open spec fn role_ok(self, i: NodeId) -> bool {
        let p = self.peers[i];
        match p.role {
            PeerRole::Follower => true,
            PeerRole::Candidate(granted) => {
                &&& p.vote == Some(i)
                &&& granted.contains(i)
                &&& granted.subset_of(config_in(self.initial, p.log))
                &&& forall|v: NodeId| #[trigger]
                    granted.contains(v) ==> self.voted(v, p.term) && self.votes[(v, p.term)] == i
                &&& p.log == self.vote_logs[(i, p.term)]
                &&& !(self.led(p.term) && self.leaders[p.term] == i)
            },
            PeerRole::Leader(matched) => {
                &&& self.elected(i)
                &&& p.log == self.leader_logs[p.term]
                &&& forall|v: NodeId| #[trigger]
                    matched.dom().contains(v) && matched[v].value > 0 ==> self.acked(
                        v,
                        p.term,
                        matched[v].value as nat,
                    )
            },
        }
    }

    /// Whether a server was elected in the term it is in.
    pub open spec fn elected(self, i: NodeId) -> bool {
        let t = self.peers[i].term;
        self.led(t) && self.leaders[t] == i
    }

    /// What holds of a server that was elected in the term it is in.
    pub open spec fn elected_ok(self, i: NodeId) -> bool {
        let p = self.peers[i];
        &&& p.durable == self.durable[p.term]
        &&& agree(p.log, self.leader_logs[p.term], p.log.len())
    }

    pub open spec fn exempt(self, i: NodeId) -> nat {
        if self.elected(i) {
            self.peers[i].term
        } else {
            0
        }
    }

    /// What holds of a server's vote.
    pub open spec fn ballot_ok(self, i: NodeId) -> bool {
        let p = self.peers[i];
        &&& p.vote matches Some(c) ==> self.voted(i, p.term) && self.votes[(i, p.term)] == c
        &&& self.voted(i, p.term) ==> p.vote == Some(self.votes[(i, p.term)])
        &&& forall|t: nat| #[trigger] self.voted(i, t) ==> t <= p.term
    }

    /// What holds of a server.
    pub open spec fn peer_ok(self, i: NodeId) -> bool {
        let p = self.peers[i];
        &&& p.durable <= p.log.len()
        &&& ordered(p.log, p.term)
        &&& self.all_grounded(p.log, self.exempt(i))
        &&& self.ballot_ok(i)
        &&& self.role_ok(i)
        &&& self.elected(i) ==> self.elected_ok(i)
        &&& p.commit <= p.log.len()
        &&& self.settled(p.log, p.commit, p.term)
    }

    /// What holds of the leader of a term.
    pub open spec fn leader_ok(self, t: nat) -> bool {
        let leader = self.leaders[t];
        let log = self.leader_logs[t];
        let base = self.base(t);
        &&& t >= 1
        &&& self.servers.contains(leader)
        &&& quorum::is_quorum(self.electors[t], config_in(self.initial, base))
        &&& forall|v: NodeId| #[trigger]
            self.electors[t].contains(v) ==> self.voted(v, t) && self.votes[(v, t)] == leader
        &&& self.voted(leader, t)
        &&& self.peers[leader].term >= t
        &&& ordered(log, t)
        &&& base.len() < log.len()
        &&& agree(log, base, base.len())
        &&& forall|k: int| base.len() <= k < log.len() ==> (#[trigger] log[k]).term == t
        &&& base.len() + 1 <= self.shown[t] <= self.durable[t] <= log.len()
        &&& self.all_grounded(log, t)
        &&& forall|k: int|
            base.len() <= k < log.len() && (#[trigger] log[k]).payload is ConfigChange
                ==> self.change_ok(t, k)
    }

    /// What holds of a vote.
    pub open spec fn vote_ok(self, v: NodeId, t: nat) -> bool {
        let c = self.votes[(v, t)];
        let log = self.vote_logs[(v, t)];
        let theirs = self.vote_logs[(c, t)];
        &&& t >= 1
        &&& self.servers.contains(v)
        &&& self.servers.contains(c)
        &&& self.voted(c, t)
        &&& self.votes[(c, t)] == c
        &&& up_to_date(last_term(theirs), theirs.len(), log)
        &&& ordered(log, t)
        &&& v == c ==> ordered(log, (t - 1) as nat)
        &&& self.all_grounded(log, 0)
    }

    /// What holds of something that was said.
    pub open spec fn note_ok(self, note: Note<C>) -> bool {
        match note {
            Note::VoteRequest { term, candidate, last_index, last_term: lt } => {
                &&& self.voted(candidate, term)
                &&& self.votes[(candidate, term)] == candidate
                &&& last_index == self.vote_logs[(candidate, term)].len()
                &&& lt == last_term(self.vote_logs[(candidate, term)])
            },
            Note::Grant { term, voter, candidate } => {
                &&& self.voted(voter, term)
                &&& self.votes[(voter, term)] == candidate
            },
            Note::Append { term, prev, prev_term, entries, commit } => {
                let log = self.leader_logs[term];
                let end = prev + entries.len();
                &&& self.led(term)
                &&& self.base(term).len() + 1 <= end <= self.shown[term]
                &&& entries == log.subrange(prev as int, end as int)
                &&& prev_term == if prev == 0 {
                    0
                } else {
                    log[prev - 1].term
                }
                &&& commit <= log.len()
                &&& self.settled(log, commit, term)
            },
            Note::Snap { term, index, index_term } => {
                let log = self.leader_logs[term];
                &&& self.led(term)
                &&& 1 <= index <= self.shown[term]
                &&& index_term == log[index - 1].term
                &&& self.settled(log, index, term)
            },
            Note::Ack { term, from, index } => {
                &&& self.servers.contains(from)
                &&& index > 0 ==> self.led(term) && index <= self.durable[term]
            },
        }
    }

    /// What an acknowledgement means for the log of the server that gave it, and for its later
    /// votes: the acknowledged entries are there, or a later leader without them is to blame.
    pub open spec fn ack_kept(self, v: NodeId, t: nat, n: nat) -> bool {
        let p = self.peers[v];
        &&& self.led(t)
        &&& n <= self.durable[t]
        &&& self.servers.contains(v)
        &&& p.term >= t
        &&& (agree(p.log, self.leader_logs[t], n) && n <= p.durable) || self.supplanted(
            t,
            n,
            p.term,
        )
        &&& forall|s: nat| #[trigger]
            self.voted(v, s) && s > t && (self.led(s) ==> self.electors[s].contains(v)) ==> agree(
                self.vote_logs[(v, s)],
                self.leader_logs[t],
                n,
            ) || self.supplanted(t, n, (s - 1) as nat)
        &&& forall|s: nat| #[trigger]
            self.voted(v, s) && s > t ==> agree(
                self.vote_logs[(v, s)],
                self.leader_logs[t],
                n,
            ) || self.supplanted(t, n, s)
    }

    pub open spec fn peers_ok(self) -> bool {
        forall|i: NodeId| #[trigger] self.servers.contains(i) ==> self.peer_ok(i)
    }

    pub open spec fn leaders_ok(self) -> bool {
        forall|t: nat| #[trigger] self.led(t) ==> self.leader_ok(t)
    }

    pub open spec fn votes_ok(self) -> bool {
        forall|v: NodeId, t: nat| #[trigger] self.voted(v, t) ==> self.vote_ok(v, t)
    }

    pub open spec fn notes_ok(self) -> bool {
        forall|note: Note<C>| #[trigger] self.notes.contains(note) ==> self.note_ok(note)
    }

    pub open spec fn acks_ok(self) -> bool {
        forall|v: NodeId, t: nat, n: nat|
            n >= 1 && #[trigger] self.acked(v, t, n) ==> self.ack_kept(v, t, n)
    }

    /// The invariant of the protocol.
    #[verifier::opaque]
    pub open spec fn inv(self) -> bool {
        &&& self.shape()
        &&& self.peers_ok()
        &&& self.leaders_ok()
        &&& self.votes_ok()
        &&& self.notes_ok()
        &&& self.acks_ok()
    }
}

// ---- Parts of the invariant ----
pub proof fn lemma_leaders<C>(w: World<C>)
    requires
        w.inv(),
    ensures
        w.leaders_ok(),
{
    reveal(World::inv);
}

pub proof fn lemma_peer<C>(w: World<C>, i: NodeId)
    requires
        w.inv(),
        w.servers.contains(i),
    ensures
        w.shape(),
        w.peer_ok(i),
{
    reveal(World::inv);
}

pub proof fn lemma_leader<C>(w: World<C>, t: nat)
    requires
        w.inv(),
        w.led(t),
    ensures
        w.leader_ok(t),
{
    reveal(World::inv);
}

pub proof fn lemma_note<C>(w: World<C>, note: Note<C>)
    requires
        w.inv(),
        w.notes.contains(note),
    ensures
        w.note_ok(note),
{
    reveal(World::inv);
}

// ---- Logs ----
pub proof fn lemma_agree_shorter<C>(a: Entries<C>, b: Entries<C>, n: nat, m: nat)
    requires
        agree(a, b, n),
        m <= n,
    ensures
        agree(a, b, m),
{
    assert(a.take(m as int) =~= a.take(n as int).take(m as int));
    assert(b.take(m as int) =~= b.take(n as int).take(m as int));
}

pub proof fn lemma_agree_at<C>(a: Entries<C>, b: Entries<C>, n: nat, k: int)
    requires
        agree(a, b, n),
        0 <= k < n,
    ensures
        a[k] == b[k],
{
    assert(a.take(n as int)[k] == b.take(n as int)[k]);
}

pub proof fn lemma_agree_trans<C>(a: Entries<C>, b: Entries<C>, c: Entries<C>, n: nat)
    requires
        agree(a, b, n),
        agree(b, c, n) || agree(c, b, n),
    ensures
        agree(a, c, n),
{
}

/// Two logs whose entries come from leaders, and that have an entry of the same term at the same
/// position, are the same up to there.
pub proof fn lemma_log_matching<C>(
    w: World<C>,
    a: Entries<C>,
    ea: nat,
    b: Entries<C>,
    eb: nat,
    k: int,
)
    requires
        w.all_grounded(a, ea),
        w.all_grounded(b, eb),
        0 <= k < a.len(),
        k < b.len(),
        a[k].term == b[k].term,
    ensures
        agree(a, b, (k + 1) as nat),
{
    assert(w.grounded(a, k, ea));
    assert(w.grounded(b, k, eb));
}

// ---- Memberships ----
/// Where there is no change, the membership stays.
pub proof fn lemma_steady_config<C>(initial: Members, log: Entries<C>, i: int, j: int)
    requires
        0 <= i <= j <= log.len(),
        steady(log, i, j),
    ensures
        config_in(initial, log.take(j)) == config_in(initial, log.take(i)),
    decreases j - i,
{
    if i < j {
        assert(log.take(j).drop_last() =~= log.take(j - 1));
        assert(!(log[j - 1].payload is ConfigChange));
        lemma_steady_config(initial, log, i, j - 1);
    }
}

/// The last membership change between two positions.
pub proof fn lemma_last_change<C>(log: Entries<C>, i: int, j: int) -> (k: int)
    requires
        0 <= i <= j <= log.len(),
        !steady(log, i, j),
    ensures
        i <= k < j,
        log[k].payload is ConfigChange,
        steady(log, k + 1, j),
    decreases j - i,
{
    if log[j - 1].payload is ConfigChange {
        j - 1
    } else {
        lemma_last_change(log, i, j - 1)
    }
}

/// A membership change in a log that comes from leaders was made by the leader of its term.
proof fn lemma_change_of<C>(w: World<C>, log: Entries<C>, exempt: nat, k: int)
    requires
        w.inv(),
        w.all_grounded(log, exempt),
        0 <= k < log.len(),
        log[k].payload is ConfigChange,
    ensures
        w.led(log[k].term),
        agree(log, w.leader_logs[log[k].term], (k + 1) as nat),
        w.change_ok(log[k].term, k),
{
    reveal(World::inv);
    let t = log[k].term;
    assert(w.grounded(log, k, exempt));
    assert(w.leader_ok(t));
    let theirs = w.leader_logs[t];
    lemma_agree_at(log, theirs, (k + 1) as nat, k);
    let base = w.base(t);
    if k < base.len() {
        let leader = w.leaders[t];
        assert(w.electors[t].len() > 0) by {}
        let v = w.electors[t].choose();
        assert(w.electors[t].contains(v));
        assert(w.vote_ok(v, t));
        assert(w.vote_ok(leader, t));
        lemma_agree_at(theirs, base, base.len(), k);
        assert(base[k].term <= t - 1);
    }
}

/// The membership that a log from leaders puts in force can be in force.
pub proof fn lemma_config_fit<C>(w: World<C>, log: Entries<C>, exempt: nat)
    requires
        w.inv(),
        w.all_grounded(log, exempt),
    ensures
        w.fit(config_in(w.initial, log)),
{
    reveal(World::inv);
    assert(log.take(log.len() as int) =~= log);
    if steady(log, 0, log.len() as int) {
        lemma_steady_config(w.initial, log, 0, log.len() as int);
        assert(log.take(0).len() == 0);
    } else {
        let k = lemma_last_change(log, 0, log.len() as int);
        lemma_change_of(w, log, exempt, k);
        lemma_steady_config(w.initial, log, k + 1, log.len() as int);
    }
}

/// A part of a log that comes from leaders comes from leaders.
pub proof fn lemma_grounded_take<C>(w: World<C>, log: Entries<C>, exempt: nat, n: nat)
    requires
        w.all_grounded(log, exempt),
        n <= log.len(),
    ensures
        w.all_grounded(log.take(n as int), exempt),
{
    let part = log.take(n as int);
    assert forall|k: int| 0 <= k < part.len() implies #[trigger] w.grounded(part, k, exempt) by {
        assert(w.grounded(log, k, exempt));
        assert(part.take(k + 1) =~= log.take(k + 1));
    }
}

/// The longest beginning that two logs have in common.
pub open spec fn branches_at<C>(a: Entries<C>, b: Entries<C>, n: nat) -> bool {
    &&& agree(a, b, n)
    &&& n == a.len() || n == b.len() || a[n as int] != b[n as int]
}

proof fn lemma_branch<C>(a: Entries<C>, b: Entries<C>, n: nat) -> (m: nat)
    requires
        agree(a, b, n),
    ensures
        branches_at(a, b, m),
    decreases a.len() - n,
{
    if n == a.len() || n == b.len() || a[n as int] != b[n as int] {
        n
    } else {
        assert(a.take(n + 1int) =~= a.take(n as int).push(a[n as int]));
        assert(b.take(n + 1int) =~= b.take(n as int).push(b[n as int]));
        lemma_branch(a, b, n + 1)
    }
}

proof fn lemma_branch_is_last<C>(a: Entries<C>, b: Entries<C>, n: nat, m: nat)
    requires
        branches_at(a, b, n),
        agree(a, b, m),
    ensures
        m <= n,
{
    if m > n {
        lemma_agree_at(a, b, m, n as int);
    }
}

/// Whether the membership change at position `k` was made by a leader that had committed an entry
/// of its term within the first `b` entries, and no other change between the two.
pub open spec fn anchored<C>(w: World<C>, log: Entries<C>, k: int, b: nat) -> bool {
    exists|n: nat, m: nat| #[trigger]
        w.committed(log[k].term, n, m) && m <= k && n <= b && steady(log, n as int, k)
}

/// A change that is anchored in what another log shares is the only one since.
proof fn lemma_side<C>(w: World<C>, log: Entries<C>, exempt: nat, b: nat, j: nat)
    requires
        w.inv(),
        w.all_grounded(log, exempt),
        b <= j <= log.len(),
        forall|k: int|
            b <= k < j && (#[trigger] log[k]).payload is ConfigChange ==> anchored(w, log, k, b),
    ensures
        near(
            config_in(w.initial, log.take(b as int)),
            config_in(w.initial, log.take(j as int)),
        ),
        steady(log, b as int, j as int) ==> config_in(w.initial, log.take(j as int)) == config_in(
            w.initial,
            log.take(b as int),
        ),
{
    let at_b = config_in(w.initial, log.take(b as int));
    let at_j = config_in(w.initial, log.take(j as int));
    if steady(log, b as int, j as int) {
        lemma_steady_config(w.initial, log, b as int, j as int);
        let id = NodeId { value: 0 };
        assert(at_b.insert(id) == at_j.insert(id));
    } else {
        let k = lemma_last_change(log, b as int, j as int);
        lemma_steady_config(w.initial, log, k + 1, j as int);
        let (n, m) = choose|n: nat, m: nat| #[trigger]
            w.committed(log[k].term, n, m) && m <= k && n <= b && steady(log, n as int, k);
        assert(steady(log, b as int, k));
        lemma_steady_config(w.initial, log, b as int, k);
        lemma_change_of(w, log, exempt, k);
        let theirs = w.leader_logs[log[k].term];
        assert(theirs.take(k + 1) == log.take(k + 1));
        assert(theirs.take(k) =~= theirs.take(k + 1).take(k));
        assert(log.take(k) =~= log.take(k + 1).take(k));
    }
}

/// Two logs that branch, and whose changes since are anchored in what they share, put memberships in
/// force that differ by at most one server.
proof fn lemma_near<C>(
    w: World<C>,
    x: Entries<C>,
    ex: nat,
    jx: nat,
    y: Entries<C>,
    ey: nat,
    jy: nat,
    b: nat,
    top: nat,
)
    requires
        w.inv(),
        w.all_grounded(x, ex),
        w.all_grounded(y, ey),
        ordered(x, top),
        ordered(y, top),
        branches_at(x, y, b),
        b <= jx <= x.len(),
        b <= jy <= y.len(),
        forall|k: int|
            b <= k < jx && (#[trigger] x[k]).payload is ConfigChange ==> anchored(w, x, k, b),
        forall|k: int|
            b <= k < jy && (#[trigger] y[k]).payload is ConfigChange ==> anchored(w, y, k, b),
    ensures
        near(
            config_in(w.initial, x.take(jx as int)),
            config_in(w.initial, y.take(jy as int)),
        ),
{
    lemma_side(w, x, ex, b, jx);
    lemma_side(w, y, ey, b, jy);
    if !steady(x, b as int, jx as int) && !steady(y, b as int, jy as int) {
        let k = lemma_last_change(x, b as int, jx as int);
        let l = lemma_last_change(y, b as int, jy as int);
        lemma_not_both(w, x, ex, k, y, ey, l, b, top);
    } else if steady(x, b as int, jx as int) {
    } else {
        let u = config_in(w.initial, x.take(b as int));
        let v = config_in(w.initial, x.take(jx as int));
        let id = choose|id: NodeId| #[trigger] u.insert(id) == v.insert(id);
        assert(v.insert(id) == u.insert(id));
    }
}

/// Of two branches, only one can have a change that is anchored in what they share.
proof fn lemma_not_both<C>(
    w: World<C>,
    x: Entries<C>,
    ex: nat,
    k: int,
    y: Entries<C>,
    ey: nat,
    l: int,
    b: nat,
    top: nat,
)
    requires
        w.inv(),
        w.all_grounded(x, ex),
        w.all_grounded(y, ey),
        ordered(x, top),
        ordered(y, top),
        branches_at(x, y, b),
        b <= k < x.len(),
        b <= l < y.len(),
        x[k].payload is ConfigChange,
        y[l].payload is ConfigChange,
        anchored(w, x, k, b),
    ensures
        !anchored(w, y, l, b),
{
    if anchored(w, y, l, b) {
        let (r, s) = (x[k].term, y[l].term);
        lemma_change_of(w, x, ex, k);
        lemma_change_of(w, y, ey, l);
        let (n, m) = choose|n: nat, m: nat| #[trigger]
            w.committed(r, n, m) && m <= k && n <= b && steady(x, n as int, k);
        let (i, j) = choose|i: nat, j: nat| #[trigger]
            w.committed(s, i, j) && j <= l && i <= b && steady(y, i as int, l);
        lemma_agree_at(x, w.leader_logs[r], (k + 1) as nat, n - 1);
        lemma_agree_at(y, w.leader_logs[s], (l + 1) as nat, i - 1);
        lemma_agree_at(x, y, b, n - 1);
        lemma_agree_at(x, y, b, i - 1);
        assert(y[n - 1].term <= y[l].term);
        assert(x[i - 1].term <= x[k].term);
        let least = if k <= l {
            (k + 1) as nat
        } else {
            (l + 1) as nat
        };
        lemma_agree_shorter(x, w.leader_logs[r], (k + 1) as nat, least);
        lemma_agree_shorter(y, w.leader_logs[s], (l + 1) as nat, least);
        lemma_agree_trans(x, w.leader_logs[r], y, least);
        lemma_branch_is_last(x, y, b, least);
    }
}

/// Majorities of memberships that differ by at most one server share a member.
proof fn lemma_near_quorums_meet(
    qa: Set<NodeId>,
    a: Set<NodeId>,
    qb: Set<NodeId>,
    b: Set<NodeId>,
)
    requires
        a.finite(),
        b.finite(),
        near(a, b),
        quorum::is_quorum(qa, a),
        quorum::is_quorum(qb, b),
    ensures
        exists|id: NodeId| #[trigger] qa.contains(id) && qb.contains(id),
{
    let id = choose|id: NodeId| #[trigger] a.insert(id) == b.insert(id);
    assert forall|other: NodeId| other != id implies (a.contains(other) <==> b.contains(
        other,
    )) by {
        assert(a.insert(id).contains(other) <==> b.insert(id).contains(other));
    }
    if a.contains(id) == b.contains(id) {
        assert(a =~= b);
        quorum::law_majorities_intersect(qa, qb, a);
    } else if a.contains(id) {
        assert(a =~= b.insert(id));
        quorum::law_adjacent_majorities_intersect(qb, qa, b, id);
        let both = choose|other: NodeId| #[trigger] qb.contains(other) && qa.contains(other);
        assert(qa.contains(both) && qb.contains(both));
    } else {
        assert(b =~= a.insert(id));
        quorum::law_adjacent_majorities_intersect(qa, qb, a, id);
    }
}

// ---- Leader Completeness ----
/// Whether one commitment comes before another: in an earlier term, or with a shorter log.
pub open spec fn sooner(r: nat, k: nat, t: nat, m: nat) -> bool {
    r < t || (r == t && k < m)
}

/// What an election has to do with an earlier commitment: every earlier commitment is in the log of
/// the candidate, and in that of the leader that committed.
spec fn builds_on<C>(w: World<C>, t: nat, m: nat, base: Entries<C>) -> bool {
    &&& forall|r: nat, c: nat, k: nat| #[trigger]
        w.committed(r, c, k) && sooner(r, k, t, m) ==> agree(base, w.leader_logs[r], c)
    &&& forall|r: nat, c: nat, k: nat| #[trigger]
        w.committed(r, c, k) && r < t ==> agree(w.leader_logs[t], w.leader_logs[r], c)
}

/// The majority that committed and the one that elected share a server.
proof fn lemma_commit_meets_election<C>(
    w: World<C>,
    t: nat,
    n: nat,
    m: nat,
    q: Set<NodeId>,
    s: nat,
    base: Entries<C>,
    electors: Set<NodeId>,
)
    requires
        w.inv(),
        w.committed(t, n, m),
        quorum::is_quorum(q, config_in(w.initial, w.leader_logs[t].take(m as int))),
        t < s,
        w.all_grounded(base, 0),
        ordered(base, (s - 1) as nat),
        last_term(base) <= t,
        quorum::is_quorum(electors, config_in(w.initial, base)),
        builds_on(w, t, m, base),
        !agree(base, w.leader_logs[t], n),
    ensures
        exists|v: NodeId| #[trigger] q.contains(v) && electors.contains(v),
{
    reveal(World::inv);
    let log = w.leader_logs[t];
    assert(w.leader_ok(t));
    assert(base.take(0) =~= log.take(0));
    let b = lemma_branch(log, base, 0);
    assert(b < n) by {
        if b >= n {
            lemma_agree_shorter(log, base, b, n);
        }
    }
    assert forall|k: int|
        b <= k < m && (#[trigger] log[k]).payload is ConfigChange implies anchored(
        w,
        log,
        k,
        b,
    ) by {
        lemma_change_of(w, log, t, k);
        let r = log[k].term;
        let (c, l) = choose|c: nat, l: nat| #[trigger]
            w.committed(r, c, l) && l <= k && steady(w.leader_logs[r], c as int, k);
        assert(sooner(r, l, t, m));
        assert(agree(base, w.leader_logs[r], c));
        lemma_agree_shorter(log, w.leader_logs[r], (k + 1) as nat, c);
        lemma_agree_trans(log, w.leader_logs[r], base, c);
        lemma_branch_is_last(log, base, b, c);
        lemma_steady_same(w.leader_logs[r], log, c as int, k);
        assert(w.committed(log[k].term, c, l) && l <= k && c <= b && steady(log, c as int, k));
    }
    assert forall|k: int|
        b <= k < base.len() && (#[trigger] base[k]).payload is ConfigChange implies anchored(
        w,
        base,
        k,
        b,
    ) by {
        lemma_change_of(w, base, 0, k);
        let r = base[k].term;
        assert(r <= t) by {
            assert(base[k].term <= base[base.len() - 1].term);
        }
        if r == t {
            lemma_agree_trans(log, w.leader_logs[t], base, (k + 1) as nat);
            assert(agree(log, log, (k + 1) as nat));
            lemma_branch_is_last(log, base, b, (k + 1) as nat);
        }
        let (c, l) = choose|c: nat, l: nat| #[trigger]
            w.committed(r, c, l) && l <= k && steady(w.leader_logs[r], c as int, k);
        assert(agree(log, w.leader_logs[r], c));
        lemma_agree_shorter(base, w.leader_logs[r], (k + 1) as nat, c);
        lemma_agree_trans(log, w.leader_logs[r], base, c);
        lemma_branch_is_last(log, base, b, c);
        lemma_steady_same(w.leader_logs[r], base, c as int, k);
        assert(w.committed(base[k].term, c, l) && l <= k && c <= b && steady(
            base,
            c as int,
            k,
        ));
    }
    lemma_near(w, log, t, m, base, 0, base.len(), b, s);
    assert(base.take(base.len() as int) =~= base);
    lemma_grounded_take(w, log, t, m);
    lemma_config_fit(w, log.take(m as int), t);
    lemma_config_fit(w, base, 0);
    lemma_near_quorums_meet(
        q,
        config_in(w.initial, log.take(m as int)),
        electors,
        config_in(w.initial, base),
    );
}

/// Logs that agree have their changes in the same places.
proof fn lemma_steady_same<C>(a: Entries<C>, b: Entries<C>, i: int, k: int)
    requires
        0 <= i,
        0 <= k,
        agree(b, a, (k + 1) as nat),
        steady(a, i, k),
    ensures
        steady(b, i, k),
{
    assert forall|p: int| i <= p < k implies !((#[trigger] b[p]).payload is ConfigChange) by {
        lemma_agree_at(b, a, (k + 1) as nat, p);
    }
}

/// What is committed is in the log of a candidate that a majority has voted for, if it is in that of
/// every leader in between, and its voters have not lost it.
proof fn lemma_elected_has_committed<C>(
    w: World<C>,
    t: nat,
    n: nat,
    m: nat,
    s: nat,
    base: Entries<C>,
    electors: Set<NodeId>,
)
    requires
        w.inv(),
        w.committed(t, n, m),
        t < s,
        w.all_grounded(base, 0),
        ordered(base, (s - 1) as nat),
        quorum::is_quorum(electors, config_in(w.initial, base)),
        forall|v: NodeId| #[trigger]
            electors.contains(v) ==> {
                let seen = w.vote_logs[(v, s)];
                &&& up_to_date(last_term(base), base.len(), seen)
                &&& w.all_grounded(seen, 0)
                &&& ordered(seen, s)
                &&& w.acked(v, t, n) ==> agree(seen, w.leader_logs[t], n)
            },
        forall|r: nat| t < r < s && #[trigger] w.led(r) ==> agree(
            w.leader_logs[r],
            w.leader_logs[t],
            n,
        ),
        builds_on(w, t, m, base),
    ensures
        agree(base, w.leader_logs[t], n),
{
    reveal(World::inv);
    let log = w.leader_logs[t];
    assert(w.leader_ok(t));
    let tau = last_term(base);
    if !agree(base, log, n) {
        if base.len() > 0 {
            assert(w.grounded(base, base.len() - 1, 0));
            assert(base[base.len() - 1].term <= s - 1);
            lemma_agree_at(base, w.leader_logs[tau], base.len(), base.len() - 1);
        }
        if tau > t {
            lemma_behind_leader(w, t, n, tau, base);
        }
        assert(tau <= t);
        let q = choose|q: Set<NodeId>| #[trigger]
            quorum::is_quorum(q, config_in(w.initial, log.take(m as int))) && forall|v: NodeId|
             #[trigger]
                q.contains(v) ==> w.acked(v, t, n);
        lemma_commit_meets_election(w, t, n, m, q, s, base, electors);
        let v = choose|v: NodeId| #[trigger] q.contains(v) && electors.contains(v);
        assert(w.acked(v, t, n));
        let seen = w.vote_logs[(v, s)];
        lemma_agree_at(seen, log, n, n - 1);
        assert(seen[n - 1].term == t);
        assert(seen[n - 1].term <= seen[seen.len() - 1].term);
        assert(w.grounded(seen, seen.len() - 1, 0));
        lemma_agree_shorter(base, w.leader_logs[tau], base.len(), seen.len());
        lemma_agree_trans(base, w.leader_logs[tau], seen, seen.len());
        lemma_agree_shorter(base, seen, seen.len(), n);
        lemma_agree_trans(base, seen, log, n);
    }
}

/// A log that ends with an entry of a later leader has what that leader has of an earlier term.
proof fn lemma_behind_leader<C>(w: World<C>, t: nat, n: nat, tau: nat, base: Entries<C>)
    requires
        w.inv(),
        w.led(t),
        w.led(tau),
        t < tau,
        1 <= n <= w.leader_logs[t].len(),
        w.leader_logs[t][n - 1].term == t,
        agree(w.leader_logs[tau], w.leader_logs[t], n),
        base.len() > 0,
        base[base.len() - 1].term == tau,
        agree(base, w.leader_logs[tau], base.len()),
    ensures
        agree(base, w.leader_logs[t], n),
{
    reveal(World::inv);
    let log = w.leader_logs[t];
    assert(w.leader_ok(tau));
    lemma_agree_at(w.leader_logs[tau], log, n, n - 1);
    lemma_agree_at(base, w.leader_logs[tau], base.len(), base.len() - 1);
    if base.len() <= n - 1 {
        assert(w.leader_logs[tau][base.len() - 1].term <= w.leader_logs[tau][n - 1].term);
    }
    lemma_agree_shorter(base, w.leader_logs[tau], base.len(), n);
    lemma_agree_trans(base, w.leader_logs[tau], log, n);
}

/// The log that a leader was elected with, and the votes for it.
proof fn lemma_base<C>(w: World<C>, s: nat)
    requires
        w.inv(),
        w.led(s),
    ensures
        w.leader_ok(s),
        w.vote_ok(w.leaders[s], s),
        w.votes[(w.leaders[s], s)] == w.leaders[s],
        w.all_grounded(w.base(s), 0),
        ordered(w.base(s), (s - 1) as nat),
        forall|v: NodeId| #[trigger]
            w.electors[s].contains(v) ==> {
                let seen = w.vote_logs[(v, s)];
                &&& w.voted(v, s)
                &&& up_to_date(last_term(w.base(s)), w.base(s).len(), seen)
                &&& w.all_grounded(seen, 0)
                &&& ordered(seen, s)
            },
{
    reveal(World::inv);
    assert(w.leader_ok(s));
    assert(w.electors[s].len() > 0);
    let v = w.electors[s].choose();
    assert(w.electors[s].contains(v));
    assert(w.vote_ok(v, s));
    assert(w.vote_ok(w.leaders[s], s));
    assert forall|v: NodeId| #[trigger] w.electors[s].contains(v) implies {
        let seen = w.vote_logs[(v, s)];
        &&& w.voted(v, s)
        &&& up_to_date(last_term(w.base(s)), w.base(s).len(), seen)
        &&& w.all_grounded(seen, 0)
        &&& ordered(seen, s)
    } by {
        assert(w.vote_ok(v, s));
    }
}

/// What is committed is in the log of every later leader.
pub proof fn lemma_leader_completeness<C>(w: World<C>, t: nat, n: nat, m: nat, s: nat)
    requires
        w.inv(),
        w.committed(t, n, m),
        w.led(s),
        s >= t,
    ensures
        agree(w.leader_logs[s], w.leader_logs[t], n),
    decreases t, m, s,
{
    reveal(World::inv);
    let log_t = w.leader_logs[t];
    let log_s = w.leader_logs[s];
    assert(w.leader_ok(t));
    if s > t {
        lemma_base(w, s);
        let base = w.base(s);
        assert forall|r: nat| t < r < s && #[trigger] w.led(r) implies agree(
            w.leader_logs[r],
            log_t,
            n,
        ) by {
            lemma_leader_completeness(w, t, n, m, r);
        }
        assert forall|v: NodeId| #[trigger] w.electors[s].contains(v) && w.acked(
            v,
            t,
            n,
        ) implies agree(w.vote_logs[(v, s)], log_t, n) by {
            assert(w.ack_kept(v, t, n));
            if !agree(w.vote_logs[(v, s)], log_t, n) {
                assert(w.supplanted(t, n, (s - 1) as nat));
                let r = choose|r: nat|
                    t < r <= s - 1 && #[trigger] w.led(r) && !agree(w.leader_logs[r], log_t, n);
                assert(agree(w.leader_logs[r], log_t, n));
            }
        }
        assert forall|r: nat, c: nat, k: nat| #[trigger]
            w.committed(r, c, k) && sooner(r, k, t, m) implies agree(
            base,
            w.leader_logs[r],
            c,
        ) by {
            lemma_leader_completeness(w, r, c, k, s);
            lemma_agree_at(log_s, w.leader_logs[r], c, c - 1);
            if c > base.len() {
                assert(log_s[c - 1].term == s);
            }
            lemma_agree_shorter(log_s, base, base.len(), c);
            lemma_agree_trans(base, log_s, w.leader_logs[r], c);
        }
        assert forall|r: nat, c: nat, k: nat| #[trigger]
            w.committed(r, c, k) && r < t implies agree(log_t, w.leader_logs[r], c) by {
            lemma_leader_completeness(w, r, c, k, t);
        }
        lemma_elected_has_committed(w, t, n, m, s, base, w.electors[s]);
        lemma_agree_shorter(log_s, base, base.len(), n);
        lemma_agree_trans(log_s, base, log_t, n);
    }
}

/// Whether `a` has a majority of votes in the term `s`.
pub open spec fn has_majority<C>(w: World<C>, s: nat, a: NodeId, granted: Set<NodeId>) -> bool {
    &&& w.voted(a, s)
    &&& w.votes[(a, s)] == a
    &&& quorum::is_quorum(granted, config_in(w.initial, w.vote_logs[(a, s)]))
    &&& forall|v: NodeId| #[trigger]
        granted.contains(v) ==> w.voted(v, s) && w.votes[(v, s)] == a
}

/// What is committed is in the log of every later candidate with a majority.
proof fn lemma_candidate_completeness<C>(
    w: World<C>,
    t: nat,
    n: nat,
    m: nat,
    s: nat,
    a: NodeId,
    granted: Set<NodeId>,
)
    requires
        w.inv(),
        w.committed(t, n, m),
        s > t,
        has_majority(w, s, a, granted),
    ensures
        agree(w.vote_logs[(a, s)], w.leader_logs[t], n),
    decreases t, m,
{
    reveal(World::inv);
    let log_t = w.leader_logs[t];
    let base = w.vote_logs[(a, s)];
    assert(w.leader_ok(t));
    assert(w.vote_ok(a, s));
    assert forall|r: nat| t < r <= s && #[trigger] w.led(r) implies agree(
        w.leader_logs[r],
        log_t,
        n,
    ) by {
        lemma_leader_completeness(w, t, n, m, r);
    }
    assert forall|v: NodeId| #[trigger] granted.contains(v) implies {
        let seen = w.vote_logs[(v, s)];
        &&& up_to_date(last_term(base), base.len(), seen)
        &&& w.all_grounded(seen, 0)
        &&& ordered(seen, s)
        &&& w.acked(v, t, n) ==> agree(seen, log_t, n)
    } by {
        assert(w.vote_ok(v, s));
        if w.acked(v, t, n) && !agree(w.vote_logs[(v, s)], log_t, n) {
            assert(w.ack_kept(v, t, n));
            assert(w.supplanted(t, n, s));
            let r = choose|r: nat|
                t < r <= s && #[trigger] w.led(r) && !agree(w.leader_logs[r], log_t, n);
            assert(agree(w.leader_logs[r], log_t, n));
        }
    }
    assert forall|r: nat, c: nat, k: nat| #[trigger]
        w.committed(r, c, k) && sooner(r, k, t, m) implies agree(base, w.leader_logs[r], c) by {
        lemma_candidate_completeness(w, r, c, k, s, a, granted);
    }
    assert forall|r: nat, c: nat, k: nat| #[trigger]
        w.committed(r, c, k) && r < t implies agree(log_t, w.leader_logs[r], c) by {
        lemma_leader_completeness(w, r, c, k, t);
    }
    lemma_elected_has_committed(w, t, n, m, s, base, granted);
}

// ---- Election Safety ----
/// Nobody but the leader of a term has a majority in it.
pub proof fn lemma_one_leader<C>(w: World<C>, s: nat, a: NodeId, granted: Set<NodeId>)
    requires
        w.inv(),
        w.led(s),
        has_majority(w, s, a, granted),
    ensures
        w.leaders[s] == a,
{
    reveal(World::inv);
    let x = w.vote_logs[(a, s)];
    let y = w.base(s);
    lemma_base(w, s);
    assert(w.vote_ok(a, s));
    assert(x.take(0) =~= y.take(0));
    let b = lemma_branch(x, y, 0);
    assert forall|k: int|
        b <= k < x.len() && (#[trigger] x[k]).payload is ConfigChange implies anchored(
        w,
        x,
        k,
        b,
    ) by {
        lemma_change_of(w, x, 0, k);
        let r = x[k].term;
        let (c, l) = choose|c: nat, l: nat| #[trigger]
            w.committed(r, c, l) && l <= k && steady(w.leader_logs[r], c as int, k);
        assert(r <= s - 1);
        lemma_leader_completeness(w, r, c, l, s);
        let log_s = w.leader_logs[s];
        lemma_agree_at(log_s, w.leader_logs[r], c, c - 1);
        if c > y.len() {
            assert(log_s[c - 1].term == s);
        }
        lemma_agree_shorter(log_s, y, y.len(), c);
        lemma_agree_shorter(x, w.leader_logs[r], (k + 1) as nat, c);
        lemma_agree_trans(x, w.leader_logs[r], log_s, c);
        lemma_agree_trans(x, log_s, y, c);
        lemma_branch_is_last(x, y, b, c);
        lemma_steady_same(w.leader_logs[r], x, c as int, k);
        assert(w.committed(x[k].term, c, l) && l <= k && c <= b && steady(x, c as int, k));
    }
    assert forall|k: int|
        b <= k < y.len() && (#[trigger] y[k]).payload is ConfigChange implies anchored(
        w,
        y,
        k,
        b,
    ) by {
        lemma_change_of(w, y, 0, k);
        let r = y[k].term;
        let (c, l) = choose|c: nat, l: nat| #[trigger]
            w.committed(r, c, l) && l <= k && steady(w.leader_logs[r], c as int, k);
        assert(r <= s - 1);
        lemma_candidate_completeness(w, r, c, l, s, a, granted);
        lemma_agree_shorter(y, w.leader_logs[r], (k + 1) as nat, c);
        lemma_agree_trans(x, w.leader_logs[r], y, c);
        lemma_branch_is_last(x, y, b, c);
        lemma_steady_same(w.leader_logs[r], y, c as int, k);
        assert(w.committed(y[k].term, c, l) && l <= k && c <= b && steady(y, c as int, k));
    }
    lemma_near(w, x, 0, x.len(), y, 0, y.len(), b, s);
    assert(x.take(x.len() as int) =~= x);
    assert(y.take(y.len() as int) =~= y);
    lemma_config_fit(w, x, 0);
    lemma_config_fit(w, y, 0);
    lemma_near_quorums_meet(
        granted,
        config_in(w.initial, x),
        w.electors[s],
        config_in(w.initial, y),
    );
    let v = choose|v: NodeId| #[trigger] granted.contains(v) && w.electors[s].contains(v);
    assert(w.votes[(v, s)] == a);
    assert(w.votes[(v, s)] == w.leaders[s]);
}

// ---- What is settled ----
/// What is settled in any log is in the log of every leader from that time on.
pub proof fn lemma_settled_in_leader<C>(w: World<C>, log: Entries<C>, n: nat, last: nat, s: nat)
    requires
        w.inv(),
        w.settled(log, n, last),
        w.led(s),
        s >= last,
    ensures
        n <= log.len() ==> agree(log, w.leader_logs[s], n),
{
    if n == 0 {
        assert(log.take(0) =~= w.leader_logs[s].take(0));
    } else {
        let (t, c, m) = choose|t: nat, c: nat, m: nat| #[trigger]
            w.committed(t, c, m) && t <= last && n <= c && agree(log, w.leader_logs[t], n);
        lemma_leader_completeness(w, t, c, m, s);
        lemma_agree_shorter(w.leader_logs[s], w.leader_logs[t], c, n);
        lemma_agree_trans(log, w.leader_logs[t], w.leader_logs[s], n);
    }
}

/// Two logs agree on what is settled in both.
pub proof fn lemma_settled_agree<C>(
    w: World<C>,
    a: Entries<C>,
    na: nat,
    ta: nat,
    b: Entries<C>,
    nb: nat,
    tb: nat,
)
    requires
        w.inv(),
        w.settled(a, na, ta),
        w.settled(b, nb, tb),
        na <= a.len(),
        nb <= b.len(),
        na <= nb,
    ensures
        agree(a, b, na),
{
    if na == 0 {
        assert(a.take(0) =~= b.take(0));
    } else {
        let (t, c, m) = choose|t: nat, c: nat, m: nat| #[trigger]
            w.committed(t, c, m) && t <= ta && na <= c && agree(a, w.leader_logs[t], na);
        let (s, d, l) = choose|s: nat, d: nat, l: nat| #[trigger]
            w.committed(s, d, l) && s <= tb && nb <= d && agree(b, w.leader_logs[s], nb);
        lemma_agree_shorter(b, w.leader_logs[s], nb, na);
        if s >= t {
            lemma_leader_completeness(w, t, c, m, s);
            lemma_agree_shorter(w.leader_logs[s], w.leader_logs[t], c, na);
        } else {
            lemma_leader_completeness(w, s, d, l, t);
            lemma_agree_shorter(w.leader_logs[t], w.leader_logs[s], d, na);
        }
        lemma_agree_trans(a, w.leader_logs[t], w.leader_logs[s], na);
        lemma_agree_trans(a, w.leader_logs[s], b, na);
    }
}

} // verus!
