//! The state specific to each of the three roles.
use vstd::prelude::*;

use crate::types::node_map;
use crate::types::node_map::NodeMap;
use crate::types::primitives;
use crate::types::primitives::LogIndex;
use crate::types::primitives::NodeId;
use crate::types::quorum;

verus! {

/// Per-role state of a follower (section 5.1).
///
/// Followers are passive: they issue no requests and only respond to leaders and candidates. The
/// single piece of state worth keeping is the current leader, so that a client can be redirected
/// instead of merely refused.
#[derive(Debug)]
pub struct Follower {
    leader_id: Option<NodeId>,
}

impl View for Follower {
    type V = Option<NodeId>;

    closed spec fn view(&self) -> Option<NodeId> {
        self.leader_id
    }
}

impl Follower {
    /// A follower that has not yet heard from a leader in this term.
    pub fn new() -> (follower: Self)
        ensures
            follower@ is None,
    {
        Follower { leader_id: None }
    }

    /// The leader of the current term, if one has been observed.
    pub fn leader_id(&self) -> (leader: Option<NodeId>)
        ensures
            leader == self@,
    {
        self.leader_id
    }

    /// Records the leader named by an accepted AppendEntries or InstallSnapshot.
    pub fn set_leader(&mut self, leader_id: NodeId)
        ensures
            final(self)@ == Some(leader_id),
    {
        self.leader_id = Some(leader_id);
    }
}

impl Default for Follower {
    fn default() -> (follower: Self)
        ensures
            follower@ is None,
    {
        Follower::new()
    }
}

/// Per-role state of a candidate (section 5.2): the set of servers that have granted it a vote in
/// the current term.
///
/// A set rather than a counter, because a peer may resend its response and a duplicated grant
/// would otherwise inflate the tally into a false majority.
#[derive(Debug)]
pub struct Candidate {
    votes_received: NodeMap<()>,
}

impl View for Candidate {
    type V = Set<NodeId>;

    closed spec fn view(&self) -> Set<NodeId> {
        self.votes_received@.dom()
    }
}

impl Candidate {
    /// A candidate that has already voted for itself, as section 5.2 requires.
    pub fn new(self_id: NodeId) -> (candidate: Self)
        ensures
            candidate@ == set![self_id],
    {
        let mut votes_received: NodeMap<()> = NodeMap::new();
        votes_received.insert(self_id, ());
        assert(votes_received@.dom() =~= set![self_id]);
        Candidate { votes_received }
    }

    /// Records a granted vote. Idempotent per peer.
    pub fn record_vote(&mut self, from: NodeId)
        ensures
            final(self)@ == old(self)@.insert(from),
    {
        let ghost before = self@;
        self.votes_received.insert(from, ());
        assert(self@ =~= before.insert(from));
    }

    /// Whether the granted votes amount to a strict majority of `cluster_size`, which is
    /// `cluster_size / 2 + 1` servers (section 5.2).
    pub fn has_majority(&self, cluster_size: usize) -> (yes: bool)
        ensures
            yes == (self@.len() >= quorum::majority_of(cluster_size as nat)),
            yes == (2 * self@.len() > cluster_size),
    {
        let majority: usize = cluster_size / 2 + 1;
        self.votes_received.len() >= majority
    }

    /// Whether the granted votes amount to a strict majority of a cluster that consists of this
    /// server and `peers` others.
    pub fn has_majority_with(&self, peers: usize) -> (yes: bool)
        ensures
            yes == (self@.len() >= quorum::majority_of((peers + 1) as nat)),
            yes == (2 * self@.len() > peers + 1),
    {
        let majority: usize = peers / 2 + peers % 2 + 1;
        self.votes_received.len() >= majority
    }
}

/// What a leader's replication state stands for.
#[verifier::ext_equal]
pub struct LeaderView {
    pub next: Map<NodeId, LogIndex>,
    pub matched: Map<NodeId, LogIndex>,
}

impl LeaderView {
    /// The state right after an election.
    pub open spec fn fresh(peers: Set<NodeId>, last: LogIndex) -> Self {
        LeaderView {
            next: Map::new(|id: NodeId| peers.contains(id), |id: NodeId| primitives::after(last)),
            matched: Map::new(|id: NodeId| peers.contains(id), |id: NodeId| LogIndex { value: 0 }),
        }
    }

    /// The highest index known to be replicated on `peer`: none for a peer that is not tracked.
    pub open spec fn matched_by(self, peer: NodeId) -> LogIndex {
        if self.matched.dom().contains(peer) {
            self.matched[peer]
        } else {
            LogIndex { value: 0 }
        }
    }

    /// The state after `from` acknowledged everything through `index`.
    pub open spec fn record_success(self, from: NodeId, index: LogIndex) -> Self {
        if index.value > self.matched_by(from).value {
            LeaderView {
                next: self.next.insert(from, primitives::after(index)),
                matched: self.matched.insert(from, index),
            }
        } else {
            LeaderView { matched: self.matched.insert(from, self.matched_by(from)), ..self }
        }
    }

    /// The state after `from` rejected what was sent to it.
    pub open spec fn record_failure(self, from: NodeId) -> Self {
        if self.next.dom().contains(from) && self.next[from].value > 0 {
            LeaderView {
                next: self.next.insert(
                    from,
                    LogIndex { value: (self.next[from].value - 1) as u64 },
                ),
                ..self
            }
        } else {
            self
        }
    }

    /// The state with `peer` tracked.
    pub open spec fn add_peer(self, peer: NodeId, last: LogIndex) -> Self {
        LeaderView {
            next: if self.next.dom().contains(peer) {
                self.next
            } else {
                self.next.insert(peer, primitives::after(last))
            },
            matched: if self.matched.dom().contains(peer) {
                self.matched
            } else {
                self.matched.insert(peer, LogIndex { value: 0 })
            },
        }
    }

    /// The state with `peer` no longer tracked.
    pub open spec fn remove_peer(self, peer: NodeId) -> Self {
        LeaderView { next: self.next.remove(peer), matched: self.matched.remove(peer) }
    }

    /// The state after the set of peers changed from `old` to `new`: the ones that came are
    /// tracked from scratch, the ones that left are forgotten, and the others keep their progress.
    pub open spec fn retarget(self, old: Set<NodeId>, new: Set<NodeId>, last: LogIndex) -> Self {
        LeaderView {
            next: Map::new(
                |id: NodeId|
                    (self.next.dom().contains(id) || new.difference(old).contains(id))
                        && !old.difference(new).contains(id),
                |id: NodeId|
                    if self.next.dom().contains(id) {
                        self.next[id]
                    } else {
                        primitives::after(last)
                    },
            ),
            matched: Map::new(
                |id: NodeId|
                    (self.matched.dom().contains(id) || new.difference(old).contains(id))
                        && !old.difference(new).contains(id),
                |id: NodeId| self.matched_by(id),
            ),
        }
    }
}

/// Per-peer replication state of a leader (section 5.3, Figure 2). Volatile: rebuilt from scratch
/// on every election.
#[derive(Debug)]
pub struct Leader {
    /// Next index the leader will send to each peer. A guess, corrected by backing off on
    /// rejection.
    next_index: NodeMap<LogIndex>,
    /// Highest index known to be replicated on each peer. Only ever raised by an acknowledgement,
    /// so it is safe to use for the commit decision.
    match_index: NodeMap<LogIndex>,
}

impl View for Leader {
    type V = LeaderView;

    closed spec fn view(&self) -> LeaderView {
        LeaderView { next: self.next_index@, matched: self.match_index@ }
    }
}

impl Leader {
    /// Initializes replication state for `peers`.
    ///
    /// `next_index` starts one past the leader's own log, the optimistic guess that peers are
    /// already caught up. `match_index` starts at 0, the pessimistic assumption that nothing is
    /// confirmed replicated yet. Guessing the other way around in either field would let the
    /// leader commit an entry no follower actually holds.
    pub fn new(peers: &[NodeId], last_log_index: LogIndex) -> (leader: Self)
        ensures
            leader@ == LeaderView::fresh(peers@.to_set(), last_log_index),
    {
        let mut next_index: NodeMap<LogIndex> = NodeMap::new();
        let mut match_index: NodeMap<LogIndex> = NodeMap::new();
        let mut i: usize = 0;
        proof {
            assert(next_index@ =~= LeaderView::fresh(
                peers@.take(0).to_set(),
                last_log_index,
            ).next);
            assert(match_index@ =~= LeaderView::fresh(
                peers@.take(0).to_set(),
                last_log_index,
            ).matched);
        }
        while i < peers.len()
            invariant
                i <= peers.len(),
                next_index@ == LeaderView::fresh(
                    peers@.take(i as int).to_set(),
                    last_log_index,
                ).next,
                match_index@ == LeaderView::fresh(
                    peers@.take(i as int).to_set(),
                    last_log_index,
                ).matched,
            decreases peers.len() - i,
        {
            next_index.insert(peers[i], last_log_index.next());
            match_index.insert(peers[i], LogIndex { value: 0 });
            i = i + 1;
            proof {
                let more = peers@.take(i as int);
                node_map::lemma_take_one_more(peers@, i - 1);
                assert(next_index@ =~= LeaderView::fresh(more.to_set(), last_log_index).next);
                assert(match_index@ =~= LeaderView::fresh(more.to_set(), last_log_index).matched);
            }
        }
        assert(peers@.take(i as int) =~= peers@);
        Leader { next_index, match_index }
    }

    /// Next index to send to `peer`, or `None` if `peer` is not tracked.
    pub fn next_index_for(&self, peer: NodeId) -> (index: Option<LogIndex>)
        ensures
            index is Some <==> self@.next.dom().contains(peer),
            index matches Some(i) ==> i == self@.next[peer],
    {
        self.next_index.get(peer)
    }

    /// Highest index known replicated on `peer`, or `None` if `peer` is not tracked.
    ///
    /// The commit calculation asks per configuration member rather than reading the whole map, so
    /// an untracked member counts as nothing replicated instead of silently shrinking the quorum
    /// it is measured against.
    pub fn match_index_for(&self, peer: NodeId) -> (index: Option<LogIndex>)
        ensures
            index is Some <==> self@.matched.dom().contains(peer),
            index matches Some(i) ==> i == self@.matched[peer],
    {
        self.match_index.get(peer)
    }

    /// The match index of every tracked peer, in ascending order of peer.
    pub fn match_indices(&self) -> (indices: Vec<LogIndex>)
        ensures
            indices@ == node_map::in_order(self@.matched.dom()).map_values(
                |id: NodeId| self@.matched[id],
            ),
    {
        self.match_index.values()
    }

    /// Records an acknowledgement from `from` up to `match_index`, advancing `next_index` to one
    /// past it (section 5.3).
    ///
    /// Raises the stored value only. A leader resends a snapshot on every heartbeat until it is
    /// acknowledged, so a delayed duplicate for an older boundary can arrive after a newer,
    /// higher acknowledgement. Applying it would rewind `match_index` and, with it, the commit
    /// index.
    pub fn record_success(&mut self, from: NodeId, match_index: LogIndex)
        ensures
            final(self)@ == old(self)@.record_success(from, match_index),
    {
        let current = match self.match_index.get(from) {
            Some(index) => index,
            None => LogIndex { value: 0 },
        };
        if match_index.value > current.value {
            self.match_index.insert(from, match_index);
            self.next_index.insert(from, match_index.next());
        } else {
            self.match_index.insert(from, current);
        }
    }

    /// Backs `next_index` off by one position after a rejected AppendEntries, so the next attempt
    /// probes earlier in the log until the two logs agree (section 5.3). Floors at index 0 and
    /// ignores untracked peers.
    pub fn record_failure(&mut self, from: NodeId)
        ensures
            final(self)@ == old(self)@.record_failure(from),
    {
        if let Some(current) = self.next_index.get(from) {
            if let Some(prev) = current.prev() {
                self.next_index.insert(from, prev);
            }
        }
    }

    /// All peer IDs currently tracked by this leader, in ascending order.
    pub fn tracked_peers(&self) -> (peers: Vec<NodeId>)
        ensures
            peers@ == node_map::in_order(self@.next.dom()),
            peers@.to_set() == self@.next.dom(),
            node_map::strictly_ascending(peers@),
    {
        self.next_index.keys()
    }

    /// Registers a peer added by a configuration change.
    ///
    /// Idempotent: a repeated call for a known peer leaves its already-advanced indices alone
    /// rather than resetting replication progress.
    pub fn add_peer(&mut self, peer: NodeId, last_log_index: LogIndex)
        ensures
            final(self)@ == old(self)@.add_peer(peer, last_log_index),
    {
        if !self.next_index.contains(peer) {
            self.next_index.insert(peer, last_log_index.next());
        }
        if !self.match_index.contains(peer) {
            self.match_index.insert(peer, LogIndex { value: 0 });
        }
    }

    /// Deregisters a peer removed by a configuration change. Its match index stops counting
    /// toward quorum from the next commit calculation onward.
    pub fn remove_peer(&mut self, peer: NodeId)
        ensures
            final(self)@ == old(self)@.remove_peer(peer),
    {
        self.next_index.remove(peer);
        self.match_index.remove(peer);
    }

    /// Follows a change of the set of peers from `old_peers` to `new_peers`.
    pub fn retarget(
        &mut self,
        old_peers: &[NodeId],
        new_peers: &[NodeId],
        last_log_index: LogIndex,
    )
        ensures
            final(self)@ == old(self)@.retarget(
                old_peers@.to_set(),
                new_peers@.to_set(),
                last_log_index,
            ),
    {
        let ghost before = self@;
        let ghost olds = old_peers@.to_set();
        let ghost news = new_peers@.to_set();
        let mut i: usize = 0;
        proof {
            let none = Set::<NodeId>::empty();
            assert(new_peers@.take(0).to_set() =~= none);
            assert(before =~= before.retarget(olds, olds, last_log_index));
            assert(before.retarget(olds, olds, last_log_index) =~= before.retarget(
                olds,
                olds.union(none),
                last_log_index,
            ));
        }
        while i < new_peers.len()
            invariant
                i <= new_peers.len(),
                olds == old_peers@.to_set(),
                self@ == before.retarget(
                    olds,
                    olds.union(new_peers@.take(i as int).to_set()),
                    last_log_index,
                ),
            decreases new_peers.len() - i,
        {
            if !holds(old_peers, new_peers[i]) {
                self.add_peer(new_peers[i], last_log_index);
            }
            i = i + 1;
            proof {
                node_map::lemma_take_one_more(new_peers@, i - 1);
                let want = before.retarget(
                    olds,
                    olds.union(new_peers@.take(i as int).to_set()),
                    last_log_index,
                );
                assert(self@.next =~= want.next);
                assert(self@.matched =~= want.matched);
            }
        }
        proof {
            assert(new_peers@.take(i as int) =~= new_peers@);
            assert(old_peers@.take(0).to_set() =~= Set::<NodeId>::empty());
            assert(olds.union(news) =~= news.union(olds.difference(old_peers@.take(0).to_set())));
        }
        let mut j: usize = 0;
        while j < old_peers.len()
            invariant
                j <= old_peers.len(),
                olds == old_peers@.to_set(),
                news == new_peers@.to_set(),
                self@ == before.retarget(
                    olds,
                    news.union(olds.difference(old_peers@.take(j as int).to_set())),
                    last_log_index,
                ),
            decreases old_peers.len() - j,
        {
            if !holds(new_peers, old_peers[j]) {
                self.remove_peer(old_peers[j]);
            }
            j = j + 1;
            proof {
                node_map::lemma_take_one_more(old_peers@, j - 1);
                assert(olds.contains(old_peers@[j - 1]));
                let want = before.retarget(
                    olds,
                    news.union(olds.difference(old_peers@.take(j as int).to_set())),
                    last_log_index,
                );
                assert(self@.next =~= want.next);
                assert(self@.matched =~= want.matched);
            }
        }
        proof {
            assert(old_peers@.take(j as int) =~= old_peers@);
            assert(news.union(olds.difference(olds)) =~= news);
        }
    }
}

/// Whether `id` is one of `ids`.
fn holds(ids: &[NodeId], id: NodeId) -> (found: bool)
    ensures
        found == ids@.to_set().contains(id),
{
    let mut i: usize = 0;
    while i < ids.len()
        invariant
            i <= ids.len(),
            forall|k: int| 0 <= k < i ==> ids[k] != id,
        decreases ids.len() - i,
    {
        if ids[i].value == id.value {
            assert(ids@[i as int] == id);
            return true;
        }
        i = i + 1;
    }
    false
}

/// A stale or repeated acknowledgement never lowers what is known to be replicated.
pub proof fn law_match_index_never_rewinds(
    leader: LeaderView,
    from: NodeId,
    index: LogIndex,
    peer: NodeId,
)
    ensures
        leader.record_success(from, index).matched_by(peer).value >= leader.matched_by(peer).value,
        leader.record_failure(from).matched_by(peer) == leader.matched_by(peer),
{
}

/// Adding a peer a second time keeps the progress it has made.
pub proof fn law_add_peer_is_idempotent(leader: LeaderView, peer: NodeId, a: LogIndex, b: LogIndex)
    ensures
        leader.add_peer(peer, a).add_peer(peer, b) == leader.add_peer(peer, a),
{
}

/// A peer that is added is kept track of from scratch, unless it was kept track of already, and one that
/// is removed is forgotten. Nobody else's progress changes.
pub proof fn law_peers_come_and_go(leader: LeaderView, peer: NodeId, last: LogIndex, other: NodeId)
    requires
        other != peer,
    ensures
        ({
            let after = leader.add_peer(peer, last);
            &&& after.next.dom().contains(peer)
            &&& after.matched.dom().contains(peer)
            &&& !leader.next.dom().contains(peer) ==> after.next[peer].value == if last.value
                < u64::MAX {
                last.value + 1
            } else {
                u64::MAX as int
            }
            &&& leader.next.dom().contains(peer) ==> after.next[peer] == leader.next[peer]
            &&& !leader.matched.dom().contains(peer) ==> after.matched[peer].value == 0
            &&& leader.matched.dom().contains(peer) ==> after.matched[peer] == leader.matched[peer]
            &&& after.next.dom().contains(other) <==> leader.next.dom().contains(other)
            &&& leader.next.dom().contains(other) ==> after.next[other] == leader.next[other]
            &&& after.matched.dom().contains(other) <==> leader.matched.dom().contains(other)
            &&& leader.matched.dom().contains(other) ==> after.matched[other]
                == leader.matched[other]
        }),
        ({
            let after = leader.remove_peer(peer);
            &&& !after.next.dom().contains(peer)
            &&& !after.matched.dom().contains(peer)
            &&& after.next.dom().contains(other) <==> leader.next.dom().contains(other)
            &&& leader.next.dom().contains(other) ==> after.next[other] == leader.next[other]
            &&& after.matched.dom().contains(other) <==> leader.matched.dom().contains(other)
            &&& leader.matched.dom().contains(other) ==> after.matched[other]
                == leader.matched[other]
        }),
{
}

/// A rejection makes the leader try one entry earlier with whoever rejected, down to the start, and
/// changes nothing of anybody else.
pub proof fn law_rejection_backs_off_one_entry(leader: LeaderView, from: NodeId, other: NodeId)
    requires
        other != from,
    ensures
        ({
            let after = leader.record_failure(from);
            &&& after.next.dom() == leader.next.dom()
            &&& leader.next.dom().contains(from) && leader.next[from].value > 0
                ==> after.next[from].value == leader.next[from].value - 1
            &&& leader.next.dom().contains(from) && leader.next[from].value == 0
                ==> after.next[from].value == 0
            &&& leader.next.dom().contains(other) ==> after.next[other] == leader.next[other]
            &&& after.matched == leader.matched
        }),
{
    assert(leader.record_failure(from).next.dom() =~= leader.next.dom());
}

} // verus!
