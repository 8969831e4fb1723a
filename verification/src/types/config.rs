//! Cluster membership.
use vstd::prelude::*;

use super::address::SocketAddr;
use super::node_map;
use super::node_map::NodeMap;
use super::primitives::NodeId;

verus! {

/// Why a `ClusterConfig` could not be constructed.
#[derive(Clone, Copy, Debug, PartialEq, Eq, Structural)]
pub enum ConfigError {
    /// A membership of size zero breaks quorum arithmetic: the majority threshold computes to 1
    /// while no node can ever vote, so no entry commits.
    Empty,
}

impl ConfigError {
    /// The message shown to a person.
    pub fn display(self) -> (s: &'static str)
        ensures
            s@ == "cluster config must have at least one member"@,
    {
        "cluster config must have at least one member"
    }
}

/// Whether a `NodeId` holds a voting seat in a `ClusterConfig`.
#[derive(Clone, Copy, Debug, PartialEq, Eq, Structural)]
pub enum Membership {
    Member,
    NonMember,
}

/// A membership as a mathematical value: every member with its address.
pub type Members = Map<NodeId, SocketAddr>;

/// The membership that a list of pairs describes. A repeated identifier takes its last address.
pub open spec fn members_of(pairs: Seq<(NodeId, SocketAddr)>) -> Members
    decreases pairs.len(),
{
    if pairs.len() == 0 {
        Map::empty()
    } else {
        members_of(pairs.drop_last()).insert(pairs.last().0, pairs.last().1)
    }
}

/// Complete cluster membership: every voting member's ID mapped to its Raft RPC address.
///
/// Construction rejects an empty membership, so quorum arithmetic never runs against zero voters.
///
/// A configuration is stored verbatim in the log as `LogPayload::ConfigChange`, which lets any
/// node reconstruct the entire membership history from its log alone after a crash.
///
/// A `ConfigChange` entry takes effect as soon as it is appended, not when it commits. That is
/// the single-server-change rule of dissertation section 4.1: because only one member is added or
/// removed at a time, any majority of the old configuration intersects any majority of the new
/// one, so the two configurations cannot elect separate leaders.
#[derive(Debug, PartialEq, Eq)]
pub struct ClusterConfig {
    members: NodeMap<SocketAddr>,
}

impl View for ClusterConfig {
    type V = Members;

    closed spec fn view(&self) -> Members {
        self.members@
    }
}

impl ClusterConfig {
    #[verifier::type_invariant]
    spec fn inv(self) -> bool {
        self.members@.dom().finite() && self.members@.dom().len() > 0
    }

    fn of(members: NodeMap<SocketAddr>) -> (config: Result<Self, ConfigError>)
        ensures
            config is Err <==> members@.dom() == Set::<NodeId>::empty(),
            config matches Err(e) ==> e == ConfigError::Empty,
            config matches Ok(c) ==> c@ == members@,
    {
        if members.len() == 0 {
            assert(members@.dom() =~= Set::<NodeId>::empty());
            return Err(ConfigError::Empty);
        }
        Ok(ClusterConfig { members })
    }

    /// Builds a configuration from the members and their addresses. Where an identifier occurs
    /// more than once, the last address given for it stands.
    ///
    /// # Errors
    /// `ConfigError::Empty` when `members` is empty.
    pub fn new(members: Vec<(NodeId, SocketAddr)>) -> (config: Result<Self, ConfigError>)
        ensures
            config is Err <==> members@.len() == 0,
            config matches Err(e) ==> e == ConfigError::Empty,
            config matches Ok(c) ==> c@ == members_of(members@),
    {
        let mut map: NodeMap<SocketAddr> = NodeMap::new();
        let mut i: usize = 0;
        proof {
            assert(members@.take(0).len() == 0);
        }
        while i < members.len()
            invariant
                i <= members.len(),
                map@ == members_of(members@.take(i as int)),
            decreases members.len() - i,
        {
            map.insert(members[i].0, members[i].1);
            i = i + 1;
            proof {
                assert(members@.take(i as int).drop_last() =~= members@.take(i - 1));
            }
        }
        proof {
            assert(members@.take(i as int) =~= members@);
            if members@.len() > 0 {
                assert(map@.dom().contains(members@.last().0));
            }
        }
        ClusterConfig::of(map)
    }

    /// Derives the next configuration with `id` added, or its address updated if it is already a
    /// member. Infallible, because growing a non-empty membership cannot empty it.
    pub fn with_member(&self, id: NodeId, addr: SocketAddr) -> (config: Self)
        ensures
            config@ == self@.insert(id, addr),
    {
        proof {
            use_type_invariant(self);
        }
        let mut members = self.members.duplicate();
        members.insert(id, addr);
        proof {
            assert(members@.dom() =~= self@.dom().insert(id));
        }
        ClusterConfig { members }
    }

    /// Derives the next configuration with `id` removed. Removing an absent `id` yields an
    /// equivalent configuration.
    ///
    /// # Errors
    /// `ConfigError::Empty` when `id` was the only remaining member.
    pub fn without_member(&self, id: NodeId) -> (config: Result<Self, ConfigError>)
        ensures
            config is Err <==> self@.dom() == set![id],
            config matches Err(e) ==> e == ConfigError::Empty,
            config matches Ok(c) ==> c@ == self@.remove(id),
    {
        proof {
            use_type_invariant(self);
        }
        let mut members = self.members.duplicate();
        members.remove(id);
        proof {
            if self@.dom() == set![id] {
                assert(members@.dom() =~= Set::<NodeId>::empty());
            }
            if members@.dom() == Set::<NodeId>::empty() {
                let x = self@.dom().choose();
                assert(self@.dom().contains(x));
                assert forall|y: NodeId| self@.dom().contains(y) <==> y == id by {
                    if self@.dom().contains(y) && y != id {
                        assert(members@.dom().contains(y));
                    }
                    if x != id {
                        assert(members@.dom().contains(x));
                    }
                }
                assert(self@.dom() =~= set![id]);
            }
        }
        ClusterConfig::of(members)
    }

    /// All member IDs except `self_id`, in ascending order.
    pub fn peer_ids(&self, self_id: NodeId) -> (peers: Vec<NodeId>)
        ensures
            self@.dom().finite(),
            peers@ == node_map::in_order(self@.dom().remove(self_id)),
            node_map::strictly_ascending(peers@),
            peers@.to_set() == self@.dom().remove(self_id),
            peers@.len() == self@.dom().remove(self_id).len(),
            peers@.no_duplicates(),
    {
        let ids = self.members.keys();
        let mut peers: Vec<NodeId> = Vec::new();
        let mut i: usize = 0;
        while i < ids.len()
            invariant
                i <= ids.len(),
                node_map::strictly_ascending(ids@),
                node_map::strictly_ascending(peers@),
                forall|k: int| 0 <= k < peers.len() ==> ids@.take(i as int).contains(#[trigger] peers[k]),
                forall|k: int| 0 <= k < peers.len() ==> (#[trigger] peers[k]) != self_id,
                forall|k: int|
                    0 <= k < i && ids[k] != self_id ==> peers@.contains(#[trigger] ids[k]),
            decreases ids.len() - i,
        {
            let ghost before = peers@;
            if ids[i].value != self_id.value {
                peers.push(ids[i]);
            }
            proof {
                assert forall|a: int, b: int| 0 <= a < b < peers@.len() implies peers@[a].value
                    < peers@[b].value by {
                    if b == before.len() {
                        let k = choose|k: int|
                            0 <= k < i && ids@.take(i as int)[k] == before[a];
                        assert(ids@[k] == before[a]);
                    }
                }
                assert forall|k: int| 0 <= k < peers.len() implies ids@.take(i + 1).contains(
                    #[trigger] peers[k],
                ) by {
                    if k < before.len() {
                        assert(peers@[k] == before[k]);
                        let m = choose|m: int| 0 <= m < i && ids@.take(i as int)[m] == before[k];
                        assert(ids@.take(i + 1)[m] == before[k]);
                    } else {
                        assert(ids@.take(i + 1)[i as int] == peers@[k]);
                    }
                }
                assert forall|k: int| 0 <= k < i + 1 && ids[k] != self_id implies peers@.contains(
                    #[trigger] ids[k],
                ) by {
                    if k < i {
                        let m = choose|m: int| 0 <= m < before.len() && before[m] == ids[k];
                        assert(peers@[m] == ids[k]);
                    } else {
                        assert(peers@[before.len() as int] == ids[k]);
                    }
                }
            }
            i = i + 1;
        }
        proof {
            assert(ids@.take(i as int) =~= ids@);
            assert(peers@.to_set() =~= self@.dom().remove(self_id)) by {
                assert forall|x: NodeId| peers@.to_set().contains(x) <==> self@.dom().remove(
                    self_id,
                ).contains(x) by {
                    if peers@.contains(x) {
                        let k = choose|k: int| 0 <= k < peers@.len() && peers@[k] == x;
                        assert(ids@.contains(peers[k]));
                        assert(ids@.to_set().contains(x));
                    }
                    if self@.dom().contains(x) && x != self_id {
                        assert(ids@.to_set().contains(x));
                        let k = choose|k: int| 0 <= k < ids@.len() && ids@[k] == x;
                        assert(peers@.contains(ids[k]));
                    }
                }
            }
            node_map::lemma_in_order_of_ascending(peers@);
        }
        peers
    }

    /// Every identifier and address pair in the configuration, in ascending order of identifier.
    pub fn members(&self) -> (pairs: Vec<(NodeId, SocketAddr)>)
        ensures
            self@.dom().finite(),
            pairs.len() == self@.dom().len(),
            forall|i: int|
                0 <= i < pairs.len() ==> (#[trigger] pairs[i]).0 == node_map::in_order(
                    self@.dom(),
                )[i] && pairs[i].1 == self@[pairs[i].0],
    {
        self.members.pairs()
    }

    /// Number of voting members. Always at least 1.
    pub fn size(&self) -> (size: usize)
        ensures
            self@.dom().finite(),
            size == self@.dom().len(),
            size >= 1,
    {
        proof {
            use_type_invariant(self);
        }
        self.members.len()
    }

    /// Whether `id` is a voting member.
    pub fn contains(&self, id: NodeId) -> (member: bool)
        ensures
            member == self@.dom().contains(id),
    {
        self.members.contains(id)
    }

    /// Whether `id` holds a voting seat, as a named outcome.
    ///
    /// Callers that branch on membership use this rather than `contains`, so that a removed or
    /// unknown `NodeId` reads as an explicit `NonMember` decision instead of an anonymous `false`.
    pub fn membership_of(&self, id: NodeId) -> (membership: Membership)
        ensures
            membership == if self@.dom().contains(id) {
                Membership::Member
            } else {
                Membership::NonMember
            },
    {
        if self.contains(id) {
            Membership::Member
        } else {
            Membership::NonMember
        }
    }

    /// Whether both configurations have the same members at the same addresses.
    pub fn same_members(&self, other: &Self) -> (same: bool)
        ensures
            same == (self@ == other@),
    {
        let mine = self.members.pairs();
        let theirs = other.members.pairs();
        proof {
            node_map::lemma_in_order(self@.dom());
            node_map::lemma_in_order(other@.dom());
        }
        if mine.len() != theirs.len() {
            return false;
        }
        let mut i: usize = 0;
        while i < mine.len()
            invariant
                i <= mine.len(),
                mine.len() == theirs.len(),
                mine.len() == self@.dom().len(),
                forall|k: int|
                    0 <= k < mine.len() ==> (#[trigger] mine[k]).0 == node_map::in_order(
                        self@.dom(),
                    )[k] && mine[k].1 == self@[mine[k].0],
                forall|k: int|
                    0 <= k < theirs.len() ==> (#[trigger] theirs[k]).0 == node_map::in_order(
                        other@.dom(),
                    )[k] && theirs[k].1 == other@[theirs[k].0],
                forall|k: int| 0 <= k < i ==> mine[k] == theirs[k],
            decreases mine.len() - i,
        {
            if mine[i].0.value != theirs[i].0.value {
                return false;
            }
            if mine[i].1 != theirs[i].1 {
                return false;
            }
            i = i + 1;
        }
        proof {
            let a = node_map::in_order(self@.dom());
            let b = node_map::in_order(other@.dom());
            assert forall|k: int| 0 <= k < a.len() implies a[k] == b[k] by {
                assert(mine[k] == theirs[k]);
            }
            assert(a =~= b);
            assert(self@.dom() == other@.dom());
            assert forall|x: NodeId| self@.dom().contains(x) implies self@[x] == other@[x] by {
                assert(a.to_set().contains(x));
                let k = choose|k: int| 0 <= k < a.len() && a[k] == x;
                assert(mine[k] == theirs[k]);
            }
            assert(self@ =~= other@);
        }
        true
    }
}

impl Clone for ClusterConfig {
    fn clone(&self) -> (copy: Self)
        ensures
            copy@ == self@,
    {
        proof {
            use_type_invariant(self);
        }
        ClusterConfig { members: self.members.duplicate() }
    }
}

} // verus!
