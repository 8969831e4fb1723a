//! Where the members of the cluster can be reached.
use vstd::prelude::*;

use crate::types::address::SocketAddr;
use crate::types::config::ClusterConfig;
use crate::types::config::Members;
use crate::types::node_map;
use crate::types::node_map::NodeMap;
use crate::types::primitives::NodeId;

verus! {

/// The routes once `config` has taken effect: whoever left is unreachable, and every member but
/// this node is reached at its address in `config`.
pub open spec fn routes_for(routes: Members, config: Members, self_id: NodeId) -> Members {
    Map::new(
        |id: NodeId|
            config.dom().contains(id) && (id != self_id || routes.dom().contains(id)),
        |id: NodeId|
            if id == self_id {
                routes[id]
            } else {
                config[id]
            },
    )
}

/// Why a message could not be handed to the network: its receiver is not registered.
#[derive(Clone, Copy, Debug, PartialEq, Eq, Structural)]
pub struct UnknownPeer {
    pub peer: NodeId,
}

/// The address of every peer a message can be sent to.
pub struct Routes {
    peers: NodeMap<SocketAddr>,
}

impl View for Routes {
    type V = Members;

    closed spec fn view(&self) -> Members {
        self.peers@
    }
}

impl Routes {
    /// Routes to nobody.
    pub fn new() -> (routes: Self)
        ensures
            routes@ == Members::empty(),
    {
        Routes { peers: NodeMap::new() }
    }

    /// Registers a peer, replacing the address if it is already known.
    pub fn add_peer(&mut self, peer: NodeId, addr: SocketAddr)
        ensures
            final(self)@ == old(self)@.insert(peer, addr),
    {
        self.peers.insert(peer, addr);
    }

    /// Deregisters a peer. Later sends to it fail with `UnknownPeer`.
    pub fn remove_peer(&mut self, peer: NodeId)
        ensures
            final(self)@ == old(self)@.remove(peer),
    {
        self.peers.remove(peer);
    }

    /// All currently registered peer IDs, in ascending order.
    pub fn peer_ids(&self) -> (ids: Vec<NodeId>)
        ensures
            self@.dom().finite(),
            ids@ == node_map::in_order(self@.dom()),
            ids@.to_set() == self@.dom(),
    {
        self.peers.keys()
    }

    /// The address that a message to `to` goes to.
    ///
    /// # Errors
    /// `UnknownPeer` if `to` is not registered.
    pub fn route_to(&self, to: NodeId) -> (result: Result<SocketAddr, UnknownPeer>)
        ensures
            match result {
                Ok(addr) => self@.dom().contains(to) && addr == self@[to],
                Err(e) => !self@.dom().contains(to) && e.peer == to,
            },
    {
        match self.peers.get(to) {
            Some(addr) => Ok(addr),
            None => Err(UnknownPeer { peer: to }),
        }
    }

    /// Brings the routes in line with a configuration that has taken effect.
    pub fn adopt(&mut self, config: &ClusterConfig, self_id: NodeId)
        ensures
            final(self)@ == routes_for(old(self)@, config@, self_id),
    {
        let ghost before = self@;
        let ids = self.peer_ids();
        let ghost kept = before.restrict(config@.dom());
        proof {
            assert(ids@.skip(0) =~= ids@);
            assert forall|id: NodeId| ids@.contains(id) <==> before.dom().contains(id) by {
                assert(ids@.to_set().contains(id) <==> before.dom().contains(id));
            }
        }
        let mut i: usize = 0;
        while i < ids.len()
            invariant
                i <= ids.len(),
                before.dom().finite(),
                ids@ == node_map::in_order(before.dom()),
                ids@.to_set() == before.dom(),
                forall|id: NodeId| #[trigger]
                    self@.dom().contains(id) <==> before.dom().contains(id) && (
                    config@.dom().contains(id) || ids@.skip(i as int).contains(id)),
                forall|id: NodeId| #[trigger] self@.dom().contains(id) ==> self@[id] == before[id],
            decreases ids.len() - i,
        {
            if !config.contains(ids[i]) {
                self.remove_peer(ids[i]);
            }
            proof {
                let rest = ids@.skip(i as int);
                let less = ids@.skip(i + 1);
                assert forall|id: NodeId| rest.contains(id) <==> less.contains(id) || id
                    == ids@[i as int] by {
                    if rest.contains(id) {
                        let k = choose|k: int| 0 <= k < rest.len() && rest[k] == id;
                        if k > 0 {
                            assert(less[k - 1] == id);
                        }
                    }
                    if less.contains(id) {
                        let k = choose|k: int| 0 <= k < less.len() && less[k] == id;
                        assert(rest[k + 1] == id);
                    }
                    assert(rest[0] == ids@[i as int]);
                }
                node_map::lemma_in_order(before.dom());
                assert(ids@.to_set().contains(ids@[i as int]));
                assert(!config@.dom().contains(ids@[i as int]) ==> !less.contains(ids@[i as int]))
                    by {
                    if less.contains(ids@[i as int]) {
                        let k = choose|k: int| 0 <= k < less.len() && less[k] == ids@[i as int];
                        assert(ids@[i + 1 + k] == ids@[i as int]);
                        node_map::lemma_in_order_of_ascending(ids@);
                    }
                }
            }
            i = i + 1;
        }
        proof {
            assert(ids@.skip(i as int).len() == 0);
            assert(self@ =~= kept);
        }
        let members = config.members();
        let ghost order = node_map::in_order(config@.dom());
        proof {
            node_map::lemma_in_order(config@.dom());
        }
        let mut j: usize = 0;
        while j < members.len()
            invariant
                j <= members.len(),
                order == node_map::in_order(config@.dom()),
                order.len() == members.len(),
                order.to_set() == config@.dom(),
                forall|k: int|
                    0 <= k < members.len() ==> (#[trigger] members[k]).0 == order[k]
                        && members[k].1 == config@[members[k].0],
                forall|id: NodeId| #[trigger]
                    self@.dom().contains(id) <==> kept.dom().contains(id) || (id != self_id
                        && order.take(j as int).contains(id)),
                forall|id: NodeId| #[trigger]
                    self@.dom().contains(id) ==> self@[id] == if id != self_id && order.take(
                        j as int,
                    ).contains(id) {
                        config@[id]
                    } else {
                        kept[id]
                    },
            decreases members.len() - j,
        {
            let ghost prior = self@;
            if members[j].0.value != self_id.value {
                self.add_peer(members[j].0, members[j].1);
            }
            proof {
                node_map::lemma_take_one_more(order, j as int);
                assert forall|id: NodeId| order.take(j + 1).contains(id) <==> order.take(
                    j as int,
                ).contains(id) || id == order[j as int] by {
                    assert(order.take(j + 1).to_set().contains(id) <==> order.take(
                        j as int,
                    ).to_set().insert(order[j as int]).contains(id));
                }
                assert(members[j as int].0 == order[j as int]);
                assert forall|id: NodeId| #[trigger]
                    self@.dom().contains(id) <==> kept.dom().contains(id) || (id != self_id
                        && order.take(j + 1).contains(id)) by {
                    assert(prior.dom().contains(id) <==> kept.dom().contains(id) || (id != self_id
                        && order.take(j as int).contains(id)));
                    assert(order.take(j + 1).contains(id) <==> order.take(j as int).contains(id)
                        || id == order[j as int]);
                }
            }
            j = j + 1;
        }
        proof {
            assert(order.take(j as int) =~= order);
            assert forall|id: NodeId| order.contains(id) <==> config@.dom().contains(id) by {
                assert(order.to_set().contains(id) <==> config@.dom().contains(id));
            }
            assert(self@ =~= routes_for(before, config@, self_id));
        }
    }
}

} // verus!
