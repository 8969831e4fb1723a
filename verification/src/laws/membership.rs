//! Membership: which configuration is in force, and who is reached.
use vstd::prelude::*;

use crate::laws::elections;
use crate::laws::replication;
use crate::model::NodeView;
use crate::model::RoleView;
use crate::persistent::PersistentView;
use crate::routes;
use crate::server;
use crate::server::MembershipRequest;
use crate::storage::StoredView;
use crate::types::address::SocketAddr;
use crate::types::config;
use crate::types::config::Members;
use crate::types::log;
use crate::types::log::EntryView;
use crate::types::log::PayloadView;
use crate::types::message::AppendEntriesView;
use crate::types::message::MessageView;
use crate::types::primitives::LogIndex;
use crate::types::primitives::NodeId;

verus! {

/// Whether `config` is the newest membership among entries: one of them holds it, and none behind that
/// holds another.
pub open spec fn is_newest<C>(entries: Seq<EntryView<C>>, config: Members) -> bool {
    exists|k: int| #[trigger] is_newest_at(entries, config, k)
}

/// Whether the newest membership among entries is `config`, in the entry at `k`.
pub open spec fn is_newest_at<C>(entries: Seq<EntryView<C>>, config: Members, k: int) -> bool {
    &&& 0 <= k < entries.len()
    &&& entries[k].payload == PayloadView::<C>::ConfigChange(config)
    &&& forall|j: int| k < j < entries.len() ==> !((#[trigger] entries[j]).payload is ConfigChange)
}

/// Whether no entry holds a membership.
pub open spec fn none_change<C>(entries: Seq<EntryView<C>>) -> bool {
    forall|k: int| 0 <= k < entries.len() ==> !((#[trigger] entries[k]).payload is ConfigChange)
}

/// Whether `config` governs a node whose log holds these entries: the newest membership among them, or
/// that of the snapshot before them, or the one that the node was started with.
pub open spec fn governs<C>(
    state: PersistentView<C>,
    initial: Members,
    entries: Seq<EntryView<C>>,
    config: Members,
) -> bool {
    ||| is_newest(entries, config)
    ||| none_change(entries) && config == match state.latest_snapshot {
        Some(snapshot) => snapshot.config,
        None => initial,
    }
}

proof fn lemma_latest<C>(entries: Seq<EntryView<C>>)
    ensures
        log::latest_config(entries) matches Some(config) ==> is_newest(entries, config),
        log::latest_config(entries) is None ==> none_change(entries),
        log::has_config_change(entries) <==> !none_change(entries),
    decreases entries.len(),
{
    if entries.len() > 0 {
        let fewer = entries.drop_last();
        lemma_latest(fewer);
        let last = entries.len() - 1;
        match entries[last].payload {
            PayloadView::ConfigChange(config) => {
                assert(is_newest_at(entries, config, last));
            },
            _ => {
                if let Some(config) = log::latest_config(fewer) {
                    let k = choose|k: int| #[trigger] is_newest_at(fewer, config, k);
                    assert forall|j: int| k < j < entries.len() implies !((
                    #[trigger] entries[j]).payload is ConfigChange) by {
                        if j < last {
                            assert(fewer[j] == entries[j]);
                        }
                    }
                    assert(fewer[k] == entries[k]);
                    assert(is_newest_at(entries, config, k));
                } else {
                    assert forall|k: int| 0 <= k < entries.len() implies !((
                    #[trigger] entries[k]).payload is ConfigChange) by {
                        if k < last {
                            assert(fewer[k] == entries[k]);
                        }
                    }
                }
            },
        }
    }
}

pub proof fn lemma_governs<C>(node: NodeView<C>, entries: Seq<EntryView<C>>)
    ensures
        governs(node.persistent, node.initial_config, entries, node.config_from(entries)),
{
    lemma_latest(entries);
}

/// There is one membership that governs a node.
pub proof fn law_one_membership_governs<C>(
    state: PersistentView<C>,
    initial: Members,
    entries: Seq<EntryView<C>>,
    a: Members,
    b: Members,
)
    requires
        governs(state, initial, entries, a),
        governs(state, initial, entries, b),
    ensures
        a == b,
{
    if is_newest(entries, a) && is_newest(entries, b) {
        let i = choose|k: int| #[trigger] is_newest_at(entries, a, k);
        let j = choose|k: int| #[trigger] is_newest_at(entries, b, k);
        if i < j {
            assert(!(entries[j].payload is ConfigChange));
        }
        if j < i {
            assert(!(entries[i].payload is ConfigChange));
        }
    } else if is_newest(entries, a) {
        let i = choose|k: int| #[trigger] is_newest_at(entries, a, k);
        assert(entries[i].payload is ConfigChange);
    } else if is_newest(entries, b) {
        let j = choose|k: int| #[trigger] is_newest_at(entries, b, k);
        assert(entries[j].payload is ConfigChange);
    }
}

/// A node that starts again is governed by what it finds in its log, and follows nobody. Everything
/// that its snapshot covers, and nothing else, counts as committed and applied. Term, vote, log, and
/// snapshot are what is stored.
pub proof fn law_restart_takes_up_what_is_stored<C>(
    id: NodeId,
    initial: Members,
    stored: StoredView<C>,
)
    requires
        stored.snapshot matches Some(snapshot) ==> snapshot.last_index <= u64::MAX,
    ensures
        ({
            let node = NodeView::restored(id, initial, stored);
            let state = node.persistent;
            let boundary = match stored.snapshot {
                Some(snapshot) => snapshot.last_index,
                None => 0,
            };
            &&& node.id == id
            &&& node.initial_config == initial
            &&& node.role == RoleView::Follower(None)
            &&& node.commit.value == boundary
            &&& node.applied.value == boundary
            &&& node.to_restore is None
            &&& node.committed_configs.len() == 0
            &&& state.term == stored.term
            &&& state.voted_for == stored.voted_for
            &&& state.latest_snapshot == stored.snapshot
            &&& state.log.entries == stored.log.entries
            &&& state.log.boundary == boundary
            &&& state.log.boundary_term == match stored.snapshot {
                Some(snapshot) => snapshot.last_term,
                None => 0,
            }
            &&& governs(state, initial, stored.log.entries, node.config)
            &&& node.config_changes == if node.config == initial {
                Seq::<Members>::empty()
            } else {
                seq![node.config]
            }
            &&& !state.meta_dirty
            &&& state.pending_install is None
            &&& state.truncated_from is None
            &&& state.pending_append.len() == 0
        }),
{
    let base = NodeView {
        persistent: PersistentView::restored(stored),
        ..NodeView::<C>::fresh(id, initial)
    };
    lemma_governs(base, stored.log.entries);
    assert(Seq::<Members>::empty().push(NodeView::restored(id, initial, stored).config) =~= seq![
        NodeView::restored(id, initial, stored).config,
    ]);
}

/// A follower that takes over entries is governed by its log as it then stands, wherever a membership
/// came in or one may have been dropped, and the driver is told of a membership that is new. Otherwise
/// its membership stays.
pub proof fn law_follower_adopts_the_newest_membership<C>(
    node: NodeView<C>,
    from: NodeId,
    req: AppendEntriesView<C>,
)
    requires
        elections::fits(node),
        node.has_room_for(MessageView::AppendEntries(req)),
        !(node.role is Leader && req.term == node.persistent.term),
        req.term.value >= node.persistent.term.value,
        replication::agrees_at(
            node.persistent.log,
            req.prev_log_index.value as int,
            req.prev_log_term.value as nat,
        ),
    ensures
        ({
            let after = node.handle_append_entries(from, req).0;
            let entries = after.persistent.log.entries;
            &&& !none_change(req.entries) ==> governs(
                after.persistent,
                node.initial_config,
                entries,
                after.config,
            )
            &&& entries.len() < node.persistent.log.entries.len() ==> governs(
                after.persistent,
                node.initial_config,
                entries,
                after.config,
            )
            &&& after.config == node.config || governs(
                after.persistent,
                node.initial_config,
                entries,
                after.config,
            )
            &&& none_change(req.entries) && governs(
                node.persistent,
                node.initial_config,
                node.persistent.log.entries,
                node.config,
            ) ==> governs(after.persistent, node.initial_config, entries, after.config)
            &&& after.config_changes == if after.config == node.config {
                node.config_changes
            } else {
                node.config_changes.push(after.config)
            }
        }),
{
    lemma_latest(req.entries);
    let follower = node.follow(req.term, req.leader_id);
    let prev = req.prev_log_index.value as nat;
    let merged = NodeView {
        persistent: follower.persistent.merge_entries(prev, req.entries),
        ..follower
    };
    let entries = merged.persistent.log.entries;
    let before = node.persistent.log;
    lemma_governs(merged, entries);
    log::lemma_held(before, prev, req.entries);
    if before.conflict(prev, req.entries) is None {
        let n = before.held(prev, req.entries);
        if n > 0 {
            assert(before.holds(prev, req.entries, n - 1));
        }
        let added = req.entries.skip(n as int);
        assert(entries =~= before.entries + added) by {
            if n == req.entries.len() {
                assert(added =~= Seq::<EntryView<C>>::empty());
            }
        }
        if none_change(req.entries) {
            assert forall|k: int| 0 <= k < added.len() implies !((
            #[trigger] added[k]).payload is ConfigChange) by {
                assert(added[k] == req.entries[k + n]);
            }
            if is_newest(before.entries, node.config) {
                let k = choose|k: int| #[trigger] is_newest_at(before.entries, node.config, k);
                assert(is_newest_at(entries, node.config, k));
            }
        }
    }
}

/// The membership that a snapshot through `index` names is the one that governed there: the newest in
/// the log through that index, or that of the snapshot before, or the one the node was started with.
/// Where nothing above the index changes the membership, that is the one in force.
pub proof fn law_membership_as_of_an_index<C>(node: NodeView<C>, index: LogIndex)
    requires
        node.persistent.log.boundary + node.persistent.log.entries.len() < u64::MAX,
        node.persistent.log.boundary <= index.value <= node.persistent.log.boundary
            + node.persistent.log.entries.len(),
        governs(
            node.persistent,
            node.initial_config,
            node.persistent.log.entries,
            node.config,
        ),
    ensures
        governs(
            node.persistent,
            node.initial_config,
            node.persistent.log.entries.take(index.value - node.persistent.log.boundary),
            node.config_as_of(index),
        ),
{
    let log = node.persistent.log;
    let below = log.entries.take(index.value - log.boundary);
    let above = log.suffix_from(index.value + 1);
    assert(above =~= log.entries.skip(index.value - log.boundary));
    assert(log.through(index.value as int) =~= below);
    lemma_latest(above);
    lemma_governs(node, below);
    if none_change(above) {
        assert forall|k: int| index.value - log.boundary <= k < log.entries.len() implies !((
        #[trigger] log.entries[k]).payload is ConfigChange) by {
            assert(above[k - (index.value - log.boundary)] == log.entries[k]);
        }
        if is_newest(log.entries, node.config) {
            let k = choose|k: int| #[trigger] is_newest_at(log.entries, node.config, k);
            assert(below[k] == log.entries[k]);
            assert(is_newest_at(below, node.config, k));
        }
    }
}

/// Asking for a member to be removed is refused only where that is the only member, and leads to the
/// others, at their addresses. Asking for one to be added always leads to a membership that has it, at
/// the address given, and the others as they were.
pub proof fn law_requests_change_one_member(members: Members, req: MembershipRequest, other: NodeId)
    requires
        members.dom().finite(),
        members.dom().len() > 0,
    ensures
        ({
            let asked = server::requested_members(members, req);
            match req {
                MembershipRequest::Add { id, addr } => asked matches Some(after) && {
                    &&& after.dom().contains(id)
                    &&& after[id] == addr
                    &&& other != id ==> (after.dom().contains(other) <==> members.dom().contains(
                        other,
                    ))
                    &&& other != id && members.dom().contains(other) ==> after[other]
                        == members[other]
                },
                MembershipRequest::Remove { id } => {
                    &&& asked is None <==> members.dom().contains(id) && members.dom().len() == 1
                    &&& asked matches Some(after) ==> {
                        &&& !after.dom().contains(id)
                        &&& other != id ==> (after.dom().contains(other) <==> members.dom().contains(
                            other,
                        ))
                        &&& other != id && members.dom().contains(other) ==> after[other]
                            == members[other]
                        &&& after.dom().len() > 0
                    }
                },
            }
        }),
{
    if let MembershipRequest::Remove { id } = req {
        let all = members.dom();
        if all.contains(id) && all.len() == 1 {
            assert(all.remove(id).len() == 0);
            assert(all =~= set![id]) by {
                assert forall|x: NodeId| all.contains(x) implies x == id by {
                    if x != id {
                        assert(all.remove(id).contains(x));
                    }
                }
            }
        }
        if server::requested_members(members, req) is Some && all.contains(id) {
            assert(members.remove(id).dom() =~= all.remove(id));
        } else if !all.contains(id) {
            assert(members.remove(id).dom() =~= all);
        }
    }
}

/// Once a membership is in force, exactly its members are reached, at their addresses; this node itself
/// is reached only if it was before.
pub proof fn law_routes_follow_the_membership(
    routes: Members,
    config: Members,
    self_id: NodeId,
    peer: NodeId,
)
    requires
        peer != self_id,
    ensures
        routes::routes_for(routes, config, self_id).dom().contains(peer)
            <==> config.dom().contains(peer),
        config.dom().contains(peer) ==> routes::routes_for(routes, config, self_id)[peer]
            == config[peer],
        routes::routes_for(routes, config, self_id).dom().contains(self_id)
            <==> config.dom().contains(self_id) && routes.dom().contains(self_id),
{
}

/// Of several memberships that have taken effect one after another, the last decides who is reached.
pub proof fn law_last_membership_decides_the_routes(
    routes: Members,
    configs: Seq<Members>,
    self_id: NodeId,
    peer: NodeId,
)
    requires
        peer != self_id,
    ensures
        configs.len() == 0 ==> server::routes_through(routes, configs, self_id) == routes,
        configs.len() > 0 ==> {
            &&& server::routes_through(routes, configs, self_id).dom().contains(peer)
                <==> configs[configs.len() - 1].dom().contains(peer)
            &&& configs[configs.len() - 1].dom().contains(peer) ==> server::routes_through(
                routes,
                configs,
                self_id,
            )[peer] == configs[configs.len() - 1][peer]
        },
{
}

/// Whether the last that a list says of a member is at `i`.
pub open spec fn is_last_of(pairs: Seq<(NodeId, SocketAddr)>, id: NodeId, i: int) -> bool {
    &&& 0 <= i < pairs.len()
    &&& pairs[i].0 == id
    &&& forall|j: int| i < j < pairs.len() ==> (#[trigger] pairs[j]).0 != id
}

/// A list of members is read as the membership that has exactly those, each at the last address that
/// the list gives it.
pub proof fn law_listed_members_are_the_membership(pairs: Seq<(NodeId, SocketAddr)>, id: NodeId)
    ensures
        config::members_of(pairs).dom().contains(id) <==> exists|i: int| #[trigger]
            is_last_of(pairs, id, i),
        forall|i: int| #[trigger]
            is_last_of(pairs, id, i) ==> config::members_of(pairs)[id] == pairs[i].1,
    decreases pairs.len(),
{
    if pairs.len() > 0 {
        let fewer = pairs.drop_last();
        let last = pairs.len() - 1;
        law_listed_members_are_the_membership(fewer, id);
        if pairs[last].0 == id {
            assert(is_last_of(pairs, id, last));
        } else if config::members_of(fewer).dom().contains(id) {
            let i = choose|i: int| #[trigger] is_last_of(fewer, id, i);
            assert(is_last_of(pairs, id, i)) by {
                assert forall|j: int| i < j < pairs.len() implies (#[trigger] pairs[j]).0 != id by {
                    if j < last {
                        assert(fewer[j] == pairs[j]);
                    }
                }
            }
        }
        assert forall|i: int| #[trigger] is_last_of(pairs, id, i) implies config::members_of(pairs)[id]
            == pairs[i].1 && config::members_of(pairs).dom().contains(id) by {
            if i < last {
                assert(pairs[last].0 != id);
                assert forall|j: int| i < j < fewer.len() implies (#[trigger] fewer[j]).0 != id by {
                    assert(fewer[j] == pairs[j]);
                }
                assert(is_last_of(fewer, id, i));
            }
        }
    }
}

/// A node that has never run is in term 0, has voted for nobody, follows nobody, has an empty log, and
/// has the membership it is given.
pub proof fn law_fresh_node_knows_its_membership<C>(id: NodeId, config: Members)
    ensures
        ({
            let node = NodeView::<C>::fresh(id, config);
            &&& node.id == id
            &&& node.config == config
            &&& node.initial_config == config
            &&& node.role == RoleView::Follower(None)
            &&& node.commit.value == 0
            &&& node.applied.value == 0
            &&& node.persistent.term.value == 0
            &&& node.persistent.voted_for is None
            &&& node.persistent.log.boundary == 0
            &&& node.persistent.log.entries.len() == 0
            &&& node.persistent.latest_snapshot is None
            &&& node.config_changes.len() == 0
            &&& node.committed_configs.len() == 0
            &&& node.to_restore is None
        }),
{
}

} // verus!
