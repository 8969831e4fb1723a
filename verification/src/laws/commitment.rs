//! Commitment: what a leader commits, and when.
use vstd::prelude::*;

use crate::command::CommandView;
use crate::model::NodeView;
use crate::model::RoleView;
use crate::safety::handlers;
use crate::server;
use crate::state::LeaderView;
use crate::types::config::Members;
use crate::types::log::EntryView;
use crate::types::log::PayloadView;
use crate::types::message::AppendEntriesResponse;
use crate::types::message::InstallSnapshotResponse;
use crate::types::primitives::LogIndex;
use crate::types::primitives::NodeId;

verus! {

/// The term at an index that a log knows.
pub open spec fn term_at<C>(node: NodeView<C>, index: int) -> nat {
    let log = node.persistent.log;
    if index == log.boundary {
        log.boundary_term
    } else {
        log.entries[index - log.boundary - 1].term
    }
}

/// The members that have acknowledged the log through `index`, the leader itself having all of it.
pub open spec fn acknowledged<C>(
    node: NodeView<C>,
    matched: Map<NodeId, LogIndex>,
    index: int,
) -> Set<NodeId> {
    node.config.dom().filter(
        |member: NodeId|
            if member == node.id {
                node.persistent.log.boundary + node.persistent.log.entries.len() >= index
            } else if matched.dom().contains(member) {
                matched[member].value >= index
            } else {
                index <= 0
            },
    )
}

/// The terms along a log do not fall, and none is beyond the node's own.
pub open spec fn terms_rise<C>(node: NodeView<C>) -> bool {
    let log = node.persistent.log;
    &&& forall|i: int, j: int|
        log.boundary <= i <= j <= log.boundary + log.entries.len() ==> #[trigger] term_at(node, i)
            <= #[trigger] term_at(node, j)
    &&& forall|i: int|
        log.boundary <= i <= log.boundary + log.entries.len() ==> #[trigger] term_at(node, i)
            <= node.persistent.term.value
}

/// Nobody has acknowledged more than the leader has.
pub open spec fn within_log<C>(node: NodeView<C>, matched: Map<NodeId, LogIndex>) -> bool {
    forall|member: NodeId|
        matched.dom().contains(member) && node.config.dom().contains(member) && member != node.id
            ==> (#[trigger] matched[member]).value <= node.persistent.log.boundary
            + node.persistent.log.entries.len()
}

/// Whether `after` has committed what `before`, which leads and has these acknowledgements, may commit:
/// only what more than half of the members have, through an entry of the leader's own term, and
/// everything of that kind. A leader whose own removal has committed steps down.
pub open spec fn commits<C>(
    before: NodeView<C>,
    leader: LeaderView,
    after: NodeView<C>,
) -> bool {
    let log = before.persistent.log;
    let last = log.boundary + log.entries.len();
    &&& after == (NodeView { commit: after.commit, role: after.role, ..before })
    &&& after.commit.value >= before.commit.value
    &&& after.commit != before.commit ==> {
        &&& log.boundary <= after.commit.value <= last
        &&& term_at(before, after.commit.value as int) == before.persistent.term.value
        &&& 2 * acknowledged(before, leader.matched, after.commit.value as int).len()
            > before.config.dom().len()
    }
    &&& terms_rise(before) && within_log(before, leader.matched) ==> forall|index: int|
        #![trigger acknowledged(before, leader.matched, index)]
        {
            &&& log.boundary <= index <= last
            &&& term_at(before, index) == before.persistent.term.value
            &&& 2 * acknowledged(before, leader.matched, index).len() > before.config.dom().len()
        } ==> after.commit.value >= index
    &&& after.role == if after.commit != before.commit && !before.config.dom().contains(before.id)
        && forall|k: int|
        0 <= k < log.entries.len() && log.boundary + 1 + k > after.commit.value ==> !((
        #[trigger] log.entries[k]).payload is ConfigChange) {
        RoleView::Follower(None)
    } else {
        RoleView::Leader(leader)
    }
}

/// The highest index that a majority has, and that no majority has a higher one.
pub proof fn lemma_majority<C>(node: NodeView<C>, leader: LeaderView)
    requires
        node.persistent.log.boundary + node.persistent.log.entries.len() <= u64::MAX,
        node.config.dom().finite(),
        node.config.dom().len() > 0,
    ensures
        forall|index: int|
            #![trigger acknowledged(node, leader.matched, index)]
            index >= 0 ==> acknowledged(node, leader.matched, index) == node.holders(
                leader,
                index as nat,
            ),
        forall|index: int|
            #![trigger acknowledged(node, leader.matched, index)]
            index >= 0 && 2 * acknowledged(node, leader.matched, index).len()
                > node.config.dom().len() ==> index <= node.majority_index(leader).value,
        2 * acknowledged(node, leader.matched, node.majority_index(leader).value as int).len()
            > node.config.dom().len(),
{
    handlers::lemma_majority_index(node, leader);
    let top = node.majority_index(leader).value;
    assert forall|index: int| index >= 0 implies #[trigger] acknowledged(
        node,
        leader.matched,
        index,
    ) == node.holders(leader, index as nat) by {
        assert(acknowledged(node, leader.matched, index) =~= node.holders(leader, index as nat));
    }
    assert forall|index: int|
        #![trigger acknowledged(node, leader.matched, index)]
        index >= 0 && 2 * acknowledged(node, leader.matched, index).len()
            > node.config.dom().len() implies index <= top by {
        assert(node.holders(leader, index as nat).subset_of(node.config.dom()));
        assert(node.majority_holds(leader, index as nat));
    }
    assert(node.majority_holds(leader, top as nat));
    assert(acknowledged(node, leader.matched, top as int) == node.holders(leader, top as nat));
}

/// A leader commits all it may, and nothing else.
pub proof fn lemma_commits<C>(node: NodeView<C>, leader: LeaderView)
    requires
        node.role == RoleView::Leader(leader),
        node.persistent.log.boundary + node.persistent.log.entries.len() < u64::MAX,
        node.config.dom().finite(),
        node.config.dom().len() > 0,
    ensures
        commits(node, leader, node.advance_commit()),
{
    let log = node.persistent.log;
    let last = log.boundary + log.entries.len();
    lemma_majority(node, leader);
    let top = node.majority_index(leader);
    let after = node.advance_commit();
    if node.may_commit(top) {
        let committed = NodeView { commit: top, ..node };
        server::law_change_is_pending_until_it_commits(committed);
    }
    if terms_rise(node) && within_log(node, leader.matched) {
        let held = acknowledged(node, leader.matched, top.value as int);
        assert(held.len() > 0);
        let some = held.choose();
        assert(held.contains(some));
        assert(top.value <= last) by {
            if some != node.id {
                if leader.matched.dom().contains(some) {
                    assert(leader.matched[some].value <= last);
                }
            }
        }
        assert forall|index: int|
            #![trigger acknowledged(node, leader.matched, index)]
            {
                &&& log.boundary <= index <= last
                &&& term_at(node, index) == node.persistent.term.value
                &&& 2 * acknowledged(node, leader.matched, index).len() > node.config.dom().len()
            } implies after.commit.value >= index by {
            assert(index <= top.value);
            assert(term_at(node, index) <= term_at(node, top.value as int));
            assert(term_at(node, top.value as int) <= node.persistent.term.value);
        }
    }
}

/// An acknowledgement of entries is counted, and what then may be committed is. A rejection only makes
/// the leader try one entry earlier. Answers from earlier terms are passed over, and one from a later
/// term ends the leadership.
pub proof fn law_acknowledgements_commit<C>(
    node: NodeView<C>,
    from: NodeId,
    resp: AppendEntriesResponse,
)
    requires
        node.persistent.log.boundary + node.persistent.log.entries.len() < u64::MAX,
        node.config.dom().finite(),
        node.config.dom().len() > 0,
    ensures
        ({
            let state = node.persistent;
            let (after, commands) = node.handle_append_entries_response(from, resp);
            let term = match resp {
                AppendEntriesResponse::Accepted { term, .. } => term,
                AppendEntriesResponse::Rejected { term } => term,
            };
            if term.value > state.term.value {
                &&& after.role == RoleView::Follower(None)
                &&& after.persistent.term == term
                &&& after.persistent.voted_for is None
                &&& after.persistent.log == state.log
                &&& after.commit == node.commit
                &&& commands == seq![CommandView::<C>::ResetElectionTimer]
            } else if term.value < state.term.value || !(node.role is Leader) {
                after == node && commands.len() == 0
            } else {
                let leader = node.role->Leader_0;
                match resp {
                    AppendEntriesResponse::Accepted { match_index, .. } => {
                        &&& exists|counted: LeaderView|
                            #![trigger commits(
                                NodeView { role: RoleView::Leader(counted), ..node },
                                counted,
                                after,
                            )]
                            commits(
                                NodeView { role: RoleView::Leader(counted), ..node },
                                counted,
                                after,
                            ) && counts(leader, from, match_index, counted)
                        &&& commands == if after.role is Leader {
                            Seq::<CommandView<C>>::empty()
                        } else {
                            seq![CommandView::<C>::ResetElectionTimer]
                        }
                    },
                    AppendEntriesResponse::Rejected { .. } => {
                        &&& commands.len() == 0
                        &&& after == (NodeView { role: after.role, ..node })
                        &&& after.role matches RoleView::Leader(backed) && {
                            &&& backed.matched == leader.matched
                            &&& backed.next.dom() == leader.next.dom()
                            &&& forall|peer: NodeId| #[trigger]
                                leader.next.dom().contains(peer) ==> backed.next[peer].value
                                    == if peer == from && leader.next[peer].value > 0 {
                                    leader.next[peer].value - 1
                                } else {
                                    leader.next[peer].value as int
                                }
                        }
                    },
                }
            }
        }),
{
    if let RoleView::Leader(leader) = node.role {
        if let AppendEntriesResponse::Accepted { term, match_index } = resp {
            if term == node.persistent.term {
                let counted = leader.record_success(from, match_index);
                lemma_counts(leader, from, match_index);
                let before = NodeView { role: RoleView::Leader(counted), ..node };
                lemma_commits(before, counted);
            }
        }
        if let AppendEntriesResponse::Rejected { .. } = resp {
            let backed = leader.record_failure(from);
            assert(backed.next.dom() =~= leader.next.dom());
        }
    }
}

/// Whether `after` is `before` with the acknowledgement of `from` through `index` counted: what is
/// known of that peer never falls, what is sent to it next follows what it has, and nothing is known
/// of anybody else that was not.
pub open spec fn counts(
    before: LeaderView,
    from: NodeId,
    index: LogIndex,
    after: LeaderView,
) -> bool {
    let known = if before.matched.dom().contains(from) {
        before.matched[from].value
    } else {
        0
    };
    &&& after.matched.dom().contains(from)
    &&& after.matched[from].value == if index.value > known {
        index.value
    } else {
        known
    }
    &&& index.value > known ==> after.next.dom().contains(from) && after.next[from].value == if index.value
        == u64::MAX {
        u64::MAX as int
    } else {
        index.value + 1
    }
    &&& index.value <= known ==> after.next == before.next
    &&& forall|peer: NodeId|
        peer != from ==> {
            &&& #[trigger] after.matched.dom().contains(peer) <==> before.matched.dom().contains(peer)
            &&& before.matched.dom().contains(peer) ==> after.matched[peer] == before.matched[peer]
            &&& after.next.dom().contains(peer) <==> before.next.dom().contains(peer)
            &&& before.next.dom().contains(peer) ==> after.next[peer] == before.next[peer]
        }
}

/// Counting an acknowledgement.
pub proof fn lemma_counts(leader: LeaderView, from: NodeId, index: LogIndex)
    ensures
        counts(leader, from, index, leader.record_success(from, index)),
{
}

/// A peer that has installed a snapshot has everything the snapshot covers. That is counted like any
/// acknowledgement. A refusal of an earlier term is passed over, and one of a later term ends the
/// leadership.
pub proof fn law_installed_snapshots_commit<C>(
    node: NodeView<C>,
    from: NodeId,
    resp: InstallSnapshotResponse,
)
    requires
        node.persistent.log.boundary + node.persistent.log.entries.len() < u64::MAX,
        node.config.dom().finite(),
        node.config.dom().len() > 0,
    ensures
        ({
            let state = node.persistent;
            let (after, commands) = node.handle_install_snapshot_response(from, resp);
            let term = match resp {
                InstallSnapshotResponse::Installed { term, .. } => term,
                InstallSnapshotResponse::Rejected { term } => term,
            };
            if term.value > state.term.value {
                &&& after.role == RoleView::Follower(None)
                &&& after.persistent.term == term
                &&& after.persistent.voted_for is None
                &&& after.persistent.log == state.log
                &&& after.commit == node.commit
                &&& commands == seq![CommandView::<C>::ResetElectionTimer]
            } else if term.value < state.term.value || !(node.role is Leader)
                || resp is Rejected {
                after == node && commands.len() == 0
            } else {
                &&& exists|counted: LeaderView|
                    #![trigger commits(
                        NodeView { role: RoleView::Leader(counted), ..node },
                        counted,
                        after,
                    )]
                    commits(NodeView { role: RoleView::Leader(counted), ..node }, counted, after)
                        && counts(node.role->Leader_0, from, resp->last_index, counted)
                &&& commands == if after.role is Leader {
                    Seq::<CommandView<C>>::empty()
                } else {
                    seq![CommandView::<C>::ResetElectionTimer]
                }
            }
        }),
{
    if let RoleView::Leader(leader) = node.role {
        if let InstallSnapshotResponse::Installed { term, last_index } = resp {
            if term == node.persistent.term {
                let counted = leader.record_success(from, last_index);
                lemma_counts(leader, from, last_index);
                let before = NodeView { role: RoleView::Leader(counted), ..node };
                lemma_commits(before, counted);
            }
        }
    }
}

/// A command that a leader takes becomes the last entry of its log, in its own term, and nothing else
/// of the log changes. Where that entry, or any before it, may thereby be committed, it is.
pub proof fn law_submitted_command_is_appended<C>(node: NodeView<C>, command: C)
    requires
        node.role is Leader,
        node.persistent.log.boundary + node.persistent.log.entries.len() + 1 < u64::MAX,
        node.config.dom().finite(),
        node.config.dom().len() > 0,
    ensures
        ({
            let log = node.persistent.log;
            let after = node.submit_command(command);
            let entry = EntryView {
                term: node.persistent.term.value as nat,
                payload: PayloadView::Command(command),
            };
            &&& after.persistent.log.entries == log.entries.push(entry)
            &&& after.persistent.log.boundary == log.boundary
            &&& after.persistent.log.boundary_term == log.boundary_term
            &&& after.persistent.pending_append == node.persistent.pending_append.push(entry)
            &&& after.persistent.term == node.persistent.term
            &&& after.persistent.voted_for == node.persistent.voted_for
            &&& after.persistent.latest_snapshot == node.persistent.latest_snapshot
            &&& commits(
                NodeView { persistent: after.persistent, ..node },
                node.role->Leader_0,
                after,
            )
        }),
{
    let appended = node.propose(PayloadView::Command(command));
    lemma_commits(appended, node.role->Leader_0);
}

/// A leader with nobody else in its cluster commits a command as soon as it is submitted.
pub proof fn law_lone_leader_commits_at_once<C>(node: NodeView<C>, command: C)
    requires
        node.role is Leader,
        node.persistent.log.boundary + node.persistent.log.entries.len() + 1 < u64::MAX,
        node.config.dom() == set![node.id],
        node.commit.value <= node.persistent.log.boundary + node.persistent.log.entries.len(),
    ensures
        node.submit_command(command).commit.value == node.persistent.log.boundary
            + node.persistent.log.entries.len() + 1,
        node.submit_command(command).role == node.role,
{
    let appended = node.propose(PayloadView::Command(command));
    let leader = node.role->Leader_0;
    let last = node.persistent.log.boundary + node.persistent.log.entries.len() + 1;
    lemma_majority(appended, leader);
    assert(acknowledged(appended, leader.matched, last as int) =~= set![node.id]);
    let top = appended.majority_index(leader);
    let held = acknowledged(appended, leader.matched, top.value as int);
    let some = held.choose();
    assert(held.contains(some));
}

/// A proposed membership becomes the last entry of the log and is in force from then on, for counting
/// majorities too: members that are new to the leader start from nothing, those that left are
/// forgotten, and the others keep their progress. It is announced to the driver.
pub proof fn law_proposed_membership_is_in_force_at_once<C>(node: NodeView<C>, config: Members)
    requires
        node.role is Leader,
        node.persistent.log.boundary + node.persistent.log.entries.len() + 1 < u64::MAX,
        config.dom().finite(),
        config.dom().len() > 0,
    ensures
        ({
            let log = node.persistent.log;
            let leader = node.role->Leader_0;
            let after = node.propose_config_change(config);
            let entry = EntryView {
                term: node.persistent.term.value as nat,
                payload: PayloadView::ConfigChange(config),
            };
            let last = log.boundary + log.entries.len() + 1;
            &&& after.persistent.log.entries == log.entries.push(entry)
            &&& after.persistent.log.boundary == log.boundary
            &&& after.persistent.log.boundary_term == log.boundary_term
            &&& after.persistent.pending_append == node.persistent.pending_append.push(entry)
            &&& after.persistent.term == node.persistent.term
            &&& after.persistent.voted_for == node.persistent.voted_for
            &&& after.config == config
            &&& after.config_changes == node.config_changes.push(config)
            &&& after.applied == node.applied
            &&& exists|known: LeaderView|
                #![trigger tracks(node, leader, config, last as u64, known)]
                tracks(node, leader, config, last as u64, known) && commits(
                    NodeView {
                        persistent: after.persistent,
                        config,
                        config_changes: after.config_changes,
                        role: RoleView::Leader(known),
                        ..node
                    },
                    known,
                    after,
                )
        }),
{
    let appended = node.propose(PayloadView::ConfigChange(config));
    let leader = node.role->Leader_0;
    let last = node.persistent.log.boundary + node.persistent.log.entries.len() + 1;
    let known = leader.retarget(
        appended.peers(),
        config.dom().remove(node.id),
        LogIndex { value: last as u64 },
    );
    let before = NodeView {
        config,
        config_changes: node.config_changes.push(config),
        role: RoleView::Leader(known),
        ..appended
    };
    lemma_commits(before, known);
    assert(tracks(node, leader, config, last as u64, known));
    assert(node.propose_config_change(config) == before.advance_commit());
}

/// Whether `known` is what a leader knows of its peers once `config` is in force, its log ending at
/// `last`.
pub open spec fn tracks<C>(
    node: NodeView<C>,
    leader: LeaderView,
    config: Members,
    last: u64,
    known: LeaderView,
) -> bool {
    forall|peer: NodeId|
        #![trigger known.next.dom().contains(peer)]
        #![trigger known.matched.dom().contains(peer)]
        {
            let is_peer = config.dom().contains(peer) && peer != node.id;
            let was_peer = node.config.dom().contains(peer) && peer != node.id;
            &&& is_peer && !was_peer ==> {
                &&& known.next.dom().contains(peer)
                &&& known.matched.dom().contains(peer)
                &&& !leader.next.dom().contains(peer) ==> known.next[peer].value == if last
                    == u64::MAX {
                    last as int
                } else {
                    last + 1
                }
                &&& !leader.matched.dom().contains(peer) ==> known.matched[peer].value == 0
            }
            &&& was_peer && !is_peer ==> {
                &&& !known.next.dom().contains(peer)
                &&& !known.matched.dom().contains(peer)
            }
            &&& is_peer == was_peer ==> {
                &&& known.next.dom().contains(peer) <==> leader.next.dom().contains(peer)
                &&& known.matched.dom().contains(peer) <==> leader.matched.dom().contains(peer)
            }
            &&& !(was_peer && !is_peer) && leader.next.dom().contains(peer)
                ==> known.next.dom().contains(peer) && known.next[peer] == leader.next[peer]
            &&& !(was_peer && !is_peer) && leader.matched.dom().contains(peer)
                ==> known.matched.dom().contains(peer) && known.matched[peer]
                == leader.matched[peer]
        }
}

} // verus!
