//! Snapshots: what compaction keeps, and what a leader's snapshot replaces.
use vstd::prelude::*;

use crate::command::CommandView;
use crate::laws::elections;
use crate::laws::membership;
use crate::model::NodeView;
use crate::model::RoleView;
use crate::types::log::SuffixDisposition;
use crate::types::message::InstallSnapshotResponse;
use crate::types::message::InstallSnapshotView;
use crate::types::message::MessageView;
use crate::types::primitives::LogIndex;
use crate::types::primitives::NodeId;

verus! {

/// Compaction drops exactly the entries that have been applied, whatever else the log holds. The
/// snapshot names the last of them, its term, and the membership that governed there, and holds the
/// data given. Nothing else changes, and the install is on record for storage.
pub proof fn law_compaction_drops_what_is_applied<C>(node: NodeView<C>, data: Seq<u8>)
    requires
        elections::fits(node),
        node.persistent.log.boundary + node.persistent.log.entries.len() < u64::MAX,
        node.persistent.log.boundary < node.applied.value <= node.persistent.log.boundary
            + node.persistent.log.entries.len(),
        membership::governs(
            node.persistent,
            node.initial_config,
            node.persistent.log.entries,
            node.config,
        ),
    ensures
        ({
            let log = node.persistent.log;
            let dropped = node.applied.value - log.boundary;
            let after = node.compact_to_snapshot(data);
            let state = after.persistent;
            &&& after == (NodeView { persistent: state, ..node })
            &&& state.log.boundary == node.applied.value
            &&& state.log.boundary_term == log.entries[dropped - 1].term
            &&& state.log.entries.len() == log.entries.len() - dropped
            &&& forall|k: int|
                0 <= k < state.log.entries.len() ==> #[trigger] state.log.entries[k]
                    == log.entries[dropped + k]
            &&& state.latest_snapshot matches Some(snapshot) && {
                &&& snapshot.last_index == node.applied.value
                &&& snapshot.last_term == log.entries[dropped - 1].term
                &&& snapshot.data == data
                &&& membership::governs(
                    node.persistent,
                    node.initial_config,
                    log.entries.take(dropped),
                    snapshot.config,
                )
                &&& state.pending_install == Some((snapshot, SuffixDisposition::Retain))
            }
            &&& state.term == node.persistent.term
            &&& state.voted_for == node.persistent.voted_for
            &&& state.meta_dirty == node.persistent.meta_dirty
            &&& state.truncated_from == node.persistent.truncated_from
            &&& state.pending_append == node.persistent.pending_append
        }),
{
    membership::law_membership_as_of_an_index(node, node.applied);
}

/// A leader's snapshot is installed exactly where its term is not stale and it goes beyond what this
/// node has committed. Entries above it stay where this log has an entry of the snapshot's term at its
/// end, or ends there itself, and otherwise go, all of them. What the snapshot covers then counts as
/// committed and applied, and the state machine is to be replaced by it. The leader is told how far the
/// snapshot goes. A stale term is refused.
pub proof fn law_leaders_snapshot_replaces_what_it_covers<C>(
    node: NodeView<C>,
    from: NodeId,
    req: InstallSnapshotView,
)
    requires
        elections::fits(node),
        req.snapshot.last_index <= u64::MAX,
        req.snapshot.last_term <= u64::MAX,
        node.persistent.log.boundary <= node.commit.value,
        !(node.role is Leader && req.term == node.persistent.term),
    ensures
        ({
            let log = node.persistent.log;
            let last = log.boundary + log.entries.len();
            let n = req.snapshot.last_index;
            let (after, commands) = node.handle_install_snapshot(from, req);
            let state = after.persistent;
            if req.term.value < node.persistent.term.value {
                &&& after == node
                &&& commands == seq![
                    CommandView::<C>::Send {
                        to: from,
                        message: MessageView::InstallSnapshotResponse(
                            InstallSnapshotResponse::Rejected { term: node.persistent.term },
                        ),
                    },
                ]
            } else {
                &&& commands == seq![
                    CommandView::<C>::ResetElectionTimer,
                    CommandView::<C>::Send {
                        to: from,
                        message: MessageView::InstallSnapshotResponse(
                            InstallSnapshotResponse::Installed {
                                term: req.term,
                                last_index: LogIndex { value: n as u64 },
                            },
                        ),
                    },
                ]
                &&& after.role == RoleView::Follower(Some(req.leader_id))
                &&& state.term == req.term
                &&& state.voted_for == if req.term.value > node.persistent.term.value {
                    None
                } else {
                    node.persistent.voted_for
                }
                &&& n <= node.commit.value ==> {
                    &&& state.log == log
                    &&& state.latest_snapshot == node.persistent.latest_snapshot
                    &&& after.commit == node.commit
                    &&& after.applied == node.applied
                    &&& after.config == node.config
                    &&& after.to_restore == node.to_restore
                }
                &&& n > node.commit.value ==> {
                    let retains = n <= last && log.entries[n - log.boundary - 1].term
                        == req.snapshot.last_term;
                    &&& after.commit.value == n
                    &&& after.applied.value == n
                    &&& after.to_restore == Some(req.snapshot)
                    &&& state.latest_snapshot == Some(req.snapshot)
                    &&& state.log.boundary == n
                    &&& state.log.boundary_term == req.snapshot.last_term
                    &&& state.log.entries.len() == if retains {
                        last - n
                    } else {
                        0
                    }
                    &&& forall|k: int|
                        0 <= k < state.log.entries.len() ==> #[trigger] state.log.entries[k]
                            == log.entries[n - log.boundary + k]
                    &&& state.pending_install == Some(
                        (
                            req.snapshot,
                            if retains {
                                SuffixDisposition::Retain
                            } else {
                                SuffixDisposition::Discard
                            },
                        ),
                    )
                    &&& membership::governs(
                        state,
                        node.initial_config,
                        state.log.entries,
                        after.config,
                    )
                }
            }
        }),
{
    let follower = node.follow(req.term, req.leader_id);
    if req.term.value >= node.persistent.term.value && req.snapshot.last_index > node.commit.value {
        let index = LogIndex { value: req.snapshot.last_index as u64 };
        let installed = NodeView {
            persistent: follower.persistent.install_snapshot(
                req.snapshot,
                follower.disposition_for(req.snapshot),
            ),
            commit: index,
            applied: index,
            ..follower
        };
        membership::lemma_governs(installed, installed.persistent.log.entries);
        assert(follower.install_snapshot(req.snapshot).persistent == installed.persistent);
    }
}

} // verus!
