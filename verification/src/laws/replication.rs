//! Replication: what a leader sends, what a follower makes of it, and that this brings their logs
//! together.
use vstd::prelude::*;

use crate::command::CommandView;
use crate::laws::elections;
use crate::model::NodeView;
use crate::model::RoleView;
use crate::types::log;
use crate::types::log::EntryView;
use crate::types::log::LogView;
use crate::types::message::AppendEntriesResponse;
use crate::types::message::AppendEntriesView;
use crate::types::message::InstallSnapshotView;
use crate::types::message::MessageView;
use crate::types::node_map;
use crate::types::primitives::LogIndex;
use crate::types::primitives::NodeId;

verus! {

/// Whether a message is what a leader owes a peer that is to receive the entry at `next`: everything
/// its log holds from there on, behind the index and the term of the entry before, or the snapshot,
/// where that entry has been compacted away and there is one.
pub open spec fn brings_up_to_date<C>(
    node: NodeView<C>,
    next: LogIndex,
    message: MessageView<C>,
) -> bool {
    let state = node.persistent;
    let log = state.log;
    let last = log.boundary + log.entries.len();
    if next.value <= log.boundary && state.latest_snapshot is Some {
        message == MessageView::<C>::InstallSnapshot(
            InstallSnapshotView {
                term: state.term,
                leader_id: node.id,
                snapshot: state.latest_snapshot->0,
            },
        )
    } else {
        message matches MessageView::AppendEntries(m) && {
            let prev = m.prev_log_index.value;
            &&& m.term == state.term
            &&& m.leader_id == node.id
            &&& m.leader_commit == node.commit
            &&& prev == if next.value == 0 {
                0
            } else {
                next.value - 1
            }
            &&& prev == log.boundary ==> m.prev_log_term.value == log.boundary_term
            &&& log.boundary < prev <= last ==> m.prev_log_term.value == log.entries[prev
                - log.boundary - 1].term
            &&& prev < log.boundary || prev > last ==> m.prev_log_term.value == 0
            &&& log.boundary < next.value <= last ==> m.entries == log.entries.subrange(
                next.value - log.boundary - 1,
                log.entries.len() as int,
            )
            &&& next.value > last && next.value > log.boundary ==> m.entries.len() == 0
            &&& next.value <= log.boundary ==> m.entries == log.entries
        }
    }
}

/// When its heartbeat is due, a leader sends every peer it keeps track of what that peer lacks, one
/// message each, and nothing to anybody else. Nobody but a leader sends anything.
pub proof fn law_heartbeat_reaches_every_peer<C>(node: NodeView<C>)
    requires
        elections::fits(node),
        node.role matches RoleView::Leader(leader) ==> leader.next.dom().finite(),
    ensures
        ({
            let (after, commands) = node.heartbeat_timeout();
            &&& after == node
            &&& match node.role {
                RoleView::Leader(leader) => {
                    &&& commands.contains(CommandView::ResetHeartbeatTimer)
                    &&& commands.len() == leader.next.dom().len() + 1
                    &&& forall|peer: NodeId| #[trigger]
                        leader.next.dom().contains(peer) ==> exists|message: MessageView<C>|
                            #![trigger commands.contains(CommandView::Send { to: peer, message })]
                            commands.contains(CommandView::Send { to: peer, message })
                    &&& forall|to: NodeId, message: MessageView<C>| #[trigger]
                        commands.contains(CommandView::Send { to, message })
                            ==> leader.next.dom().contains(to) && brings_up_to_date(
                            node,
                            leader.next[to],
                            message,
                        )
                },
                _ => commands.len() == 0,
            }
        }),
{
    if let RoleView::Leader(leader) = node.role {
        let peers = leader.next.dom();
        let others = node_map::in_order(peers);
        node_map::lemma_in_order(peers);
        let commands = node.heartbeats();
        assert(commands[others.len() as int] == CommandView::<C>::ResetHeartbeatTimer);
        assert forall|peer: NodeId| #[trigger] peers.contains(peer) implies exists|
            message: MessageView<C>,
        |
            #![trigger commands.contains(CommandView::Send { to: peer, message })]
            commands.contains(CommandView::Send { to: peer, message }) by {
            assert(others.to_set().contains(peer));
            let i = choose|i: int| 0 <= i < others.len() && others[i] == peer;
            let message = node.replication_message(leader.next[peer]);
            assert(commands[i] == CommandView::<C>::Send { to: peer, message });
            assert(commands.contains(CommandView::Send { to: peer, message }));
        }
        assert forall|to: NodeId, message: MessageView<C>| #[trigger]
            commands.contains(CommandView::Send { to, message }) implies peers.contains(to)
            && brings_up_to_date(node, leader.next[to], message) by {
            let i = choose|i: int|
                0 <= i < commands.len() && commands[i] == CommandView::<C>::Send { to, message };
            assert(others.to_set().contains(others[i]));
            lemma_replication_message(node, leader.next[to]);
        }
    }
}

proof fn lemma_replication_message<C>(node: NodeView<C>, next: LogIndex)
    requires
        elections::fits(node),
    ensures
        brings_up_to_date(node, next, node.replication_message(next)),
{
    let log = node.persistent.log;
    let last = log.boundary + log.entries.len();
    if log.boundary < next.value <= last {
        assert(log.suffix_from(next.value as int) =~= log.entries.subrange(
            next.value - log.boundary - 1,
            log.entries.len() as int,
        ));
    }
}

/// Whether a log has an entry of `prev_term` at `prev`, or has compacted that index away.
pub open spec fn agrees_at<C>(log: LogView<C>, prev: int, prev_term: nat) -> bool {
    ||| prev < log.boundary
    ||| prev == log.boundary && prev_term == log.boundary_term
    ||| log.boundary < prev <= log.boundary + log.entries.len() && log.entries[prev - log.boundary
        - 1].term == prev_term
}

/// Whether a log accounts for an incoming entry that belongs at `index`.
pub open spec fn accounts_for<C>(log: LogView<C>, index: int, entry: EntryView<C>) -> bool {
    ||| index <= log.boundary
    ||| index <= log.boundary + log.entries.len() && log.entries[index - log.boundary - 1].term
        == entry.term
}

/// Whether `after` is `before` with `incoming` taken over behind `prev`: through the first incoming
/// entry that `before` does not account for nothing changes, from there on the log is what came in,
/// and where all is accounted for the whole log stays, entries behind the incoming ones too.
#[verifier::opaque]
pub open spec fn takes_over<C>(
    before: LogView<C>,
    prev: int,
    incoming: Seq<EntryView<C>>,
    after: LogView<C>,
) -> bool {
    &&& after.boundary == before.boundary
    &&& after.boundary_term == before.boundary_term
    &&& (forall|k: int|
        0 <= k < incoming.len() ==> accounts_for(before, prev + 1 + k, #[trigger] incoming[k]))
        ==> after == before
    &&& forall|n: int|
        #![trigger incoming[n]]
        {
            &&& 0 <= n < incoming.len()
            &&& !accounts_for(before, prev + 1 + n, incoming[n])
            &&& forall|k: int|
                0 <= k < n ==> accounts_for(before, prev + 1 + k, #[trigger] incoming[k])
        } ==> {
            &&& after.entries.len() == prev + incoming.len() - before.boundary
            &&& forall|i: int|
                before.boundary < i <= prev + n ==> #[trigger] after.entries[i - before.boundary - 1]
                    == before.entries[i - before.boundary - 1]
            &&& forall|k: int|
                n <= k < incoming.len() ==> after.entries[prev + 1 + k - before.boundary - 1]
                    == #[trigger] incoming[k]
        }
}

/// Entries that a leader sends are accepted exactly where the leader's term is not below this node's
/// and the log agrees at the entry before them. Then the log takes them over, conflicting entries and
/// all behind them giving way and agreeing ones staying. The commit index follows the leader's as far
/// as the log goes. Whatever is answered, the node follows that leader from then on,
/// unless its term is stale.
pub proof fn law_entries_are_accepted_where_the_logs_agree<C>(
    node: NodeView<C>,
    from: NodeId,
    req: AppendEntriesView<C>,
)
    requires
        elections::fits(node),
        node.has_room_for(MessageView::AppendEntries(req)),
        !(node.role is Leader && req.term == node.persistent.term),
    ensures
        ({
            let state = node.persistent;
            let log = state.log;
            let (after, commands) = node.handle_append_entries(from, req);
            let stale = req.term.value < state.term.value;
            let agrees = agrees_at(
                log,
                req.prev_log_index.value as int,
                req.prev_log_term.value as nat,
            );
            let last = after.persistent.log.boundary + after.persistent.log.entries.len();
            &&& stale ==> after == node
            &&& commands.len() == if stale {
                1nat
            } else {
                2
            }
            &&& !stale ==> {
                &&& commands[0] == CommandView::<C>::ResetElectionTimer
                &&& after.role == RoleView::Follower(Some(req.leader_id))
                &&& after.persistent.term == req.term
                &&& after.persistent.voted_for == if req.term.value > state.term.value {
                    None
                } else {
                    state.voted_for
                }
                &&& after.applied == node.applied
                &&& after.persistent.latest_snapshot == state.latest_snapshot
            }
            &&& commands[commands.len() - 1] == (CommandView::<C>::Send {
                to: from,
                message: MessageView::AppendEntriesResponse(
                    if !stale && agrees {
                        AppendEntriesResponse::Accepted {
                            term: req.term,
                            match_index: LogIndex { value: last as u64 },
                        }
                    } else {
                        AppendEntriesResponse::Rejected { term: after.persistent.term }
                    },
                ),
            })
            &&& stale || !agrees ==> {
                &&& after.persistent.log == log
                &&& after.commit == node.commit
                &&& after.config == node.config
            }
            &&& !stale && agrees ==> {
                &&& takes_over(
                    log,
                    req.prev_log_index.value as int,
                    req.entries,
                    after.persistent.log,
                )
                &&& node.commit.value <= last ==> after.commit.value >= node.commit.value
                &&& after.commit.value == if req.leader_commit.value <= node.commit.value {
                    node.commit.value as int
                } else if req.leader_commit.value <= last {
                    req.leader_commit.value as int
                } else {
                    last as int
                }
            }
        }),
{
    let log = node.persistent.log;
    let prev = req.prev_log_index.value as nat;
    if req.term.value >= node.persistent.term.value && agrees_at(
        log,
        prev as int,
        req.prev_log_term.value as nat,
    ) {
        lemma_takes_over(log, prev, req.entries);
        let follower = node.follow(req.term, req.leader_id);
        let merged = NodeView {
            persistent: follower.persistent.merge_entries(prev, req.entries),
            ..follower
        };
        assert(merged.adopt_latest_config().persistent == merged.persistent);
        assert(merged.adopt_latest_config().commit == merged.commit);
    }
}

proof fn lemma_takes_over<C>(log: LogView<C>, prev: nat, incoming: Seq<EntryView<C>>)
    requires
        prev <= log.boundary + log.entries.len(),
    ensures
        takes_over(log, prev as int, incoming, log.merge(prev, incoming)),
        log.merge(prev, incoming).boundary + log.merge(prev, incoming).entries.len() <= if log.boundary
            + log.entries.len() >= prev + incoming.len() {
            log.boundary + log.entries.len()
        } else {
            prev + incoming.len()
        },
{
    reveal(takes_over);
    log::lemma_held(log, prev, incoming);
    let m = log.held(prev, incoming);
    let after = log.merge(prev, incoming);
    if m > 0 {
        assert(log.holds(prev, incoming, m - 1));
    }
    if m < incoming.len() {
        let kept = log.truncate_from((prev + 1 + m) as int);
        assert(after == kept.extend(incoming.skip(m as int)));
        assert(kept.entries.len() == prev + m - log.boundary);
        assert(after.entries.len() == prev + incoming.len() - log.boundary);
        assert forall|i: int| log.boundary < i <= prev + m implies #[trigger] after.entries[i
            - log.boundary - 1] == log.entries[i - log.boundary - 1] by {
            assert(kept.entries[i - log.boundary - 1] == log.entries[i - log.boundary - 1]);
        }
        assert forall|k: int| m <= k < incoming.len() implies after.entries[prev + 1 + k
            - log.boundary - 1] == #[trigger] incoming[k] by {
            assert(incoming.skip(m as int)[k - m] == incoming[k]);
        }
        assert(!accounts_for(log, (prev + 1 + m) as int, incoming[m as int]));
    }
    assert forall|n: int|
        #![trigger incoming[n]]
        {
            &&& 0 <= n < incoming.len()
            &&& !accounts_for(log, prev + 1 + n, incoming[n])
            &&& forall|k: int|
                0 <= k < n ==> accounts_for(log, prev + 1 + k, #[trigger] incoming[k])
        } implies n == m by {
        assert forall|k: int| 0 <= k < n implies #[trigger] log.holds(prev, incoming, k) by {
            assert(accounts_for(log, prev + 1 + k, incoming[k]));
        }
        log::lemma_held_unique(log, prev, incoming, n as nat);
    }
}

/// What a leader sends brings a follower up to date: where the follower's log agrees with the leader's
/// at the entry before what is sent, it accepts, and then has at every index from there to the end of
/// the leader's log an entry of the same term. It acknowledges no less than the leader's whole log.
pub proof fn law_replication_brings_logs_together<C>(
    leader: NodeView<C>,
    next: LogIndex,
    follower: NodeView<C>,
)
    requires
        elections::fits(leader),
        elections::fits(follower),
        leader.persistent.log.boundary + leader.persistent.log.entries.len() < u64::MAX,
        leader.persistent.log.boundary < next.value <= leader.persistent.log.boundary
            + leader.persistent.log.entries.len() + 1,
        !(follower.role is Leader),
        follower.persistent.term.value <= leader.persistent.term.value,
        agrees_at(
            follower.persistent.log,
            next.value - 1,
            if next.value - 1 == leader.persistent.log.boundary {
                leader.persistent.log.boundary_term
            } else {
                leader.persistent.log.entries[next.value - 1 - leader.persistent.log.boundary
                    - 1].term
            },
        ),
    ensures
        ({
            let sent = leader.persistent.log;
            let last = sent.boundary + sent.entries.len();
            let (after, commands) = follower.handle_message(
                leader.id,
                leader.replication_message(next),
            );
            let log = after.persistent.log;
            &&& commands.len() == 2
            &&& commands[1] == (CommandView::<C>::Send {
                to: leader.id,
                message: MessageView::AppendEntriesResponse(
                    AppendEntriesResponse::Accepted {
                        term: leader.persistent.term,
                        match_index: LogIndex { value: (log.boundary + log.entries.len()) as u64 },
                    },
                ),
            })
            &&& log.boundary + log.entries.len() >= last
            &&& forall|i: int|
                next.value <= i <= last && i > log.boundary ==> {
                    &&& i <= log.boundary + log.entries.len()
                    &&& (#[trigger] log.entries[i - log.boundary - 1]).term == sent.entries[i
                        - sent.boundary - 1].term
                }
        }),
{
    let sent = leader.persistent.log;
    let last = sent.boundary + sent.entries.len();
    lemma_replication_message(leader, next);
    let message = leader.replication_message(next);
    let req = message->AppendEntries_0;
    let prev = req.prev_log_index.value as nat;
    let before = follower.persistent.log;
    assert(req.entries.len() == last - prev) by {
        if next.value > last {
            assert(req.entries.len() == 0);
        }
    }
    law_entries_are_accepted_where_the_logs_agree(follower, leader.id, req);
    let after = follower.handle_append_entries(leader.id, req).0;
    assert(after.persistent.log == before.merge(prev, req.entries));
    if prev <= before.boundary + before.entries.len() {
        log::law_merge_adopts_the_incoming_terms(before, prev, req.entries);
        assert forall|i: int|
            next.value <= i <= last && i > after.persistent.log.boundary implies {
            &&& i <= after.persistent.log.boundary + after.persistent.log.entries.len()
            &&& (#[trigger] after.persistent.log.entries[i - after.persistent.log.boundary
                - 1]).term == sent.entries[i - sent.boundary - 1].term
        } by {
            assert(before.merge(prev, req.entries).at(i).term == req.entries[i - prev - 1].term);
        }
        if last > prev && last > before.boundary {
            assert(before.merge(prev, req.entries).at(last as int).term == req.entries[last - prev
                - 1].term);
        }
    }
}

/// A leader that a peer keeps turning down probes one entry earlier each time, and so comes to an entry
/// at which the logs agree: after as many rejections as `next` is above 0, it sends from the start.
pub proof fn law_rejections_walk_back<C>(node: NodeView<C>, from: NodeId, count: nat)
    requires
        node.role matches RoleView::Leader(leader) && leader.next.dom().contains(from)
            && count <= leader.next[from].value,
    ensures
        ({
            let after = rejected(node, from, count);
            &&& after.role matches RoleView::Leader(leader) && leader.next.dom().contains(from)
                && leader.next[from].value == node.role->Leader_0.next[from].value - count
            &&& after == (NodeView { role: after.role, ..node })
        }),
    decreases count,
{
    if count > 0 {
        law_rejections_walk_back(node, from, (count - 1) as nat);
    }
}

/// A node that `from` has turned down so many times in its own term.
pub open spec fn rejected<C>(node: NodeView<C>, from: NodeId, count: nat) -> NodeView<C>
    decreases count,
{
    if count == 0 {
        node
    } else {
        let before = rejected(node, from, (count - 1) as nat);
        before.handle_append_entries_response(
            from,
            AppendEntriesResponse::Rejected { term: node.persistent.term },
        ).0
    }
}

/// Every message is handled as what it is.
pub proof fn law_messages_are_told_apart<C>(node: NodeView<C>, from: NodeId, message: MessageView<C>)
    ensures
        message matches MessageView::RequestVote(m) ==> node.handle_message(from, message)
            == node.handle_request_vote(from, m),
        message matches MessageView::RequestVoteResponse(m) ==> node.handle_message(from, message)
            == node.handle_request_vote_response(from, m),
        message matches MessageView::AppendEntries(m) ==> node.handle_message(from, message)
            == node.handle_append_entries(from, m),
        message matches MessageView::AppendEntriesResponse(m) ==> node.handle_message(from, message)
            == node.handle_append_entries_response(from, m),
        message matches MessageView::InstallSnapshot(m) ==> node.handle_message(from, message)
            == node.handle_install_snapshot(from, m),
        message matches MessageView::InstallSnapshotResponse(m) ==> node.handle_message(
            from,
            message,
        ) == node.handle_install_snapshot_response(from, m),
{
}

/// A conflict is found exactly where an incoming entry is the first that the log does not account for
/// and the log has another entry there. It is at that index, and what the log has from there on goes.
pub proof fn law_conflict_is_the_first_disagreement<C>(
    log: LogView<C>,
    prev: nat,
    incoming: Seq<EntryView<C>>,
    n: nat,
)
    requires
        prev <= log.boundary + log.entries.len(),
        forall|k: int|
            0 <= k < n ==> accounts_for(log, prev + 1 + k, #[trigger] incoming[k]),
        n <= incoming.len(),
        n < incoming.len() ==> !accounts_for(log, (prev + 1 + n) as int, incoming[n as int]),
    ensures
        log.conflict(prev, incoming) == if n < incoming.len() && prev + 1 + n <= log.boundary
            + log.entries.len() {
            Some((prev + 1 + n) as nat)
        } else {
            None
        },
{
    assert forall|k: int| 0 <= k < n implies #[trigger] log.holds(prev, incoming, k) by {
        assert(accounts_for(log, prev + 1 + k, incoming[k]));
    }
    log::lemma_held_unique(log, prev, incoming, n);
}

} // verus!
