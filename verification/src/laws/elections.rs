//! Elections: who gets a vote, who asks for one, and who wins.
use vstd::prelude::*;

use crate::command::CommandView;
use crate::laws::commitment;
use crate::model::NodeView;
use crate::model::RoleView;
use crate::state::LeaderView;
use crate::types::log::EntryView;
use crate::types::log::PayloadView;
use crate::types::message::AppendEntriesView;
use crate::types::message::MessageView;
use crate::types::message::RequestVote;
use crate::types::message::RequestVoteResponse;
use crate::types::message::Vote;
use crate::types::node_map;
use crate::types::primitives::LogIndex;
use crate::types::primitives::NodeId;
use crate::types::primitives::Term;

verus! {

/// Whether the indexes and terms of a log are those of a node: they fit in 64 bits.
pub open spec fn fits<C>(node: NodeView<C>) -> bool {
    let log = node.persistent.log;
    &&& log.boundary + log.entries.len() <= u64::MAX
    &&& log.boundary_term <= u64::MAX
    &&& forall|k: int| 0 <= k < log.entries.len() ==> (#[trigger] log.entries[k]).term <= u64::MAX
}

/// A vote is granted exactly where the candidate's term is not below the voter's, the voter has no
/// vote in that term yet or gave it to this candidate, and the candidate's log is at least as up to
/// date: its last entry has the later term, whatever the lengths of the logs are, or the same term and
/// an index that is not lower. The answer goes to whoever asked, and to nobody else.
pub proof fn law_vote_is_granted_to_every_candidate_that_is_up_to_date<C>(
    node: NodeView<C>,
    from: NodeId,
    req: RequestVote,
)
    requires
        fits(node),
    ensures
        ({
            let state = node.persistent;
            let log = state.log;
            let last_index = log.boundary + log.entries.len();
            let last_term = if log.entries.len() == 0 {
                log.boundary_term
            } else {
                log.entries[log.entries.len() - 1].term
            };
            let newer = req.term.value > state.term.value;
            let granted = {
                &&& req.term.value >= state.term.value
                &&& newer || state.voted_for is None || state.voted_for == Some(req.candidate_id)
                &&& req.last_log_term.value > last_term || (req.last_log_term.value == last_term
                    && req.last_log_index.value >= last_index)
            };
            let (after, commands) = node.handle_request_vote(from, req);
            &&& commands.len() == if newer || granted {
                2nat
            } else {
                1
            }
            &&& commands.len() == 2 ==> commands[0] == CommandView::<C>::ResetElectionTimer
            &&& commands[commands.len() - 1] == (CommandView::<C>::Send {
                to: from,
                message: MessageView::RequestVoteResponse(
                    RequestVoteResponse {
                        term: after.persistent.term,
                        vote: if granted {
                            Vote::Granted
                        } else {
                            Vote::Denied
                        },
                    },
                ),
            })
            &&& after.persistent.term == if newer {
                req.term
            } else {
                state.term
            }
            &&& after.persistent.voted_for == if granted {
                Some(req.candidate_id)
            } else if newer {
                None
            } else {
                state.voted_for
            }
            &&& after.persistent.log == log
            &&& after.persistent.latest_snapshot == state.latest_snapshot
            &&& after.role == if newer {
                RoleView::Follower(None)
            } else {
                node.role
            }
            &&& after == (NodeView { persistent: after.persistent, role: after.role, ..node })
        }),
{
}

/// No second candidate of a term gets the vote that a first one got, and the first one gets it again
/// if it asks again.
pub proof fn law_vote_is_kept_for_the_term<C>(
    node: NodeView<C>,
    from: NodeId,
    req: RequestVote,
    other_from: NodeId,
    other: RequestVote,
)
    requires
        fits(node),
        node.handle_request_vote(from, req).0.persistent.voted_for == Some(req.candidate_id),
        other.term == node.handle_request_vote(from, req).0.persistent.term,
    ensures
        ({
            let voter = node.handle_request_vote(from, req).0;
            let (after, commands) = voter.handle_request_vote(other_from, other);
            &&& after.persistent.voted_for == Some(req.candidate_id)
            &&& other.candidate_id != req.candidate_id ==> commands[commands.len() - 1] == (
            CommandView::<C>::Send {
                to: other_from,
                message: MessageView::RequestVoteResponse(
                    RequestVoteResponse { term: other.term, vote: Vote::Denied },
                ),
            })
        }),
{
}

/// A node that is not the leader stands for the next term when its timeout fires: it votes for itself
/// and asks every other member, and nobody else, for a vote, naming the end of its log. The only
/// member of a cluster leads at once. A leader does nothing.
pub proof fn law_timeout_starts_an_election<C>(node: NodeView<C>)
    requires
        fits(node),
        node.persistent.log.boundary + node.persistent.log.entries.len() < u64::MAX,
        node.config.dom().finite(),
        node.config.dom().len() > 0,
    ensures
        ({
            let state = node.persistent;
            let log = state.log;
            let (after, commands) = node.election_timeout();
            let term = Term {
                value: if state.term.value == u64::MAX {
                    u64::MAX
                } else {
                    (state.term.value + 1) as u64
                },
            };
            let request = RequestVote {
                term,
                candidate_id: node.id,
                last_log_index: LogIndex { value: (log.boundary + log.entries.len()) as u64 },
                last_log_term: Term {
                    value: if log.entries.len() == 0 {
                        log.boundary_term as u64
                    } else {
                        log.entries[log.entries.len() - 1].term as u64
                    },
                },
            };
            let is_alone = forall|member: NodeId| #[trigger]
                node.config.dom().contains(member) ==> member == node.id;
            if node.role is Leader {
                after == node && commands.len() == 0
            } else {
                &&& after.persistent.term == term
                &&& after.persistent.voted_for == Some(node.id)
                &&& after.config == node.config
                &&& is_alone ==> {
                    &&& after.role is Leader
                    &&& after.persistent.log.entries == log.entries.push(
                        EntryView { term: term.value as nat, payload: PayloadView::NoOp },
                    )
                }
                &&& !is_alone ==> {
                    &&& after.role == RoleView::Candidate(set![node.id])
                    &&& after.persistent.log == log
                    &&& after.commit == node.commit
                    &&& commands.contains(CommandView::ResetElectionTimer)
                    &&& forall|to: NodeId, message: MessageView<C>| #[trigger]
                        commands.contains(CommandView::Send { to, message }) <==> {
                            &&& node.config.dom().contains(to)
                            &&& to != node.id
                            &&& message == MessageView::<C>::RequestVote(request)
                        }
                }
            }
        }),
{
    if !(node.role is Leader) {
        let candidate = node.stand();
        let peers = candidate.peers();
        let others = node_map::in_order(peers);
        node_map::lemma_in_order(peers);
        let commands = node.election_timeout().1;
        let is_alone = forall|member: NodeId| #[trigger]
            node.config.dom().contains(member) ==> member == node.id;
        if is_alone {
            assert(peers =~= Set::empty());
            let member = node.config.dom().choose();
            assert(node.config.dom().contains(member));
            lemma_lead(candidate);
        } else {
            let member = choose|member: NodeId| #[trigger]
                node.config.dom().contains(member) && member != node.id;
            assert(peers.contains(member));
            assert(peers.len() > 0) by {
                if peers.len() == 0 {
                    assert(peers =~= Set::empty());
                }
            }
            assert(commands[others.len() as int] == CommandView::<C>::ResetElectionTimer);
            let request = MessageView::<C>::RequestVote(candidate.vote_request());
            assert forall|to: NodeId, message: MessageView<C>| #[trigger]
                commands.contains(CommandView::Send { to, message }) <==> peers.contains(to)
                    && message == request by {
                if commands.contains(CommandView::Send { to, message }) {
                    let i = choose|i: int|
                        0 <= i < commands.len() && commands[i] == CommandView::<C>::Send {
                            to,
                            message,
                        };
                    assert(commands[i] == CommandView::<C>::Send {
                        to: others[i],
                        message: request,
                    });
                    assert(others.to_set().contains(others[i]));
                }
                if peers.contains(to) && message == request {
                    assert(others.to_set().contains(to));
                    let i = choose|i: int| 0 <= i < others.len() && others[i] == to;
                    assert(commands[i] == CommandView::<C>::Send { to, message });
                }
            }
        }
    }
}

/// A candidate that counts the votes of more than half of the cluster, itself included, leads. A
/// granted vote of a member counts, once; a denied one, and one of anybody else, does not. An answer
/// from an earlier term, or one that comes after the election, changes nothing, and one from a later
/// term ends the candidacy.
pub proof fn law_majority_of_votes_wins<C>(node: NodeView<C>, from: NodeId, resp: RequestVoteResponse)
    requires
        fits(node),
        node.persistent.log.boundary + node.persistent.log.entries.len() < u64::MAX,
        node.config.dom().finite(),
        node.config.dom().len() > 0,
    ensures
        ({
            let state = node.persistent;
            let (after, commands) = node.handle_request_vote_response(from, resp);
            if resp.term.value < state.term.value {
                after == node && commands.len() == 0
            } else if resp.term.value > state.term.value {
                &&& after.role == RoleView::Follower(None)
                &&& after.persistent.term == resp.term
                &&& after.persistent.voted_for is None
                &&& after.persistent.log == state.log
                &&& commands == seq![CommandView::<C>::ResetElectionTimer]
            } else {
                match node.role {
                    RoleView::Candidate(votes) => {
                        let counted = if resp.vote == Vote::Granted && node.config.dom().contains(
                            from,
                        ) {
                            votes.insert(from)
                        } else {
                            votes
                        };
                        if 2 * counted.len() > node.config.dom().insert(node.id).len() {
                            &&& after.role is Leader
                            &&& after.persistent.log.entries == state.log.entries.push(
                                EntryView {
                                    term: state.term.value as nat,
                                    payload: PayloadView::NoOp,
                                },
                            )
                            &&& after.persistent.term == state.term
                            &&& after.persistent.voted_for == state.voted_for
                        } else {
                            &&& after == (NodeView { role: RoleView::Candidate(counted), ..node })
                            &&& commands.len() == 0
                        }
                    },
                    _ => after == node && commands.len() == 0,
                }
            }
        }),
{
    let all = node.config.dom();
    assert(all.insert(node.id).len() == all.remove(node.id).len() + 1) by {
        assert(all.insert(node.id) =~= all.remove(node.id).insert(node.id));
    }
    if resp.term == node.persistent.term {
        if let RoleView::Candidate(votes) = node.role {
            let counted = if resp.vote == Vote::Granted && node.config.dom().contains(from) {
                votes.insert(from)
            } else {
                votes
            };
            let candidate = NodeView { role: RoleView::Candidate(counted), ..node };
            lemma_lead(candidate);
        }
    }
}

/// A new leader tells every other member, and nobody else, of itself: it sends each of them where its
/// log ends, which is at its own first entry, and starts its heartbeat.
pub proof fn law_new_leader_announces_itself<C>(node: NodeView<C>)
    requires
        fits(node),
        node.persistent.log.boundary + node.persistent.log.entries.len() + 1 < u64::MAX,
        node.config.dom().finite(),
        node.config.dom().len() > 0,
    ensures
        ({
            let log = node.persistent.log;
            let last = log.boundary + log.entries.len() + 1;
            let (after, commands) = node.become_leader();
            &&& commands.contains(CommandView::ResetHeartbeatTimer)
            &&& forall|to: NodeId, message: MessageView<C>| #[trigger]
                commands.contains(CommandView::Send { to, message }) <==> {
                    &&& node.config.dom().contains(to)
                    &&& to != node.id
                    &&& message == MessageView::<C>::AppendEntries(
                        AppendEntriesView {
                            term: node.persistent.term,
                            leader_id: node.id,
                            prev_log_index: LogIndex { value: last as u64 },
                            prev_log_term: node.persistent.term,
                            entries: Seq::empty(),
                            leader_commit: after.commit,
                        },
                    )
                }
            &&& after.role matches RoleView::Leader(leader) && forall|peer: NodeId|
                #![trigger leader.next.dom().contains(peer)]
                {
                    &&& leader.next.dom().contains(peer) <==> node.config.dom().contains(peer)
                        && peer != node.id
                    &&& leader.next.dom().contains(peer) ==> {
                        &&& leader.next[peer].value == last + 1
                        &&& leader.matched.dom().contains(peer)
                        &&& leader.matched[peer].value == 0
                    }
                }
        }),
{
    lemma_lead(node);
    let after = node.lead();
    let commands = after.heartbeats();
    let leader = after.role->Leader_0;
    let peers = node.config.dom().remove(node.id);
    assert(leader.next.dom() =~= peers);
    node_map::lemma_in_order(peers);
    let others = node_map::in_order(peers);
    assert(commands[others.len() as int] == CommandView::<C>::ResetHeartbeatTimer);
    let last = node.persistent.log.boundary + node.persistent.log.entries.len() + 1;
    let hello = MessageView::<C>::AppendEntries(
        AppendEntriesView {
            term: node.persistent.term,
            leader_id: node.id,
            prev_log_index: LogIndex { value: last as u64 },
            prev_log_term: node.persistent.term,
            entries: Seq::empty(),
            leader_commit: after.commit,
        },
    );
    assert forall|to: NodeId, message: MessageView<C>| #[trigger]
        commands.contains(CommandView::Send { to, message }) <==> peers.contains(to) && message
            == hello by {
        if commands.contains(CommandView::Send { to, message }) {
            let i = choose|i: int|
                0 <= i < commands.len() && commands[i] == CommandView::<C>::Send { to, message };
            assert(others.to_set().contains(others[i]));
            assert(leader.next.dom().contains(others[i]));
            assert(commands[i] == CommandView::<C>::Send { to: others[i], message: hello });
        }
        if peers.contains(to) && message == hello {
            assert(others.to_set().contains(to));
            let i = choose|i: int| 0 <= i < others.len() && others[i] == to;
            assert(commands[i] == CommandView::<C>::Send { to, message });
        }
    }
}

/// A node that has just been elected leads, with nobody's progress known but its own.
proof fn lemma_lead<C>(node: NodeView<C>)
    requires
        node.persistent.log.boundary + node.persistent.log.entries.len() < u64::MAX,
        node.config.dom().finite(),
        node.config.dom().len() > 0,
    ensures
        ({
            let after = node.lead();
            let last = node.persistent.log.boundary + node.persistent.log.entries.len() + 1;
            let entry = EntryView { term: node.persistent.term.value as nat, payload: PayloadView::NoOp };
            &&& after.role == RoleView::Leader(
                LeaderView::fresh(
                    node.config.dom().remove(node.id),
                    LogIndex { value: last as u64 },
                ),
            )
            &&& after.persistent == node.persistent.append_entry(entry)
            &&& after.persistent.log.entries == node.persistent.log.entries.push(entry)
            &&& after.config == node.config
            &&& after.id == node.id
        }),
{
    let last = LogIndex {
        value: (node.persistent.log.boundary + node.persistent.log.entries.len() + 1) as u64,
    };
    let entry = EntryView { term: node.persistent.term.value as nat, payload: PayloadView::NoOp };
    let leader = LeaderView::fresh(node.config.dom().remove(node.id), last);
    let elected = NodeView {
        persistent: node.persistent.append_entry(entry),
        role: RoleView::Leader(leader),
        ..node
    };
    assert(node.lead() == elected.advance_commit());
    commitment::lemma_majority(elected, leader);
    let top = elected.majority_index(leader);
    if !node.config.dom().contains(node.id) && top.value > 0 {
        let held = elected.holders(leader, top.value as nat);
        assert(held =~= Set::empty());
    }
}

} // verus!
