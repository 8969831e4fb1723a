use raft::state::Candidate;
use raft::state::Follower;
use raft::state::Leader;
use raft::types::LogIndex;
use raft::types::NodeId;

#[test]
fn leader_new_initializes_correctly() {
    let peers = vec![NodeId::from(1), NodeId::from(2), NodeId::from(3)];
    let leader = Leader::new(&peers, LogIndex::from(5));

    assert_eq!(
        leader.next_index_for(NodeId::from(1)),
        Some(LogIndex::from(6))
    );
    assert_eq!(
        leader.next_index_for(NodeId::from(2)),
        Some(LogIndex::from(6))
    );
    assert_eq!(
        leader.next_index_for(NodeId::from(3)),
        Some(LogIndex::from(6))
    );

    for peer in [1, 2, 3] {
        assert_eq!(
            leader.match_index_for(NodeId::from(peer)),
            Some(LogIndex::default())
        );
    }
}

#[test]
fn next_index_for_returns_none_for_unknown_peer() {
    let peers = vec![NodeId::from(1)];
    let leader = Leader::new(&peers, LogIndex::from(0));

    assert_eq!(leader.next_index_for(NodeId::from(99)), None);
}

#[test]
fn record_success_updates_both_indices() {
    let peers = vec![NodeId::from(1), NodeId::from(2)];
    let mut leader = Leader::new(&peers, LogIndex::from(0));

    leader.record_success(NodeId::from(1), LogIndex::from(5));

    assert_eq!(
        leader.match_index_for(NodeId::from(1)),
        Some(LogIndex::from(5))
    );
    assert_eq!(
        leader.next_index_for(NodeId::from(1)),
        Some(LogIndex::from(6))
    );
}

#[test]
fn record_success_updates_only_target_peer() {
    let peers = vec![NodeId::from(1), NodeId::from(2)];
    let mut leader = Leader::new(&peers, LogIndex::from(0));

    leader.record_success(NodeId::from(1), LogIndex::from(5));

    // Peer 2 keeps the value it was initialized with.
    assert_eq!(
        leader.next_index_for(NodeId::from(2)),
        Some(LogIndex::from(1))
    );
}

#[test]
fn record_success_ignores_a_late_duplicate_that_would_regress_indices() {
    let peers = vec![NodeId::from(1)];
    let mut leader = Leader::new(&peers, LogIndex::from(0));

    // The peer acknowledges through index 8 via ordinary AppendEntries.
    leader.record_success(NodeId::from(1), LogIndex::from(8));
    // A duplicate InstallSnapshotResponse for an earlier boundary then
    // arrives late, because the leader resends the snapshot every heartbeat
    // until it is acknowledged.
    leader.record_success(NodeId::from(1), LogIndex::from(3));

    assert_eq!(
        leader.match_index_for(NodeId::from(1)),
        Some(LogIndex::from(8)),
        "match_index must not regress from a stale duplicate response"
    );
    assert_eq!(
        leader.next_index_for(NodeId::from(1)),
        Some(LogIndex::from(9))
    );
}

#[test]
fn record_failure_decrements_next_index() {
    let peers = vec![NodeId::from(1)];
    let mut leader = Leader::new(&peers, LogIndex::from(10));

    assert_eq!(
        leader.next_index_for(NodeId::from(1)),
        Some(LogIndex::from(11))
    );

    leader.record_failure(NodeId::from(1));
    assert_eq!(
        leader.next_index_for(NodeId::from(1)),
        Some(LogIndex::from(10))
    );

    leader.record_failure(NodeId::from(1));
    assert_eq!(
        leader.next_index_for(NodeId::from(1)),
        Some(LogIndex::from(9))
    );
}

#[test]
fn record_failure_does_not_decrement_below_zero() {
    let peers = vec![NodeId::from(1)];
    let mut leader = Leader::new(&peers, LogIndex::from(0));

    leader.record_failure(NodeId::from(1));
    assert_eq!(
        leader.next_index_for(NodeId::from(1)),
        Some(LogIndex::from(0))
    );

    leader.record_failure(NodeId::from(1));
    assert_eq!(
        leader.next_index_for(NodeId::from(1)),
        Some(LogIndex::from(0))
    );
}

#[test]
fn record_failure_for_unknown_peer_does_nothing() {
    let peers = vec![NodeId::from(1)];
    let mut leader = Leader::new(&peers, LogIndex::from(5));

    leader.record_failure(NodeId::from(99));

    // An untracked peer must not be silently added to the quorum set.
    assert_eq!(leader.next_index_for(NodeId::from(99)), None);
}

#[test]
fn match_indices_returns_all_values() {
    let peers = vec![NodeId::from(1), NodeId::from(2), NodeId::from(3)];
    let mut leader = Leader::new(&peers, LogIndex::from(0));

    leader.record_success(NodeId::from(1), LogIndex::from(3));
    leader.record_success(NodeId::from(2), LogIndex::from(5));
    leader.record_success(NodeId::from(3), LogIndex::from(4));

    assert_eq!(
        leader.match_index_for(NodeId::from(1)),
        Some(LogIndex::from(3))
    );
    assert_eq!(
        leader.match_index_for(NodeId::from(2)),
        Some(LogIndex::from(5))
    );
    assert_eq!(
        leader.match_index_for(NodeId::from(3)),
        Some(LogIndex::from(4))
    );
}

#[test]
fn record_success_for_new_peer_creates_entry() {
    let peers = vec![NodeId::from(1)];
    let mut leader = Leader::new(&peers, LogIndex::from(0));

    leader.record_success(NodeId::from(99), LogIndex::from(10));

    assert_eq!(
        leader.next_index_for(NodeId::from(99)),
        Some(LogIndex::from(11))
    );
    assert_eq!(
        leader.match_index_for(NodeId::from(99)),
        Some(LogIndex::from(10))
    );
}

#[test]
fn candidate_counts_self_vote_on_creation() {
    let candidate = Candidate::new(NodeId::from(1));
    assert!(candidate.has_majority(1));
}

#[test]
fn candidate_reaches_majority_with_enough_grants() {
    let mut candidate = Candidate::new(NodeId::from(1));
    candidate.record_vote(NodeId::from(2));
    assert!(candidate.has_majority(3));
}

#[test]
fn candidate_does_not_count_duplicate_grants_from_same_peer() {
    let mut candidate = Candidate::new(NodeId::from(1));
    candidate.record_vote(NodeId::from(2));
    candidate.record_vote(NodeId::from(2));
    // Three grants from two distinct servers is not a majority of five.
    assert!(!candidate.has_majority(5));
}

#[test]
fn state_leader_new_initializes_correctly() {
    let peers = vec![NodeId::from(1), NodeId::from(2), NodeId::from(3)];
    let leader = Leader::new(&peers, LogIndex::from(5));

    assert_eq!(leader.next_index_for(NodeId::from(1)), Some(LogIndex::from(6)));
    assert_eq!(leader.next_index_for(NodeId::from(2)), Some(LogIndex::from(6)));
    assert_eq!(leader.next_index_for(NodeId::from(3)), Some(LogIndex::from(6)));

    let match_indices: Vec<_> = leader.match_indices();
    assert_eq!(match_indices.len(), 3);
    assert!(match_indices.iter().all(|&idx| idx == LogIndex::default()));
}

#[test]
fn state_next_index_for_returns_none_for_unknown_peer() {
    let peers = vec![NodeId::from(1)];
    let leader = Leader::new(&peers, LogIndex::from(0));

    assert_eq!(leader.next_index_for(NodeId::from(99)), None);
}

#[test]
fn state_record_success_updates_both_indices() {
    let peers = vec![NodeId::from(1), NodeId::from(2)];
    let mut leader = Leader::new(&peers, LogIndex::from(0));

    leader.record_success(NodeId::from(1), LogIndex::from(5));

    let match_indices: Vec<_> = leader.match_indices();
    assert!(match_indices.contains(&LogIndex::from(5)));
    assert_eq!(leader.next_index_for(NodeId::from(1)), Some(LogIndex::from(6)));
}

#[test]
fn state_record_success_updates_only_target_peer() {
    let peers = vec![NodeId::from(1), NodeId::from(2)];
    let mut leader = Leader::new(&peers, LogIndex::from(0));

    leader.record_success(NodeId::from(1), LogIndex::from(5));

    // peer 2 should remain unchanged
    assert_eq!(leader.next_index_for(NodeId::from(2)), Some(LogIndex::from(1)));
}

#[test]
fn state_record_failure_decrements_next_index() {
    let peers = vec![NodeId::from(1)];
    let mut leader = Leader::new(&peers, LogIndex::from(10));

    assert_eq!(leader.next_index_for(NodeId::from(1)), Some(LogIndex::from(11)));

    leader.record_failure(NodeId::from(1));
    assert_eq!(leader.next_index_for(NodeId::from(1)), Some(LogIndex::from(10)));

    leader.record_failure(NodeId::from(1));
    assert_eq!(leader.next_index_for(NodeId::from(1)), Some(LogIndex::from(9)));
}

#[test]
fn state_record_failure_does_not_decrement_below_zero() {
    let peers = vec![NodeId::from(1)];
    let mut leader = Leader::new(&peers, LogIndex::from(0));

    leader.record_failure(NodeId::from(1));
    assert_eq!(leader.next_index_for(NodeId::from(1)), Some(LogIndex::from(0)));

    leader.record_failure(NodeId::from(1));
    assert_eq!(leader.next_index_for(NodeId::from(1)), Some(LogIndex::from(0)));
}

#[test]
fn state_record_failure_for_unknown_peer_does_nothing() {
    let peers = vec![NodeId::from(1)];
    let mut leader = Leader::new(&peers, LogIndex::from(5));

    leader.record_failure(NodeId::from(99));

    // Should not panic or create new entry
    assert_eq!(leader.next_index_for(NodeId::from(99)), None);
}

#[test]
fn state_match_indices_returns_all_values() {
    let peers = vec![NodeId::from(1), NodeId::from(2), NodeId::from(3)];
    let mut leader = Leader::new(&peers, LogIndex::from(0));

    leader.record_success(NodeId::from(1), LogIndex::from(3));
    leader.record_success(NodeId::from(2), LogIndex::from(5));
    leader.record_success(NodeId::from(3), LogIndex::from(4));

    let mut match_indices: Vec<_> = leader.match_indices();
    match_indices.sort();

    assert_eq!(match_indices, vec![
        LogIndex::from(3),
        LogIndex::from(4),
        LogIndex::from(5),
    ]);
}

#[test]
fn state_record_success_for_new_peer_creates_entry() {
    let peers = vec![NodeId::from(1)];
    let mut leader = Leader::new(&peers, LogIndex::from(0));

    leader.record_success(NodeId::from(99), LogIndex::from(10));

    assert_eq!(leader.next_index_for(NodeId::from(99)), Some(LogIndex::from(11)));
    let match_indices: Vec<_> = leader.match_indices();
    assert!(match_indices.contains(&LogIndex::from(10)));
}

#[test]
fn state_candidate_counts_self_vote_on_creation() {
    let candidate = Candidate::new(NodeId::from(1));
    assert!(candidate.has_majority(1));
}

#[test]
fn state_candidate_reaches_majority_with_enough_grants() {
    let mut candidate = Candidate::new(NodeId::from(1));
    candidate.record_vote(NodeId::from(2));
    assert!(candidate.has_majority(3));
}

#[test]
fn state_candidate_does_not_count_duplicate_grants_from_same_peer() {
    let mut candidate = Candidate::new(NodeId::from(1));
    candidate.record_vote(NodeId::from(2));
    candidate.record_vote(NodeId::from(2));
    // 3 grants from only 2 distinct peers must not reach majority in a 5-node cluster
    assert!(!candidate.has_majority(5));
}

#[test]
fn leader_match_indices_lists_every_tracked_peer() {
    let peers = vec![NodeId::from(1), NodeId::from(2), NodeId::from(3)];
    let mut leader = Leader::new(&peers, LogIndex::from(5));

    let match_indices = leader.match_indices();
    assert_eq!(match_indices.len(), 3);
    assert!(match_indices.iter().all(|&idx| idx == LogIndex::default()));

    leader.record_success(NodeId::from(1), LogIndex::from(3));
    leader.record_success(NodeId::from(2), LogIndex::from(5));
    leader.record_success(NodeId::from(3), LogIndex::from(4));
    let mut indices = leader.match_indices();
    indices.sort();
    assert_eq!(indices, vec![LogIndex::from(3), LogIndex::from(4), LogIndex::from(5)]);
}

#[test]
fn add_peer_keeps_progress_and_remove_peer_forgets_it() {
    let mut leader = Leader::new(&[NodeId::from(2)], LogIndex::from(4));
    leader.add_peer(NodeId::from(3), LogIndex::from(4));
    assert_eq!(leader.tracked_peers(), vec![NodeId::from(2), NodeId::from(3)]);
    assert_eq!(leader.next_index_for(NodeId::from(3)), Some(LogIndex::from(5)));
    assert_eq!(leader.match_index_for(NodeId::from(3)), Some(LogIndex::default()));

    leader.record_success(NodeId::from(3), LogIndex::from(9));
    leader.add_peer(NodeId::from(3), LogIndex::from(1));
    assert_eq!(leader.next_index_for(NodeId::from(3)), Some(LogIndex::from(10)));
    assert_eq!(leader.match_index_for(NodeId::from(3)), Some(LogIndex::from(9)));

    leader.remove_peer(NodeId::from(3));
    assert_eq!(leader.next_index_for(NodeId::from(3)), None);
    assert_eq!(leader.match_index_for(NodeId::from(3)), None);
    assert_eq!(leader.tracked_peers(), vec![NodeId::from(2)]);
}

#[test]
fn retarget_tracks_who_came_and_forgets_who_left() {
    let mut leader = Leader::new(&[NodeId::from(2), NodeId::from(3)], LogIndex::from(4));
    leader.record_success(NodeId::from(2), LogIndex::from(3));
    leader.retarget(
        &[NodeId::from(2), NodeId::from(3)],
        &[NodeId::from(2), NodeId::from(4)],
        LogIndex::from(6),
    );
    assert_eq!(leader.tracked_peers(), vec![NodeId::from(2), NodeId::from(4)]);
    assert_eq!(leader.match_index_for(NodeId::from(2)), Some(LogIndex::from(3)));
    assert_eq!(leader.next_index_for(NodeId::from(4)), Some(LogIndex::from(7)));
}

#[test]
fn acknowledging_nothing_tracks_an_unknown_peer_at_zero() {
    let mut leader = Leader::new(&[], LogIndex::from(4));
    leader.record_success(NodeId::from(7), LogIndex::from(0));
    assert_eq!(leader.match_index_for(NodeId::from(7)), Some(LogIndex::from(0)));
    assert_eq!(leader.next_index_for(NodeId::from(7)), None);
}

#[test]
fn majority_counts_this_server_and_its_peers() {
    let mut candidate = Candidate::new(NodeId::from(1));
    assert!(candidate.has_majority_with(0));
    assert!(!candidate.has_majority_with(1));
    candidate.record_vote(NodeId::from(2));
    assert!(candidate.has_majority_with(1));
    assert!(candidate.has_majority_with(2));
    assert!(!candidate.has_majority_with(3));
}

#[test]
fn follower_remembers_its_leader() {
    let mut follower = Follower::default();
    assert_eq!(follower.leader_id(), None);
    follower.set_leader(NodeId::from(4));
    assert_eq!(follower.leader_id(), Some(NodeId::from(4)));
}
