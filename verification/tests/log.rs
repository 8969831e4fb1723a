use raft::types::ClusterConfig;
use raft::types::Log;
use raft::types::LogEntry;
use raft::types::LogIndex;
use raft::types::LogPayload;
use raft::types::MergeOutcome;
use raft::types::NodeId;
use raft::types::SocketAddr;
use raft::types::Term;
use raft::types::TermLookup;

fn addr(port: u16) -> SocketAddr {
    SocketAddr::V4 { ip: 0x7f00_0001, port }
}

fn entry(term: u64, cmd: &str) -> LogEntry<String> {
    LogEntry {
        term: Term::from(term),
        payload: LogPayload::Command(cmd.to_string()),
    }
}

fn log_with(entries: Vec<LogEntry<String>>) -> Log<String> {
    Log::from_entries(entries)
}

fn compacted_log(entries: Vec<LogEntry<String>>, through: u64, term: u64) -> Log<String> {
    let mut log = log_with(entries);
    log.compact_through(LogIndex::from(through), Term::from(term));
    log
}

#[test]
fn log_merge_appends_when_no_conflict() {
    let mut log = log_with(vec![entry(1, "SET name=miles")]);

    let outcome = log.merge(LogIndex::from(1), vec![entry(1, "SET counter=1")]);

    assert_eq!(outcome, MergeOutcome::Appended);
    assert_eq!(log.len(), 2);
    assert_eq!(
        log.entry(LogIndex::from(2)),
        Some(&entry(1, "SET counter=1"))
    );
}

#[test]
fn log_merge_truncates_on_same_length_conflict() {
    let mut log = log_with(vec![
        entry(1, "SET name=miles"),
        entry(1, "SET status=pending"),
    ]);

    let outcome = log.merge(LogIndex::from(1), vec![entry(2, "SET status=active")]);

    assert_eq!(
        outcome,
        MergeOutcome::Truncated {
            from: LogIndex::from(2)
        }
    );
    assert_eq!(log.len(), 2);
    assert_eq!(
        log.entry(LogIndex::from(2)),
        Some(&entry(2, "SET status=active"))
    );
}

#[test]
fn log_merge_truncates_and_grows_the_log() {
    let mut log = log_with(vec![
        entry(1, "SET name=miles"),
        entry(1, "SET status=pending"),
    ]);

    let outcome = log.merge(
        LogIndex::from(1),
        vec![
            entry(2, "SET status=active"),
            entry(2, "SET region=eu-west-1"),
        ],
    );

    assert_eq!(
        outcome,
        MergeOutcome::Truncated {
            from: LogIndex::from(2)
        }
    );
    assert_eq!(log.len(), 3);
    assert_eq!(
        log.entry(LogIndex::from(2)),
        Some(&entry(2, "SET status=active"))
    );
    assert_eq!(
        log.entry(LogIndex::from(3)),
        Some(&entry(2, "SET region=eu-west-1"))
    );
}

#[test]
fn log_merge_skips_entries_already_present_with_matching_term() {
    let mut log = log_with(vec![entry(1, "SET name=miles"), entry(1, "SET counter=1")]);

    // A retried AppendEntries carrying entries the follower already has.
    let outcome = log.merge(
        LogIndex::from(0),
        vec![entry(1, "SET name=miles"), entry(1, "SET counter=1")],
    );

    assert_eq!(outcome, MergeOutcome::Appended);
    assert_eq!(log.len(), 2);
}

#[test]
fn log_matches_is_true_for_sentinel_index_zero() {
    let log: Log<String> = Log::new();
    assert!(log.matches(LogIndex::default(), Term::default()));
}

#[test]
fn log_matches_is_false_when_term_mismatches_at_prev_index() {
    let log = log_with(vec![entry(1, "SET name=miles")]);
    assert!(!log.matches(LogIndex::from(1), Term::from(2)));
}

#[test]
fn log_suffix_from_zero_returns_whole_log() {
    let log = log_with(vec![entry(1, "SET name=miles"), entry(1, "SET counter=1")]);
    assert_eq!(log.suffix_from(LogIndex::default()).len(), 2);
}

#[test]
fn log_suffix_from_past_end_returns_empty() {
    let log = log_with(vec![entry(1, "SET name=miles")]);
    assert!(log.suffix_from(LogIndex::from(5)).is_empty());
}

#[test]
fn log_term_at_sentinel_index_is_default_term() {
    let log: Log<String> = Log::new();
    assert_eq!(
        log.term_at(LogIndex::default()),
        TermLookup::Known(Term::default())
    );
}

#[test]
fn term_at_out_of_bounds_is_beyond_end() {
    let log = log_with(vec![entry(1, "SET name=miles")]);
    assert_eq!(log.term_at(LogIndex::from(5)), TermLookup::BeyondEnd);
}

#[test]
fn log_append_returns_assigned_index() {
    let mut log: Log<String> = Log::new();
    assert_eq!(log.append(entry(1, "SET name=miles")), LogIndex::from(1));
    assert_eq!(log.append(entry(1, "SET counter=1")), LogIndex::from(2));
}

#[test]
fn log_config_change_payload_round_trips_through_entry() {
    let members =
        vec![(NodeId::from(1), addr(9001))];
    let cfg = ClusterConfig::new(members).unwrap();
    let mut log: Log<String> = Log::new();
    log.append(LogEntry {
        term: Term::from(1),
        payload: LogPayload::ConfigChange(cfg.clone()),
    });

    assert!(
        matches!(&log.entry(LogIndex::from(1)).unwrap().payload, LogPayload::ConfigChange(c) if c == &cfg)
    );
}

#[test]
fn compact_through_drops_prefix_and_preserves_suffix_indices() {
    let mut log = log_with(vec![
        entry(1, "SET name=miles"),
        entry(1, "SET status=pending"),
        entry(2, "SET status=active"),
    ]);

    log.compact_through(LogIndex::from(2), Term::from(1));

    assert_eq!(log.first_index(), LogIndex::from(3));
    assert_eq!(log.last_index(), LogIndex::from(3));
    assert_eq!(log.snapshot_last_index(), LogIndex::from(2));
    assert_eq!(log.snapshot_last_term(), Term::from(1));
    assert_eq!(
        log.entry(LogIndex::from(3)),
        Some(&entry(2, "SET status=active"))
    );
    assert_eq!(log.entry(LogIndex::from(2)), None);
}

#[test]
fn compact_through_below_boundary_is_noop() {
    let mut log = compacted_log(
        vec![
            entry(1, "SET name=miles"),
            entry(1, "SET status=pending"),
            entry(2, "SET status=active"),
        ],
        2,
        1,
    );

    log.compact_through(LogIndex::from(1), Term::from(99));

    assert_eq!(log.snapshot_last_index(), LogIndex::from(2));
    assert_eq!(log.snapshot_last_term(), Term::from(1));
    assert_eq!(log.len(), 1);
}

#[test]
fn last_term_falls_back_to_snapshot_term_when_log_empty() {
    let log = compacted_log(vec![entry(1, "SET name=miles")], 1, 3);

    assert_eq!(log.last_term(), Term::from(3));
    assert_eq!(log.last_index(), LogIndex::from(1));
}

#[test]
fn term_at_returns_compacted_below_boundary() {
    let log = compacted_log(
        vec![entry(1, "SET name=miles"), entry(2, "SET status=active")],
        1,
        1,
    );

    assert_eq!(log.term_at(LogIndex::default()), TermLookup::Compacted);
}

#[test]
fn term_at_known_at_boundary() {
    let log = compacted_log(
        vec![entry(1, "SET name=miles"), entry(2, "SET status=active")],
        1,
        1,
    );

    assert_eq!(
        log.term_at(LogIndex::from(1)),
        TermLookup::Known(Term::from(1))
    );
}

#[test]
fn term_at_beyond_end_past_last() {
    let log = compacted_log(vec![entry(1, "SET name=miles")], 1, 1);

    assert_eq!(log.term_at(LogIndex::from(9)), TermLookup::BeyondEnd);
}

#[test]
fn matches_true_for_any_index_below_snapshot_boundary() {
    let log = compacted_log(
        vec![
            entry(1, "SET name=miles"),
            entry(1, "SET status=pending"),
            entry(2, "SET status=active"),
        ],
        2,
        1,
    );

    assert!(log.matches(LogIndex::from(1), Term::from(99)));
    assert!(log.matches(LogIndex::default(), Term::from(99)));
}

#[test]
fn matches_compares_snapshot_term_at_boundary() {
    let log = compacted_log(vec![entry(1, "SET name=miles")], 1, 1);

    assert!(log.matches(LogIndex::from(1), Term::from(1)));
    assert!(!log.matches(LogIndex::from(1), Term::from(2)));
}

#[test]
fn merge_skips_entries_covered_by_snapshot() {
    let mut log = compacted_log(
        vec![entry(1, "SET name=miles"), entry(1, "SET status=pending")],
        1,
        1,
    );

    // The first incoming entry lands on index 1, at the snapshot boundary.
    // It has no array slot, so merge must skip it rather than look it up.
    let outcome = log.merge(LogIndex::default(), vec![entry(1, "SET name=miles")]);

    assert_eq!(outcome, MergeOutcome::Appended);
    assert_eq!(log.len(), 1);
    assert_eq!(
        log.entry(LogIndex::from(2)),
        Some(&entry(1, "SET status=pending"))
    );
}

#[test]
fn merge_truncates_on_conflict_after_compaction() {
    let mut log = compacted_log(
        vec![
            entry(1, "SET name=miles"),
            entry(1, "SET status=pending"),
            entry(1, "SET region=eu-west-1"),
        ],
        1,
        1,
    );

    let outcome = log.merge(LogIndex::from(2), vec![entry(2, "SET status=active")]);

    assert_eq!(
        outcome,
        MergeOutcome::Truncated {
            from: LogIndex::from(3)
        }
    );
    assert_eq!(
        log.entry(LogIndex::from(3)),
        Some(&entry(2, "SET status=active"))
    );
}

#[test]
fn reset_to_snapshot_discards_all_entries_and_sets_boundary() {
    let mut log = log_with(vec![entry(1, "SET name=miles"), entry(1, "SET counter=1")]);

    log.reset_to_snapshot(LogIndex::from(5), Term::from(3));

    assert!(log.is_empty());
    assert_eq!(log.snapshot_last_index(), LogIndex::from(5));
    assert_eq!(log.snapshot_last_term(), Term::from(3));
    assert_eq!(log.last_index(), LogIndex::from(5));
    assert_eq!(log.last_term(), Term::from(3));
}

#[test]
fn suffix_from_at_or_below_boundary_returns_whole_log() {
    let log = compacted_log(
        vec![entry(1, "SET name=miles"), entry(2, "SET status=active")],
        1,
        1,
    );

    assert_eq!(log.suffix_from(LogIndex::from(1)).len(), 1);
    assert_eq!(log.suffix_from(LogIndex::default()).len(), 1);
}

#[test]
fn term_at_out_of_bounds_is_none() {
    let log = log_with(vec![entry(1, "SET name=miles")]);
    assert_eq!(log.term_at(LogIndex::from(5)), TermLookup::BeyondEnd);
    assert_eq!(log.entry(LogIndex::from(5)), None);
}

#[test]
fn compaction_never_changes_last_index_or_last_term() {
    for n in 1usize..12 {
        for compact_at in 0..n {
            let entries: Vec<LogEntry<String>> = (0..n)
                .map(|i| entry((i / 3 + 1) as u64, &format!("SET counter={i}")))
                .collect();
            let mut log = log_with(entries.clone());
            let before_last_index = log.last_index();
            let before_last_term = log.last_term();

            let boundary_term = entries[compact_at].term;
            log.compact_through(LogIndex::from((compact_at + 1) as u64), boundary_term);

            assert_eq!(log.last_index(), before_last_index);
            assert_eq!(log.last_term(), before_last_term);
            for (i, surviving) in entries.iter().enumerate().skip(compact_at + 1) {
                let idx = LogIndex::from((i + 1) as u64);
                assert_eq!(log.term_at(idx), TermLookup::Known(surviving.term));
            }
        }
    }
}

#[test]
fn merging_twice_changes_nothing() {
    let mut log = log_with(vec![entry(1, "a"), entry(1, "b"), entry(1, "c")]);
    let incoming = vec![entry(2, "x"), entry(2, "y")];
    assert_eq!(
        log.merge(LogIndex::from(1), incoming.clone()),
        MergeOutcome::Truncated { from: LogIndex::from(2) }
    );
    let once = log.clone();
    assert_eq!(log.merge(LogIndex::from(1), incoming), MergeOutcome::Appended);
    assert_eq!(log, once);
    assert_eq!(log.last_index(), LogIndex::from(3));
}

#[test]
fn merge_keeps_a_longer_log_that_agrees() {
    let mut log = log_with(vec![entry(1, "a"), entry(1, "b"), entry(1, "c")]);
    assert_eq!(
        log.merge(LogIndex::from(0), vec![entry(1, "a")]),
        MergeOutcome::Appended
    );
    assert_eq!(log.len(), 3);
    assert_eq!(log.iter().count(), 3);
    assert_eq!(log.last(), Some(&entry(1, "c")));
}

#[test]
fn truncate_from_drops_the_tail() {
    let mut log = compacted_log(vec![entry(1, "a"), entry(1, "b"), entry(2, "c")], 1, 1);
    log.truncate_from(LogIndex::from(3));
    assert_eq!(log.last_index(), LogIndex::from(2));
    log.truncate_from(LogIndex::from(1));
    assert_eq!(log.last_index(), LogIndex::from(2));
    assert_eq!(log.through(LogIndex::from(2)).len(), 1);
}

#[test]
fn from_snapshot_and_suffix_places_the_suffix() {
    let log = Log::from_snapshot_and_suffix(
        LogIndex::from(4),
        Term::from(2),
        vec![entry(3, "a")],
    );
    assert_eq!(log.entry(LogIndex::from(5)), Some(&entry(3, "a")));
    assert_eq!(log.first_index(), LogIndex::from(5));
}

#[test]
fn merging_a_prefix_again_changes_nothing() {
    let mut log = log_with(vec![entry(1, "a"), entry(1, "b"), entry(1, "c")]);
    let incoming = vec![entry(2, "x"), entry(2, "y"), entry(2, "z")];
    log.merge(LogIndex::from(1), incoming.clone());
    let merged = log.clone();
    for count in 0..=incoming.len() {
        let outcome = log.merge(LogIndex::from(1), incoming[..count].to_vec());
        assert_eq!(outcome, MergeOutcome::Appended);
        assert_eq!(log.entries(), merged.entries());
    }
}
