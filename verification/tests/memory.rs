use raft::LoadedState;
use raft::MemoryStorage;
use raft::Storage;
use raft::types::ClusterConfig;
use raft::types::Log;
use raft::types::LogEntry;
use raft::types::LogIndex;
use raft::types::LogPayload;
use raft::types::NodeId;
use raft::types::Snapshot;
use raft::types::SnapshotData;
use raft::types::SnapshotMeta;
use raft::types::SocketAddr;
use raft::types::SuffixDisposition;
use raft::types::Term;
use raft::types::TermLookup;

fn addr(port: u16) -> SocketAddr {
    SocketAddr::V4 { ip: 0x7f00_0001, port }
}

fn test_snapshot(last_index: u64, last_term: u64, bytes: Vec<u8>) -> Snapshot {
    Snapshot {
        meta: SnapshotMeta {
            last_index: LogIndex::from(last_index),
            last_term: Term::from(last_term),
            config: ClusterConfig::new(vec![(NodeId::from(1), addr(9001))]).unwrap(),
        },
        data: SnapshotData::new(bytes),
    }
}

#[test]
fn memory_term_and_vote_round_trip_through_storage() {
    let mut storage: MemoryStorage<String> = MemoryStorage::new();

    let loaded = storage.load().unwrap();
    assert_eq!(loaded.current_term, Term::default());
    assert_eq!(loaded.voted_for, None);

    storage
        .set_meta(Term::from(5), Some(NodeId::from(3)))
        .unwrap();

    let loaded = storage.load().unwrap();
    assert_eq!(loaded.current_term, Term::from(5));
    assert_eq!(loaded.voted_for, Some(NodeId::from(3)));
}

#[test]
fn appended_entries_are_readable_after_load() {
    let mut storage: MemoryStorage<String> = MemoryStorage::new();

    storage
        .append(&[
            LogEntry {
                term: Term::from(1),
                payload: LogPayload::Command("SET name=miles".to_string()),
            },
            LogEntry {
                term: Term::from(1),
                payload: LogPayload::Command("SET counter=1".to_string()),
            },
        ])
        .unwrap();

    let entries = storage.load().unwrap().entries;
    assert_eq!(entries.len(), 2);
    assert_eq!(
        entries[0].payload,
        LogPayload::Command("SET name=miles".to_string())
    );
    assert_eq!(
        entries[1].payload,
        LogPayload::Command("SET counter=1".to_string())
    );
}

#[test]
fn memory_truncate_from_removes_entries_from_index_inclusive() {
    let mut storage: MemoryStorage<String> = MemoryStorage::new();

    storage
        .append(&[
            LogEntry {
                term: Term::from(1),
                payload: LogPayload::Command("SET name=miles".to_string()),
            },
            LogEntry {
                term: Term::from(1),
                payload: LogPayload::Command("SET counter=1".to_string()),
            },
            LogEntry {
                term: Term::from(1),
                payload: LogPayload::Command("SET price=100".to_string()),
            },
        ])
        .unwrap();

    storage.truncate_from(LogIndex::from(2)).unwrap();

    let entries = storage.load().unwrap().entries;
    assert_eq!(entries.len(), 1);
}

#[test]
fn truncate_then_append_replaces_the_tail() {
    let mut storage: MemoryStorage<String> = MemoryStorage::new();

    storage
        .append(&[
            LogEntry {
                term: Term::from(1),
                payload: LogPayload::Command("SET name=miles".to_string()),
            },
            LogEntry {
                term: Term::from(1),
                payload: LogPayload::Command("SET status=pending".to_string()),
            },
        ])
        .unwrap();

    storage.truncate_from(LogIndex::from(2)).unwrap();
    storage
        .append(&[LogEntry {
            term: Term::from(2),
            payload: LogPayload::Command("SET status=active".to_string()),
        }])
        .unwrap();

    let entries = storage.load().unwrap().entries;
    assert_eq!(entries.len(), 2);
    assert_eq!(
        entries[1].payload,
        LogPayload::Command("SET status=active".to_string())
    );
}

#[test]
fn memory_install_snapshot_drops_covered_log_prefix() {
    let mut storage: MemoryStorage<String> = MemoryStorage::new();
    storage
        .append(&[
            LogEntry {
                term: Term::from(1),
                payload: LogPayload::Command("SET name=miles".to_string()),
            },
            LogEntry {
                term: Term::from(1),
                payload: LogPayload::Command("SET status=pending".to_string()),
            },
        ])
        .unwrap();

    storage
        .install_snapshot(&test_snapshot(1, 1, vec![9]), SuffixDisposition::Retain)
        .unwrap();

    let entries = storage.load().unwrap().entries;
    assert_eq!(entries.len(), 1);
    assert_eq!(
        entries[0].payload,
        LogPayload::Command("SET status=pending".to_string())
    );
}

#[test]
fn install_snapshot_is_readable_via_load() {
    let mut storage: MemoryStorage<String> = MemoryStorage::new();
    storage
        .append(&[LogEntry {
            term: Term::from(1),
            payload: LogPayload::Command("SET name=miles".to_string()),
        }])
        .unwrap();

    let snapshot = test_snapshot(1, 1, vec![1, 2, 3]);
    storage
        .install_snapshot(&snapshot, SuffixDisposition::Retain)
        .unwrap();

    let loaded = storage.load().unwrap();
    assert!(loaded.snapshot == Some(snapshot));
    assert!(loaded.entries.is_empty());
}

#[test]
fn install_snapshot_with_discard_drops_entries_above_the_boundary() {
    let mut storage: MemoryStorage<String> = MemoryStorage::new();
    storage
        .append(&[
            LogEntry {
                term: Term::from(1),
                payload: LogPayload::Command("SET name=miles".to_string()),
            },
            LogEntry {
                term: Term::from(1),
                payload: LogPayload::Command("SET status=pending".to_string()),
            },
            LogEntry {
                term: Term::from(1),
                payload: LogPayload::Command("SET region=eu-west-1".to_string()),
            },
        ])
        .unwrap();

    // The boundary sits at index 2 and the entry above it is valid only if
    // the local log agreed there. Discard says it did not.
    storage
        .install_snapshot(&test_snapshot(2, 9, vec![4, 2]), SuffixDisposition::Discard)
        .unwrap();

    let loaded = storage.load().unwrap();
    assert!(loaded.entries.is_empty());
}

#[test]
fn storage_term_and_vote_round_trip_through_storage() {
    let mut storage: MemoryStorage<String> = MemoryStorage::default();
    storage.set_meta(Term::from(5), Some(NodeId::from(3))).unwrap();
    let LoadedState { current_term, voted_for, .. } = storage.load().unwrap();
    assert_eq!(current_term, Term::from(5));
    assert_eq!(voted_for, Some(NodeId::from(3)));
}

fn stored_log(storage: &MemoryStorage<String>) -> Log<String> {
    Log::from_entries(storage.load().unwrap().entries)
}

fn one(term: u64, cmd: &str) -> LogEntry<String> {
    LogEntry {
        term: Term::from(term),
        payload: LogPayload::Command(cmd.to_string()),
    }
}

#[test]
fn appended_entry_is_readable_by_index() {
    let mut storage: MemoryStorage<String> = MemoryStorage::new();
    storage.append(&[one(1, "SET name=miles")]).unwrap();
    assert_eq!(stored_log(&storage).last_index(), LogIndex::from(1));
    storage.append(&[one(1, "SET counter=1")]).unwrap();

    let log = stored_log(&storage);
    assert_eq!(log.last_index(), LogIndex::from(2));
    assert_eq!(log.term_at(LogIndex::from(1)), TermLookup::Known(Term::from(1)));
    assert_eq!(
        log.entry(LogIndex::from(1)).map(|e| &e.payload),
        Some(&LogPayload::Command("SET name=miles".to_string()))
    );
}

#[test]
fn storage_truncate_from_removes_entries_from_index_inclusive() {
    let mut storage: MemoryStorage<String> = MemoryStorage::new();
    storage.append(&[one(1, "SET name=miles")]).unwrap();
    storage.append(&[one(1, "SET counter=1")]).unwrap();
    storage.append(&[one(1, "SET price=100")]).unwrap();

    storage.truncate_from(LogIndex::from(2)).unwrap();

    assert_eq!(stored_log(&storage).last_index(), LogIndex::from(1));
}

#[test]
fn append_entries_replaces_conflicting_entry_and_trims_tail() {
    let mut storage: MemoryStorage<String> = MemoryStorage::new();
    storage.append(&[one(1, "SET name=miles")]).unwrap();
    storage.append(&[one(1, "SET status=pending")]).unwrap();

    storage.truncate_from(LogIndex::from(2)).unwrap();
    storage.append(&[one(2, "SET status=active")]).unwrap();

    let log = stored_log(&storage);
    assert_eq!(log.last_index(), LogIndex::from(2));
    assert_eq!(
        log.entry(LogIndex::from(2)).map(|e| &e.payload),
        Some(&LogPayload::Command("SET status=active".to_string()))
    );
}
