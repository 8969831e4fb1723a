use raft::LoadedState;
use raft::Storage;
use raft::persistent::PersistentState;
use raft::storage::StorageCallOf;
use raft::storage::StoredOf;
use raft::storage::file::FileCache;
use raft::storage::file::FileWrite;
use raft::storage::file::Files;
use raft::storage::file::InstallIntent;
use raft::types::ClusterConfig;
use raft::types::LogEntry;
use raft::types::LogIndex;
use raft::types::LogPayload;
use raft::types::MergeOutcome;
use raft::types::NodeId;
use raft::types::Snapshot;
use raft::types::SnapshotData;
use raft::types::SnapshotMeta;
use raft::types::SocketAddr;
use raft::types::SuffixDisposition;
use raft::types::Term;

fn addr(port: u16) -> SocketAddr {
    SocketAddr::V4 { ip: 0x7f00_0001, port }
}

/// Storage whose files are values, so that closing and opening it again goes through exactly what
/// has been written.
struct SimulatedFiles {
    files: Files<String>,
    cache: FileCache<String>,
}

fn no_files() -> Files<String> {
    Files {
        current_term: Term::default(),
        voted_for: None,
        snapshot: None,
        first_index: LogIndex::from(1),
        entries: Vec::new(),
        intent: None,
    }
}

fn copy_files(files: &Files<String>) -> Files<String> {
    Files {
        current_term: files.current_term,
        voted_for: files.voted_for,
        snapshot: files.snapshot.clone(),
        first_index: files.first_index,
        entries: files.entries.clone(),
        intent: files.intent,
    }
}

impl SimulatedFiles {
    fn new() -> Self {
        let (cache, writes) = FileCache::open(no_files());
        assert!(writes.is_empty());
        SimulatedFiles { files: no_files(), cache }
    }

    fn write(&mut self, write: FileWrite<String>) {
        match write {
            FileWrite::Meta { term, voted_for } => {
                self.files.current_term = term;
                self.files.voted_for = voted_for;
            }
            FileWrite::Snapshot { snapshot } => self.files.snapshot = Some(snapshot),
            FileWrite::Intent { intent } => self.files.intent = Some(intent),
            FileWrite::Append { entry } => self.files.entries.push(entry),
            FileWrite::Rewrite { first_index, entries } => {
                self.files.first_index = first_index;
                self.files.entries = entries;
            }
            FileWrite::ClearIntent => self.files.intent = None,
        }
    }

    fn write_all(&mut self, writes: Vec<FileWrite<String>>) {
        for write in writes {
            self.write(write);
        }
    }

    fn reopen(&self) -> Self {
        let (cache, writes) = FileCache::open(copy_files(&self.files));
        let mut reopened = SimulatedFiles { files: copy_files(&self.files), cache };
        reopened.write_all(writes);
        reopened
    }
}

impl Storage<String> for SimulatedFiles {
    type Error = std::convert::Infallible;

    fn stored(&self) -> StoredOf<String> {
        unreachable!("only stated, never run")
    }

    fn may_answer(
        &self,
        _call: StorageCallOf<String>,
        _result: Result<(), Self::Error>,
        _after: Self,
    ) -> bool {
        unreachable!("only stated, never run")
    }

    fn load(&self) -> Result<LoadedState<String>, Self::Error> {
        Ok(self.cache.load())
    }

    fn set_meta(&mut self, term: Term, voted_for: Option<NodeId>) -> Result<(), Self::Error> {
        let writes = self.cache.set_meta(term, voted_for);
        self.write_all(writes);
        Ok(())
    }

    fn truncate_from(&mut self, index: LogIndex) -> Result<(), Self::Error> {
        let writes = self.cache.truncate_from(index);
        self.write_all(writes);
        Ok(())
    }

    fn append(&mut self, entries: &[LogEntry<String>]) -> Result<(), Self::Error> {
        let writes = self.cache.append(entries);
        for (write, entry) in writes.into_iter().zip(entries) {
            self.write(write);
            self.cache.appended(entry);
        }
        Ok(())
    }

    fn install_snapshot(
        &mut self,
        snapshot: &Snapshot,
        disposition: SuffixDisposition,
    ) -> Result<(), Self::Error> {
        let first = self.cache.begin_install(snapshot, disposition);
        self.write_all(first);
        let rest = self.cache.install_snapshot(snapshot, disposition);
        self.write_all(rest);
        Ok(())
    }
}

fn test_snapshot(last_index: u64, last_term: u64, bytes: Vec<u8>) -> Snapshot {
    Snapshot {
        meta: SnapshotMeta {
            last_index: LogIndex::from(last_index),
            last_term: Term::from(last_term),
            config: ClusterConfig::new(vec![(NodeId::from(1), addr(9001))]).unwrap(),
        },
        data: SnapshotData::new(bytes),
    }
}

fn three_entry_log() -> [LogEntry<String>; 3] {
    [
        LogEntry {
            term: Term::from(1),
            payload: LogPayload::Command("SET name=miles".into()),
        },
        LogEntry {
            term: Term::from(1),
            payload: LogPayload::Command("SET status=pending".into()),
        },
        LogEntry {
            term: Term::from(2),
            payload: LogPayload::Command("SET status=active".into()),
        },
    ]
}

/// The durable step of `install_snapshot` after which a crash is simulated.
#[derive(Clone, Copy)]
enum CrashAfter {
    IntentRecorded,
    SnapshotDurable,
    LogRewritten,
    IntentCleared,
}

/// Runs the durable steps of `install_snapshot` in order and stops after `crash_after`, leaving the
/// files in exactly the state a crash at that point would.
fn install_snapshot_interrupted(
    storage: &mut SimulatedFiles,
    snapshot: &Snapshot,
    disposition: SuffixDisposition,
    crash_after: CrashAfter,
) {
    let steps = match crash_after {
        CrashAfter::IntentRecorded => 1,
        CrashAfter::SnapshotDurable => 2,
        CrashAfter::LogRewritten => 3,
        CrashAfter::IntentCleared => 4,
    };
    let mut writes = storage.cache.begin_install(snapshot, disposition);
    assert_eq!(writes.len(), 2);
    writes.extend(storage.cache.install_snapshot(snapshot, disposition));
    assert_eq!(writes.len(), 4);
    for write in writes.into_iter().take(steps) {
        storage.write(write);
    }
}

fn reopen_after_interrupted_install(
    disposition: SuffixDisposition,
    boundary_term: u64,
    crash_after: CrashAfter,
) -> SimulatedFiles {
    let snapshot = test_snapshot(2, boundary_term, vec![4, 2]);
    let mut s = SimulatedFiles::new();
    s.append(&three_entry_log()).expect("append");
    install_snapshot_interrupted(&mut s, &snapshot, disposition, crash_after);
    s.reopen()
}

#[test]
fn file_meta_survives_reopen() {
    let mut s = SimulatedFiles::new();
    {
        s.set_meta(Term::from(7), Some(NodeId::from(2)))
            .expect("set meta");
    }
    let s = s.reopen();
    let loaded = s.load().expect("load");
    assert_eq!(loaded.current_term, Term::from(7));
    assert_eq!(loaded.voted_for, Some(NodeId::from(2)));
}

#[test]
fn file_log_survives_reopen() {
    let mut s = SimulatedFiles::new();
    {
        s.append(&[
            LogEntry {
                term: Term::from(1),
                payload: LogPayload::Command("SET name=miles".into()),
            },
            LogEntry {
                term: Term::from(1),
                payload: LogPayload::Command("SET counter=1".into()),
            },
        ])
        .expect("append");
    }
    let s = s.reopen();
    let entries = s.load().expect("load").entries;
    assert_eq!(entries.len(), 2);
    assert_eq!(
        entries[0].payload,
        LogPayload::Command("SET name=miles".into())
    );
    assert_eq!(
        entries[1].payload,
        LogPayload::Command("SET counter=1".into())
    );
}

#[test]
fn file_truncate_survives_reopen() {
    let mut s = SimulatedFiles::new();
    {
        let entries: Vec<LogEntry<String>> =
            ["SET name=miles", "SET counter=1", "SET price=100"]
                .into_iter()
                .map(|cmd| LogEntry {
                    term: Term::from(1),
                    payload: LogPayload::Command(cmd.into()),
                })
                .collect();
        s.append(&entries).expect("append");
        s.truncate_from(LogIndex::from(2)).expect("truncate");
    }
    let s = s.reopen();
    let entries = s.load().expect("load").entries;
    assert_eq!(entries.len(), 1);
    assert_eq!(
        entries[0].payload,
        LogPayload::Command("SET name=miles".into())
    );
}

#[test]
fn truncate_then_append_replaces_entries_and_survives_reopen() {
    let mut s = SimulatedFiles::new();
    {
        s.append(&[
            LogEntry {
                term: Term::from(1),
                payload: LogPayload::Command("SET name=miles".into()),
            },
            LogEntry {
                term: Term::from(1),
                payload: LogPayload::Command("SET status=pending".into()),
            },
        ])
        .expect("append");
        // The incoming entry at index 2 carries term 2 against the stored
        // term 1. Node resolves that in memory and issues a truncation
        // followed by the replacement suffix, so storage never detects the
        // conflict itself.
        s.truncate_from(LogIndex::from(2)).expect("truncate");
        s.append(&[LogEntry {
            term: Term::from(2),
            payload: LogPayload::Command("SET status=active".into()),
        }])
        .expect("append");
    }
    let s = s.reopen();
    let entries = s.load().expect("load").entries;
    assert_eq!(entries.len(), 2);
    assert_eq!(
        entries[1].payload,
        LogPayload::Command("SET status=active".into())
    );
}

#[test]
fn file_noop_entry_round_trips() {
    let mut s = SimulatedFiles::new();
    {
        s.append(&[LogEntry {
            term: Term::from(1),
            payload: LogPayload::NoOp,
        }])
        .expect("append noop");
    }
    let s = s.reopen();
    let entries = s.load().expect("load").entries;
    assert_eq!(entries[0].payload, LogPayload::NoOp);
}

#[test]
fn file_install_snapshot_drops_covered_log_prefix() {
    let mut s = SimulatedFiles::new();
    s.append(&three_entry_log()).expect("append");

    s.install_snapshot(&test_snapshot(2, 1, vec![9, 9]), SuffixDisposition::Retain)
        .expect("install snapshot");

    let entries = s.load().expect("load").entries;
    assert_eq!(entries.len(), 1);
    assert_eq!(
        entries[0].payload,
        LogPayload::Command("SET status=active".into())
    );
}

#[test]
fn install_snapshot_survives_reopen() {
    let snapshot = test_snapshot(2, 1, vec![10, 20, 30]);
    let mut s = SimulatedFiles::new();
    {
        s.append(&three_entry_log()).expect("append");
        s.install_snapshot(&snapshot, SuffixDisposition::Retain)
            .expect("install snapshot");
    }

    let s = s.reopen();
    let loaded = s.load().expect("load");
    assert!(loaded.snapshot == Some(snapshot));
    assert_eq!(loaded.entries.len(), 1);
    assert_eq!(
        loaded.entries[0].payload,
        LogPayload::Command("SET status=active".into())
    );
}

#[test]
fn reopen_reconciles_log_written_before_snapshot_rewrite() {
    let mut s = SimulatedFiles::new();
    {
        // Neither truncate_from nor install_snapshot has run, so log.jsonl
        // still has no header. That is the state a crash between the two
        // durable writes of install_snapshot leaves behind.
        s.append(&three_entry_log()).expect("append");

        let snapshot = test_snapshot(2, 1, vec![7, 7]);
        s.files.snapshot = Some(snapshot);
    }

    let s = s.reopen();
    let loaded = s.load().expect("load");
    assert_eq!(loaded.entries.len(), 1);
    assert_eq!(
        loaded.entries[0].payload,
        LogPayload::Command("SET status=active".into())
    );
}

/// A conflicting boundary invalidates the whole log. Once `snapshot.json` is
/// durable the install has happened, so no later crash may bring the suffix
/// back.
#[test]
fn reopen_discards_suffix_when_conflicting_install_crashes_after_snapshot() {
    for crash_after in [
        CrashAfter::SnapshotDurable,
        CrashAfter::LogRewritten,
        CrashAfter::IntentCleared,
    ] {
        let s = reopen_after_interrupted_install(SuffixDisposition::Discard, 9, crash_after);
        let loaded = s.load().expect("load");

        assert!(
            loaded.entries.is_empty(),
            "a term 9 boundary at index 2 conflicts with the local term 1 entry, \
             so the entire log goes"
        );
        assert_eq!(
            loaded.snapshot.map(|snap| snap.meta.last_term),
            Some(Term::from(9))
        );
    }
}

/// A matching boundary leaves the entries above it valid, so the same crash
/// points must keep them.
#[test]
fn reopen_keeps_suffix_when_matching_install_crashes_after_snapshot() {
    for crash_after in [
        CrashAfter::SnapshotDurable,
        CrashAfter::LogRewritten,
        CrashAfter::IntentCleared,
    ] {
        let s = reopen_after_interrupted_install(SuffixDisposition::Retain, 1, crash_after);
        let loaded = s.load().expect("load");

        assert_eq!(loaded.entries.len(), 1);
        assert_eq!(
            loaded.entries[0].payload,
            LogPayload::Command("SET status=active".into())
        );
    }
}

/// The record alone commits nothing. Without the snapshot beside it the
/// install never happened, so the log must survive untouched.
#[test]
fn reopen_rolls_back_install_that_crashed_before_the_snapshot_landed() {
    let s = reopen_after_interrupted_install(
        SuffixDisposition::Discard,
        9,
        CrashAfter::IntentRecorded,
    );
    let loaded = s.load().expect("load");

    assert_eq!(loaded.entries.len(), 3);
    assert!(loaded.snapshot.is_none());
}

/// Recovery must consume the record, not merely read it. A record left in
/// place would replay its discard over entries appended after recovery and
/// erase them.
#[test]
fn reopen_clears_the_install_record_so_later_appends_survive() {
    let snapshot = test_snapshot(2, 9, vec![4, 2]);
    let mut s = SimulatedFiles::new();
    {
        s.append(&three_entry_log()).expect("append");
        install_snapshot_interrupted(
            &mut s,
            &snapshot,
            SuffixDisposition::Discard,
            CrashAfter::SnapshotDurable,
        );
    }
    let mut s = SimulatedFiles::new();
    {
        assert!(s.files.intent.is_none());
        s.append(&[LogEntry {
            term: Term::from(9),
            payload: LogPayload::Command("SET region=eu-west-1".into()),
        }])
        .expect("append after recovery");
    }

    let loaded = s.reopen().load().expect("load");
    assert_eq!(loaded.entries.len(), 1);
    assert_eq!(
        loaded.entries[0].payload,
        LogPayload::Command("SET region=eu-west-1".into())
    );
}

/// A completed install leaves no record behind, so a plain restart takes the
/// ordinary path rather than the recovery one.
#[test]
fn install_snapshot_removes_its_record_on_success() {
    let mut s = SimulatedFiles::new();
    s.append(&three_entry_log()).expect("append");

    s.install_snapshot(&test_snapshot(2, 9, vec![4, 2]), SuffixDisposition::Discard)
        .expect("install snapshot");

    assert!(s.files.intent.is_none());
    assert!(s.load().expect("load").entries.is_empty());
}

#[test]
fn install_snapshot_with_discard_drops_the_whole_log() {
    let mut s = SimulatedFiles::new();
    s.append(&three_entry_log()).expect("append");

    s.install_snapshot(&test_snapshot(2, 9, vec![4, 2]), SuffixDisposition::Discard)
        .expect("install snapshot");

    let loaded = s.load().expect("load");
    assert!(loaded.entries.is_empty());
    assert_eq!(
        loaded.snapshot.map(|snap| snap.meta.last_term),
        Some(Term::from(9))
    );
}

#[test]
fn log_header_line_round_trips_first_index() {
    let mut s = SimulatedFiles::new();
    s.append(&three_entry_log()[..2]).expect("append");
    s.truncate_from(LogIndex::from(2)).expect("truncate");

    assert_eq!(s.files.first_index, LogIndex::from(1));
    assert_eq!(s.files.entries.len(), 1);
}

#[test]
fn append_is_written_entry_by_entry() {
    let mut s = SimulatedFiles::new();
    let writes = s.cache.append(&three_entry_log());
    assert_eq!(writes.len(), 3);
    for write in writes.into_iter().take(2) {
        s.write(write);
    }
    let loaded = s.reopen().load().expect("load");
    assert_eq!(loaded.entries, three_entry_log()[..2].to_vec());
}

/// What a failed write was for stays out of memory, so a retry does not put it there twice.
#[test]
fn entry_is_taken_in_once_its_write_is_durable() {
    let mut s = SimulatedFiles::new();
    let entries = three_entry_log();
    let mut writes = s.cache.append(&entries);
    assert!(s.cache.load().entries.is_empty());
    s.write(writes.remove(0));
    s.cache.appended(&entries[0]);
    assert_eq!(s.cache.load().entries, entries[..1].to_vec());

    // The second write fails, and what is left is tried again.
    s.append(&entries[1..]).expect("append");
    assert_eq!(s.cache.load().entries, entries.to_vec());
    s.truncate_from(LogIndex::from(3)).expect("truncate");
    assert_eq!(s.files.entries, entries[..2].to_vec());
}

#[test]
fn snapshot_is_taken_in_once_it_is_durable() {
    let mut s = SimulatedFiles::new();
    s.append(&three_entry_log()).expect("append");
    let snapshot = test_snapshot(2, 1, vec![9]);
    let first = s.cache.begin_install(&snapshot, SuffixDisposition::Retain);
    assert!(matches!(first[0], FileWrite::Intent { .. }));
    assert!(matches!(first[1], FileWrite::Snapshot { .. }));
    assert!(s.cache.load().snapshot.is_none());
    assert_eq!(s.cache.load().entries.len(), 3);

    let rest = s.cache.install_snapshot(&snapshot, SuffixDisposition::Retain);
    assert!(matches!(rest[0], FileWrite::Rewrite { .. }));
    assert!(matches!(rest[1], FileWrite::ClearIntent));
    assert_eq!(s.cache.load().entries, three_entry_log()[2..].to_vec());
}

/// A discard below the stored boundary is all or nothing too.
#[test]
fn interrupted_discard_below_the_boundary_is_undone_or_finished() {
    let old = test_snapshot(3, 2, vec![1]);
    let new = test_snapshot(2, 9, vec![2]);
    for steps in 0..=4 {
        let mut s = SimulatedFiles::new();
        s.append(&three_entry_log()).expect("append");
        s.append(&[command(2, "SET tier=gold")]).expect("append");
        s.install_snapshot(&old, SuffixDisposition::Retain).expect("install");
        let mut writes = s.cache.begin_install(&new, SuffixDisposition::Discard);
        writes.extend(s.cache.install_snapshot(&new, SuffixDisposition::Discard));
        for write in writes.into_iter().take(steps) {
            s.write(write);
        }
        let loaded = s.reopen().load().expect("load");
        if steps < 2 {
            assert_eq!(loaded.snapshot.map(|snap| snap.meta.last_index), Some(LogIndex::from(3)));
            assert_eq!(loaded.entries, vec![command(2, "SET tier=gold")]);
        } else {
            assert_eq!(loaded.snapshot.map(|snap| snap.meta.last_index), Some(LogIndex::from(2)));
            assert!(loaded.entries.is_empty());
        }
    }
}

#[test]
fn intent_covers_a_snapshot_with_its_boundary() {
    let snapshot = test_snapshot(2, 9, vec![4, 2]);
    let intent = InstallIntent::new(&snapshot, SuffixDisposition::Discard);
    assert!(intent.covers(&test_snapshot(2, 9, vec![])));
    assert!(!intent.covers(&test_snapshot(2, 8, vec![])));
    assert!(!intent.covers(&test_snapshot(3, 9, vec![])));
}

fn command(term: u64, text: &str) -> LogEntry<String> {
    LogEntry {
        term: Term::from(term),
        payload: LogPayload::Command(text.into()),
    }
}

#[test]
fn file_storage_meta_survives_reopen() {
    let mut s = SimulatedFiles::new();
    s.set_meta(Term::from(7), None).expect("set term");
    s.set_meta(Term::from(7), Some(NodeId::from(2))).expect("set vote");
    let loaded = s.reopen().load().expect("load");
    assert_eq!(loaded.current_term, Term::from(7));
    assert_eq!(loaded.voted_for, Some(NodeId::from(2)));
}

#[test]
fn file_storage_log_survives_reopen() {
    let mut s = SimulatedFiles::new();
    s.append(&[command(1, "SET name=miles")]).expect("append");
    s.append(&[command(1, "SET counter=1")]).expect("append");
    let entries = s.reopen().load().expect("load").entries;
    assert_eq!(entries.len(), 2);
    assert_eq!(entries[0].payload, LogPayload::Command("SET name=miles".into()));
    assert_eq!(entries[1].payload, LogPayload::Command("SET counter=1".into()));
}

#[test]
fn file_storage_truncate_survives_reopen() {
    let mut s = SimulatedFiles::new();
    for cmd in ["SET name=miles", "SET counter=1", "SET price=100"] {
        s.append(&[command(1, cmd)]).expect("append");
    }
    s.truncate_from(LogIndex::from(2)).expect("truncate");
    let entries = s.reopen().load().expect("load").entries;
    assert_eq!(entries.len(), 1);
    assert_eq!(entries[0].payload, LogPayload::Command("SET name=miles".into()));
}

#[test]
fn conflict_replaces_entries_and_survives_reopen() {
    let mut s = SimulatedFiles::new();
    let mut state: PersistentState<String> = PersistentState::new();
    state.append_entry(command(1, "SET name=miles"));
    state.append_entry(command(1, "SET status=pending"));
    state.save(&mut s).expect("append");
    // Entry at index 2 conflicts (term 2 vs 1): truncate and replace.
    let outcome = state.merge_entries(LogIndex::from(1), vec![command(2, "SET status=active")]);
    assert_eq!(outcome, MergeOutcome::Truncated { from: LogIndex::from(2) });
    state.save(&mut s).expect("append_entries");
    let entries = s.reopen().load().expect("load").entries;
    assert_eq!(entries.len(), 2);
    assert_eq!(entries[1].payload, LogPayload::Command("SET status=active".into()));
}

#[test]
fn file_storage_noop_entry_round_trips() {
    let mut s = SimulatedFiles::new();
    s.append(&[LogEntry { term: Term::from(1), payload: LogPayload::NoOp }])
        .expect("append noop");
    let entries = s.reopen().load().expect("load").entries;
    assert_eq!(entries[0].payload, LogPayload::NoOp);
}
