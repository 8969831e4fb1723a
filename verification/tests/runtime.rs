use raft::Command;
use raft::Event;
use raft::LoadedState;
use raft::MemoryStorage;
use raft::Node;
use raft::Role;
use raft::Runtime;
use raft::RuntimeError;
use raft::SnapshotPolicy;
use raft::StateMachine;
use raft::Storage;
use raft::TimerConfig;
use raft::kv::KvCommand;
use raft::kv::KvCommandView;
use raft::kv::KvResult;
use raft::kv::KvStore;
use raft::runtime::NonZeroUsize;
use raft::state_machine::SnapshotBytes;
use raft::storage::StorageCallOf;
use raft::storage::StoredOf;
use raft::time::Clock;
use raft::time::Duration;
use raft::time::Instant;
use raft::types::AppendEntriesResponse;
use raft::types::ClusterConfig;
use raft::types::InstallSnapshot;
use raft::types::InstallSnapshotResponse;
use raft::types::LogEntry;
use raft::types::LogIndex;
use raft::types::Message;
use raft::types::NodeId;
use raft::types::RequestVote;
use raft::types::RequestVoteResponse;
use raft::types::Snapshot;
use raft::types::SnapshotData;
use raft::types::SnapshotMeta;
use raft::types::SocketAddr;
use raft::types::SuffixDisposition;
use raft::types::Term;
use raft::types::Vote;

type KvRuntime = Runtime<KvCommand, KvStore, MemoryStorage<KvCommand>>;

fn test_config(id: u64, peers: &[u64]) -> ClusterConfig {
    let members: Vec<(NodeId, SocketAddr)> = std::iter::once(id)
        .chain(peers.iter().copied())
        .map(|i| (NodeId::from(i), SocketAddr::V4 { ip: 0x7f00_0001, port: (9000 + i) as u16 }))
        .collect();
    ClusterConfig::new(members).unwrap()
}

fn runtime(id: u64, peers: &[u64]) -> KvRuntime {
    runtime_with_policy(id, peers, SnapshotPolicy::default())
}

fn runtime_with_policy(id: u64, peers: &[u64], snapshot_policy: SnapshotPolicy) -> KvRuntime {
    let node = Node::new(NodeId::from(id), test_config(id, peers));
    Runtime::new(
        node,
        KvStore::new(),
        MemoryStorage::new(),
        TimerConfig::default(),
        snapshot_policy,
    )
}

/// Elects `rt` leader in its 2-peer cluster: election plus one granted vote from peer 2 is already a
/// majority of 3, so peer 3 need never respond.
fn elect_leader(rt: &mut KvRuntime) {
    rt.handle(Event::ElectionTimeout).unwrap();
    rt.handle(Event::Message {
        from: NodeId::from(2),
        message: Message::RequestVoteResponse(RequestVoteResponse {
            term: Term::from(1),
            vote: Vote::Granted,
        }),
    })
    .unwrap();
}

/// Submits `command` and simulates peer 2 acking replication through the resulting index, advancing
/// (and applying) commit_index up to it.
fn submit_and_commit(rt: &mut KvRuntime, command: KvCommand) -> LogIndex {
    let index = rt.submit(command).unwrap();
    rt.handle(Event::Message {
        from: NodeId::from(2),
        message: Message::AppendEntriesResponse(AppendEntriesResponse::Accepted {
            term: Term::from(1),
            match_index: index,
        }),
    })
    .unwrap();
    index
}

#[test]
fn runtime_election_timeout_starts_election() {
    let mut rt = runtime(1, &[2, 3]);

    let commands = rt.handle(Event::ElectionTimeout).unwrap();

    assert!(matches!(rt.node().role(), Role::Candidate(_)));
    assert!(!commands.is_empty());
}

#[test]
fn runtime_leader_applies_committed_entries() {
    let mut rt = runtime(1, &[2, 3]);

    // Become leader.
    rt.handle(Event::ElectionTimeout).unwrap();
    rt.handle(Event::Message {
        from: NodeId::from(2),
        message: Message::RequestVoteResponse(RequestVoteResponse {
            term: Term::from(1),
            vote: Vote::Granted,
        }),
    })
    .unwrap();
    assert!(matches!(rt.node().role(), Role::Leader(_)));

    // Submit command.
    let index = rt.submit(KvCommand::Put {
        key: "username".to_string(),
        value: "miles".to_string(),
    });
    assert!(index.is_ok());

    // Simulate replication success (no-op at index 1, command at index 2).
    rt.handle(Event::Message {
        from: NodeId::from(2),
        message: Message::AppendEntriesResponse(AppendEntriesResponse::Accepted {
            term: Term::from(1),
            match_index: LogIndex::from(2),
        }),
    })
    .unwrap();

    // Verify command was applied to state machine.
    let result = rt.state_machine_mut().apply(KvCommand::Get {
        key: "username".to_string(),
    });
    assert_eq!(result, KvResult::Value(Some("miles".to_string())));
}

#[test]
fn runtime_take_outputs_returns_applied_results() {
    let mut rt = runtime(1, &[2, 3]);

    // Become leader.
    rt.handle(Event::ElectionTimeout).unwrap();
    rt.handle(Event::Message {
        from: NodeId::from(2),
        message: Message::RequestVoteResponse(RequestVoteResponse {
            term: Term::from(1),
            vote: Vote::Granted,
        }),
    })
    .unwrap();

    // Submit a command and replicate it (no-op at 1, command at 2).
    rt.submit(KvCommand::Put {
        key: "counter".to_string(),
        value: "1".to_string(),
    })
    .unwrap();
    rt.handle(Event::Message {
        from: NodeId::from(2),
        message: Message::AppendEntriesResponse(AppendEntriesResponse::Accepted {
            term: Term::from(1),
            match_index: LogIndex::from(2),
        }),
    })
    .unwrap();

    // take_outputs should return exactly the Set result at index 2.
    let outputs = rt.take_outputs();
    assert_eq!(outputs.len(), 1);
    assert_eq!(outputs[0].0, Term::from(1));
    assert_eq!(outputs[0].1, LogIndex::from(2));
    assert_eq!(outputs[0].2, KvResult::Done);

    // Subsequent call returns nothing until new commits arrive.
    assert!(rt.take_outputs().is_empty());
}

#[test]
fn runtime_from_storage_restores_persistent_state() {
    let mut rt = runtime(1, &[2, 3]);

    // Winning the election appends a no-op, which handle persists.
    rt.handle(Event::ElectionTimeout).unwrap();
    rt.handle(Event::Message {
        from: NodeId::from(2),
        message: Message::RequestVoteResponse(RequestVoteResponse {
            term: Term::from(1),
            vote: Vote::Granted,
        }),
    })
    .unwrap();

    // At this point storage holds: term=1, voted_for=1, log=[no-op@1].
    let expected_term = rt.node().persistent().current_term();
    let expected_log_len = rt.node().persistent().log().len();

    let storage = rt.into_storage();
    let restored = Runtime::from_storage(
        NodeId::from(1),
        test_config(1, &[2, 3]),
        KvStore::new(),
        storage,
        TimerConfig::default(),
        SnapshotPolicy::default(),
    )
    .unwrap();

    // Term and log are recovered from durable storage; node restarts as follower.
    assert_eq!(restored.node().persistent().current_term(), expected_term);
    assert_eq!(restored.node().persistent().log().len(), expected_log_len);
    assert!(matches!(restored.node().role(), Role::Follower(_)));
}

/// An un-jittered initial deadline means every node in a fresh
/// cluster times out at exactly the same instant, reliably producing a split vote
/// on cold start. Probabilistic: with jitter in [0, T) at millisecond granularity,
/// 20 identical-by-chance draws is astronomically unlikely.
#[test]
fn runtime_initial_election_deadline_is_randomized_not_fixed_at_exactly_t() {
    let base = TimerConfig::default().election_timeout;

    let saw_jitter = (0..20).any(|_| {
        let node = Node::new(NodeId::from(1), test_config(1, &[2, 3]));
        let rt: Runtime<KvCommand, KvStore, MemoryStorage<KvCommand>> = Runtime::new(
            node,
            KvStore::new(),
            MemoryStorage::new(),
            TimerConfig::default(),
            SnapshotPolicy::default(),
        );
        // 5ms comfortably exceeds constructor call overhead but is well inside the
        // [0, 300ms) jitter range, so this only trips on real jitter, not clock drift.
        rt.next_deadline().nanos > (base.nanos + Duration::from_millis(5).nanos) as u128
    });

    assert!(
        saw_jitter,
        "initial election deadline must be randomized in [T, 2T), not fixed at exactly T"
    );
}

#[test]
fn runtime_timer_reset_on_election_timeout() {
    let mut rt = runtime(1, &[2, 3]);

    // Comparing against the deadline from before the call would be flaky,
    // because the initial deadline is jittered too and a small draw here can
    // land before a large one there. The invariant that actually holds is
    // that handling an ElectionTimeout pushes the deadline at least one full
    // election timeout past the current instant.
    let before = rt.now();
    rt.handle(Event::ElectionTimeout).unwrap();

    assert!(
        rt.next_deadline().nanos >= before.nanos + TimerConfig::default().election_timeout.nanos as u128,
        "handling ElectionTimeout must reset the deadline to at least T in the future"
    );
}

#[test]
fn runtime_compacts_after_threshold_applies() {
    let mut rt = runtime_with_policy(
        1,
        &[2, 3],
        SnapshotPolicy {
            compact_threshold: NonZeroUsize::new(2),
        },
    );
    elect_leader(&mut rt);

    submit_and_commit(
        &mut rt,
        KvCommand::Put {
            key: "a".to_string(),
            value: "1".to_string(),
        },
    );
    submit_and_commit(
        &mut rt,
        KvCommand::Put {
            key: "b".to_string(),
            value: "2".to_string(),
        },
    );
    submit_and_commit(
        &mut rt,
        KvCommand::Put {
            key: "c".to_string(),
            value: "3".to_string(),
        },
    );

    // no-op@1 + "a"@2 cross the threshold and compact to 2; "b"@3 alone stays
    // below threshold; "c"@4 crosses it again relative to the new boundary.
    assert_eq!(
        rt.node().persistent().log().first_index(),
        LogIndex::from(5)
    );
    let loaded = rt.into_storage().load().unwrap();
    assert_eq!(
        loaded.snapshot.map(|s| s.meta.last_index),
        Some(LogIndex::from(4))
    );
}

#[test]
fn runtime_below_threshold_does_not_compact() {
    let mut rt = runtime_with_policy(
        1,
        &[2, 3],
        SnapshotPolicy {
            compact_threshold: NonZeroUsize::new(10),
        },
    );
    elect_leader(&mut rt);

    submit_and_commit(
        &mut rt,
        KvCommand::Put {
            key: "x".to_string(),
            value: "1".to_string(),
        },
    );
    submit_and_commit(
        &mut rt,
        KvCommand::Put {
            key: "y".to_string(),
            value: "2".to_string(),
        },
    );

    assert_eq!(
        rt.node().persistent().log().snapshot_last_index(),
        LogIndex::default()
    );
    assert!(rt.into_storage().load().unwrap().snapshot.is_none());
}

#[test]
fn no_policy_never_compacts() {
    let mut rt = runtime_with_policy(1, &[2, 3], SnapshotPolicy::default());
    elect_leader(&mut rt);

    for i in 0..5 {
        submit_and_commit(
            &mut rt,
            KvCommand::Put {
                key: format!("key-{i}"),
                value: format!("value-{i}"),
            },
        );
    }

    assert_eq!(
        rt.node().persistent().log().snapshot_last_index(),
        LogIndex::default()
    );
    assert!(rt.into_storage().load().unwrap().snapshot.is_none());
}

#[test]
fn from_storage_restores_state_machine_from_snapshot() {
    let mut rt = runtime_with_policy(
        1,
        &[2, 3],
        SnapshotPolicy {
            compact_threshold: NonZeroUsize::new(1),
        },
    );
    elect_leader(&mut rt);
    submit_and_commit(
        &mut rt,
        KvCommand::Put {
            key: "region".to_string(),
            value: "eu-west-1".to_string(),
        },
    );
    assert_eq!(
        rt.node().persistent().log().snapshot_last_index(),
        LogIndex::from(2),
        "threshold of 1 must have compacted after the first commit"
    );

    let storage = rt.into_storage();
    let mut restored = Runtime::from_storage(
        NodeId::from(1),
        test_config(1, &[2, 3]),
        KvStore::new(),
        storage,
        TimerConfig::default(),
        SnapshotPolicy::default(),
    )
    .unwrap();

    // The compacted entries are gone from the log, so the value can only
    // have come from the restored state machine.
    assert!(
        restored
            .node()
            .persistent()
            .log()
            .entry(LogIndex::from(1))
            .is_none()
    );
    assert_eq!(
        restored.state_machine_mut().apply(KvCommand::Get {
            key: "region".to_string()
        }),
        KvResult::Value(Some("eu-west-1".to_string()))
    );
}

#[test]
fn from_storage_replays_only_suffix_after_snapshot() {
    let mut rt = runtime_with_policy(
        1,
        &[2, 3],
        SnapshotPolicy {
            compact_threshold: NonZeroUsize::new(1),
        },
    );
    elect_leader(&mut rt);
    submit_and_commit(
        &mut rt,
        KvCommand::Put {
            key: "counter".to_string(),
            value: "1".to_string(),
        },
    );

    // Appended and persisted but never acknowledged, so it is still
    // uncommitted when the simulated crash happens.
    rt.submit(KvCommand::Put {
        key: "counter".to_string(),
        value: "2".to_string(),
    })
    .unwrap();
    rt.handle(Event::HeartbeatTimeout).unwrap();

    let storage = rt.into_storage();
    let mut restored = Runtime::from_storage(
        NodeId::from(1),
        test_config(1, &[2, 3]),
        KvStore::new(),
        storage,
        TimerConfig::default(),
        SnapshotPolicy::default(),
    )
    .unwrap();

    // Both positions must restart exactly at the snapshot boundary. At zero
    // the restored state machine would be replayed over; past the boundary
    // the uncommitted suffix entry would be treated as already applied.
    assert_eq!(restored.node().volatile().commit_index, LogIndex::from(2));
    assert_eq!(restored.node().volatile().last_applied, LogIndex::from(2));
    assert_eq!(
        restored.node().persistent().log().last_index(),
        LogIndex::from(3)
    );
    assert_eq!(
        restored.state_machine_mut().apply(KvCommand::Get {
            key: "counter".to_string()
        }),
        KvResult::Value(Some("1".to_string())),
        "the uncommitted suffix entry must not be applied on restart"
    );
}

#[test]
fn follower_runtime_restores_on_install_snapshot() {
    let mut rt = runtime(1, &[2, 3]);

    let mut source = KvStore::new();
    source.apply(KvCommand::Put {
        key: "region".to_string(),
        value: "eu-west-1".to_string(),
    });
    let data = source.snapshot().unwrap();

    let commands = rt
        .handle(Event::Message {
            from: NodeId::from(2),
            message: Message::InstallSnapshot(InstallSnapshot {
                term: Term::from(1),
                leader_id: NodeId::from(2),
                snapshot: Snapshot {
                    meta: SnapshotMeta {
                        last_index: LogIndex::from(5),
                        last_term: Term::from(1),
                        config: test_config(1, &[2, 3]),
                    },
                    data,
                },
            }),
        })
        .unwrap();

    assert!(commands.iter().any(|c| matches!(
        c,
        Command::Send {
            to,
            message: Message::InstallSnapshotResponse(InstallSnapshotResponse::Installed {
                last_index,
                ..
            }),
        } if *to == NodeId::from(2) && *last_index == LogIndex::from(5)
    )));
    assert_eq!(
        rt.state_machine_mut().apply(KvCommand::Get {
            key: "region".to_string()
        }),
        KvResult::Value(Some("eu-west-1".to_string()))
    );
}

#[test]
fn compaction_does_not_trip_stepped_down() {
    let mut rt = runtime_with_policy(
        1,
        &[2, 3],
        SnapshotPolicy {
            compact_threshold: NonZeroUsize::new(1),
        },
    );
    elect_leader(&mut rt);

    submit_and_commit(
        &mut rt,
        KvCommand::Put {
            key: "x".to_string(),
            value: "1".to_string(),
        },
    );

    assert_eq!(
        rt.node().persistent().log().snapshot_last_index(),
        LogIndex::from(2),
        "precondition: this commit must have triggered a compaction"
    );
    assert!(!rt.take_stepped_down());
}

fn assembled(now: u128, jitter_ms: u64) -> KvRuntime {
    Runtime::assemble(
        Node::new(NodeId::from(1), test_config(1, &[2, 3])),
        KvStore::new(),
        MemoryStorage::new(),
        TimerConfig::default(),
        SnapshotPolicy::default(),
        Clock::start(),
        Instant { nanos: now },
        jitter_ms,
    )
}

#[test]
fn deadlines_are_one_timeout_and_the_jitter_away() {
    let mut rt = assembled(1_000, 7);
    assert_eq!(rt.next_deadline(), Instant { nanos: 1_000 + 307_000_000 });
    assert!(rt.poll_timers_at(Instant { nanos: 307_000_999 }).is_none());
    assert!(matches!(
        rt.poll_timers_at(Instant { nanos: 307_001_000 }),
        Some(Event::ElectionTimeout)
    ));

    rt.handle_at(Event::ElectionTimeout, Instant { nanos: 400_000_000 }, 12).unwrap();
    assert_eq!(rt.next_deadline(), Instant { nanos: 712_000_000 });

    // Winning the election arms the heartbeat interval, which a leader watches.
    rt.handle_at(
        Event::Message {
            from: NodeId::from(2),
            message: Message::RequestVoteResponse(RequestVoteResponse {
                term: Term::from(1),
                vote: Vote::Granted,
            }),
        },
        Instant { nanos: 500_000_000 },
        0,
    )
    .unwrap();
    assert_eq!(rt.next_deadline(), Instant { nanos: 600_000_000 });
    assert!(matches!(
        rt.poll_timers_at(Instant { nanos: 600_000_000 }),
        Some(Event::HeartbeatTimeout)
    ));
}

#[test]
fn stepping_down_is_noted_once() {
    let mut rt = runtime(1, &[2, 3]);
    elect_leader(&mut rt);
    assert!(!rt.take_stepped_down());
    rt.handle(Event::Message {
        from: NodeId::from(3),
        message: Message::RequestVote(RequestVote {
            term: Term::from(9),
            candidate_id: NodeId::from(3),
            last_log_index: LogIndex::from(9),
            last_log_term: Term::from(8),
        }),
    })
    .unwrap();
    assert!(rt.take_stepped_down());
    assert!(!rt.take_stepped_down());
}

#[test]
fn snapshot_that_cannot_be_read_is_a_state_machine_error() {
    let mut rt = runtime(1, &[2, 3]);
    let result = rt.handle(Event::Message {
        from: NodeId::from(2),
        message: Message::InstallSnapshot(InstallSnapshot {
            term: Term::from(1),
            leader_id: NodeId::from(2),
            snapshot: Snapshot {
                meta: SnapshotMeta {
                    last_index: LogIndex::from(5),
                    last_term: Term::from(1),
                    config: test_config(1, &[2, 3]),
                },
                data: SnapshotData::new(b"not valid json".to_vec()),
            },
        }),
    });
    assert!(matches!(result, Err(RuntimeError::StateMachine(_))));

    let restarted = Runtime::from_storage(
        NodeId::from(1),
        test_config(1, &[2, 3]),
        KvStore::new(),
        rt.into_storage(),
        TimerConfig::default(),
        SnapshotPolicy::default(),
    );
    assert!(matches!(restarted.err(), Some(RuntimeError::StateMachine(_))));
}

#[test]
fn event_that_does_not_fit_is_not_accepted() {
    let rt = runtime(1, &[2, 3]);
    assert!(rt.accepts(&Event::ElectionTimeout));
    let event = Event::Message {
        from: NodeId::from(2),
        message: Message::InstallSnapshot(InstallSnapshot {
            term: Term::from(1),
            leader_id: NodeId::from(2),
            snapshot: Snapshot {
                meta: SnapshotMeta {
                    last_index: LogIndex::from(u64::MAX),
                    last_term: Term::from(1),
                    config: test_config(1, &[2, 3]),
                },
                data: SnapshotData::new(vec![]),
            },
        }),
    };
    assert!(!rt.accepts(&event));
}

#[test]
fn durations_count_milliseconds() {
    assert_eq!(Duration::from_millis(300).nanos, 300_000_000);
    assert_eq!(Duration { nanos: 1_999_999 }.as_millis(), 1);
    assert_eq!(
        Instant { nanos: 9 }.saturating_duration_since(Instant { nanos: 4 }),
        5
    );
    assert_eq!(
        Instant { nanos: 4 }.saturating_duration_since(Instant { nanos: 9 }),
        0
    );
    assert!(NonZeroUsize::new(0).is_none());
    assert_eq!(NonZeroUsize::new(3).unwrap().get(), 3);
}

/// A state machine that counts what is applied to it and cannot be snapshotted.
#[derive(Default)]
struct Unwritable {
    applied: usize,
}

impl StateMachine<KvCommand> for Unwritable {
    type Output = usize;

    type SnapshotError = &'static str;

    type State = ();

    fn state(&self) {
        unreachable!("only stated, never run")
    }

    fn next_state(_state: (), _command: KvCommandView) {
        unreachable!("only stated, never run")
    }

    fn answers(_state: (), _command: KvCommandView, _output: usize) -> bool {
        unreachable!("only stated, never run")
    }

    fn decoded(_data: SnapshotBytes) -> Option<()> {
        unreachable!("only stated, never run")
    }

    fn refuses(_data: SnapshotBytes, _error: &'static str) -> bool {
        unreachable!("only stated, never run")
    }

    fn apply(&mut self, _command: KvCommand) -> usize {
        self.applied += 1;
        self.applied
    }

    fn snapshot(&self) -> Result<SnapshotData, &'static str> {
        Err("no snapshot")
    }

    fn restore(&mut self, _data: &SnapshotData) -> Result<(), &'static str> {
        Err("no restore")
    }
}

/// Storage in memory that fails to install snapshots for as long as it is told to.
struct NoSnapshots {
    inner: MemoryStorage<KvCommand>,
    failures: usize,
}

impl Storage<KvCommand> for NoSnapshots {
    type Error = &'static str;

    fn stored(&self) -> StoredOf<KvCommand> {
        unreachable!("only stated, never run")
    }

    fn may_answer(
        &self,
        _call: StorageCallOf<KvCommand>,
        _result: Result<(), Self::Error>,
        _after: Self,
    ) -> bool {
        unreachable!("only stated, never run")
    }

    fn load(&self) -> Result<LoadedState<KvCommand>, Self::Error> {
        Ok(self.inner.load().unwrap())
    }

    fn set_meta(&mut self, term: Term, voted_for: Option<NodeId>) -> Result<(), Self::Error> {
        self.inner.set_meta(term, voted_for).unwrap();
        Ok(())
    }

    fn truncate_from(&mut self, index: LogIndex) -> Result<(), Self::Error> {
        self.inner.truncate_from(index).unwrap();
        Ok(())
    }

    fn append(&mut self, entries: &[LogEntry<KvCommand>]) -> Result<(), Self::Error> {
        self.inner.append(entries).unwrap();
        Ok(())
    }

    fn install_snapshot(
        &mut self,
        snapshot: &Snapshot,
        disposition: SuffixDisposition,
    ) -> Result<(), Self::Error> {
        if self.failures > 0 {
            self.failures -= 1;
            return Err("no room");
        }
        self.inner.install_snapshot(snapshot, disposition).unwrap();
        Ok(())
    }
}

/// A single-node runtime that compacts after every entry.
fn compacting<S: StateMachine<KvCommand>, St: Storage<KvCommand>>(
    machine: S,
    storage: St,
) -> Runtime<KvCommand, S, St> {
    Runtime::new(
        Node::new(NodeId::from(1), test_config(1, &[])),
        machine,
        storage,
        TimerConfig::default(),
        SnapshotPolicy {
            compact_threshold: NonZeroUsize::new(1),
        },
    )
}

#[test]
fn snapshot_that_cannot_be_taken_is_reported_and_compacts_nothing() {
    let mut rt = compacting(Unwritable::default(), MemoryStorage::new());
    let result = rt.handle(Event::ElectionTimeout);
    assert!(matches!(result, Err(RuntimeError::StateMachine("no snapshot"))));
    assert_eq!(rt.node().volatile().last_applied, LogIndex::from(1));
    assert_eq!(rt.node().persistent().log().snapshot_last_index(), LogIndex::default());
    let loaded = rt.into_storage().load().unwrap();
    assert!(loaded.snapshot.is_none());
    assert_eq!(loaded.entries.len(), 1);
}

#[test]
fn compaction_that_cannot_be_saved_is_reported_and_saved_later() {
    let storage = NoSnapshots { inner: MemoryStorage::new(), failures: 1 };
    let mut rt = compacting(KvStore::new(), storage);
    let result = rt.handle(Event::ElectionTimeout);
    assert!(matches!(result, Err(RuntimeError::Storage("no room"))));
    assert_eq!(rt.node().persistent().log().snapshot_last_index(), LogIndex::from(1));

    rt.handle(Event::HeartbeatTimeout).unwrap();
    let loaded = rt.into_storage().load().unwrap();
    assert_eq!(loaded.snapshot.map(|s| s.meta.last_index), Some(LogIndex::from(1)));
    assert!(loaded.entries.is_empty());
}
