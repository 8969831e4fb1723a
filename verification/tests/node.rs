use raft::Command;
use raft::LoadedState;
use raft::MemoryStorage;
use raft::Node;
use raft::NotLeaderError;
use raft::Role;
use raft::Storage;
use raft::SubmitError;
use raft::node::CompactError;
use raft::node::NodeState;
use raft::persistent::PersistentState;
use raft::state::Leader;
use raft::storage::StorageCallOf;
use raft::storage::StoredOf;
use raft::storage::file::FileCache;
use raft::storage::file::FileWrite;
use raft::storage::file::Files;
use raft::types::AppendEntries;
use raft::types::AppendEntriesResponse;
use raft::types::ClusterConfig;
use raft::types::InstallSnapshot;
use raft::types::InstallSnapshotResponse;
use raft::types::LogEntry;
use raft::types::LogIndex;
use raft::types::LogPayload;
use raft::types::Message;
use raft::types::NodeId;
use raft::types::RequestVote;
use raft::types::RequestVoteResponse;
use raft::types::Snapshot;
use raft::types::SnapshotData;
use raft::types::SnapshotMeta;
use raft::types::SocketAddr;
use raft::types::SuffixDisposition;
use raft::types::Term;
use raft::types::Vote;

fn test_addr(id: u64) -> SocketAddr {
    SocketAddr::V4 { ip: 0x7f00_0001, port: (9000 + id) as u16 }
}

fn test_config(id: u64, peer_ids: &[u64]) -> ClusterConfig {
    let members = std::iter::once(id)
        .chain(peer_ids.iter().copied())
        .map(|i| (NodeId::from(i), test_addr(i)))
        .collect();
    ClusterConfig::new(members).unwrap()
}

fn node(id: u64, peers: &[u64]) -> Node<String> {
    Node::new(NodeId::from(id), test_config(id, peers))
}

fn is_follower(node: &Node<String>) -> bool {
    matches!(node.role(), Role::Follower(_))
}

fn is_candidate(node: &Node<String>) -> bool {
    matches!(node.role(), Role::Candidate(_))
}

fn is_leader(node: &Node<String>) -> bool {
    matches!(node.role(), Role::Leader(_))
}

/// Takes the node apart, lets `change` work on its state, and puts it together again.
fn alter(n: &mut Node<String>, change: impl FnOnce(&mut NodeState<String>)) {
    let taken = std::mem::replace(n, node(1, &[]));
    let mut state = taken.into_state();
    change(&mut state);
    *n = Node::from_state(state);
}

fn push_entry(n: &mut Node<String>, entry: LogEntry<String>) {
    alter(n, |state| {
        state.persistent.append_entry(entry);
    });
}

fn force_term(n: &mut Node<String>, term: Term) {
    alter(n, |state| state.persistent.set_term(term));
}

fn force_vote(n: &mut Node<String>, candidate: NodeId) {
    alter(n, |state| state.persistent.set_voted_for(Some(candidate)));
}

fn commit_to(n: &mut Node<String>, index: LogIndex) {
    alter(n, |state| state.volatile.commit_index = index);
}

fn apply_to(n: &mut Node<String>, index: LogIndex) {
    alter(n, |state| state.volatile.last_applied = index);
}

fn lead_from(n: &mut Node<String>, last: LogIndex) {
    alter(n, |state| {
        state.role = Role::Leader(Leader::new(&state.config.peer_ids(state.id), last));
    });
}

fn extract_vote_granted(cmds: &[Command<String>]) -> bool {
    cmds.iter()
        .find_map(|c| match c {
            Command::Send {
                message: Message::RequestVoteResponse(r),
                ..
            } => Some(r.vote == Vote::Granted),
            _ => None,
        })
        .unwrap()
}

fn extract_append_success(cmds: &[Command<String>]) -> bool {
    cmds.iter()
        .find_map(|c| match c {
            Command::Send {
                message: Message::AppendEntriesResponse(r),
                ..
            } => Some(matches!(r, AppendEntriesResponse::Accepted { .. })),
            _ => None,
        })
        .unwrap()
}

fn make_leader(id: u64, peers: &[u64]) -> Node<String> {
    let mut n = node(id, peers);
    n.election_timeout();
    for &peer in peers {
        n.handle_request_vote_response(
            NodeId::from(peer),
            RequestVoteResponse {
                term: Term::from(1),
                vote: Vote::Granted,
            },
        );
    }
    n
}

fn test_snapshot(last_index: u64, last_term: u64, config: ClusterConfig) -> Snapshot {
    Snapshot {
        meta: SnapshotMeta {
            last_index: LogIndex::from(last_index),
            last_term: Term::from(last_term),
            config,
        },
        data: SnapshotData::new(vec![1, 2, 3]),
    }
}

/// Two entries appended and made durable, then compacted through index 1, so that the log retains
/// exactly entry 2 above a snapshot boundary at 1.
fn compacted_state_with_one_retained_entry<S: Storage<String>>(
    storage: &mut S,
) -> PersistentState<String>
where
    S::Error: std::fmt::Debug,
{
    let mut persistent: PersistentState<String> = PersistentState::new();
    persistent.set_term(Term::from(1));
    persistent.set_voted_for(Some(NodeId::from(1)));
    persistent.append_entry(LogEntry {
        term: Term::from(1),
        payload: LogPayload::Command("SET name=miles".to_string()),
    });
    persistent.append_entry(LogEntry {
        term: Term::from(1),
        payload: LogPayload::Command("SET status=pending".to_string()),
    });
    persistent.save(storage).unwrap();

    let snapshot = Snapshot {
        meta: SnapshotMeta {
            last_index: LogIndex::from(1),
            last_term: Term::from(1),
            config: test_config(1, &[2, 3]),
        },
        data: SnapshotData::new(b"name=miles".to_vec()),
    };
    persistent.install_snapshot(snapshot, SuffixDisposition::Retain);
    persistent.save(storage).unwrap();

    persistent
}

/// Storage whose files are values, so that closing and opening it again goes through exactly what
/// has been written.
struct SimulatedFiles {
    files: Files<String>,
    cache: FileCache<String>,
}

fn no_files() -> Files<String> {
    Files {
        current_term: Term::default(),
        voted_for: None,
        snapshot: None,
        first_index: LogIndex::from(1),
        entries: Vec::new(),
        intent: None,
    }
}

fn copy_files(files: &Files<String>) -> Files<String> {
    Files {
        current_term: files.current_term,
        voted_for: files.voted_for,
        snapshot: files.snapshot.clone(),
        first_index: files.first_index,
        entries: files.entries.clone(),
        intent: files.intent,
    }
}

impl SimulatedFiles {
    fn new() -> Self {
        let (cache, writes) = FileCache::open(no_files());
        assert!(writes.is_empty());
        SimulatedFiles { files: no_files(), cache }
    }

    fn write(&mut self, writes: Vec<FileWrite<String>>) {
        for write in writes {
            match write {
                FileWrite::Meta { term, voted_for } => {
                    self.files.current_term = term;
                    self.files.voted_for = voted_for;
                }
                FileWrite::Snapshot { snapshot } => self.files.snapshot = Some(snapshot),
                FileWrite::Intent { intent } => self.files.intent = Some(intent),
                FileWrite::Append { entry } => self.files.entries.push(entry),
                FileWrite::Rewrite { first_index, entries } => {
                    self.files.first_index = first_index;
                    self.files.entries = entries;
                }
                FileWrite::ClearIntent => self.files.intent = None,
            }
        }
    }

    fn reopen(&self) -> Self {
        let (cache, writes) = FileCache::open(copy_files(&self.files));
        let mut reopened = SimulatedFiles { files: copy_files(&self.files), cache };
        reopened.write(writes);
        reopened
    }
}

impl Storage<String> for SimulatedFiles {
    type Error = std::convert::Infallible;

    fn stored(&self) -> StoredOf<String> {
        unreachable!("only stated, never run")
    }

    fn may_answer(
        &self,
        _call: StorageCallOf<String>,
        _result: Result<(), Self::Error>,
        _after: Self,
    ) -> bool {
        unreachable!("only stated, never run")
    }

    fn load(&self) -> Result<LoadedState<String>, Self::Error> {
        Ok(self.cache.load())
    }

    fn set_meta(&mut self, term: Term, voted_for: Option<NodeId>) -> Result<(), Self::Error> {
        let writes = self.cache.set_meta(term, voted_for);
        self.write(writes);
        Ok(())
    }

    fn truncate_from(&mut self, index: LogIndex) -> Result<(), Self::Error> {
        let writes = self.cache.truncate_from(index);
        self.write(writes);
        Ok(())
    }

    fn append(&mut self, entries: &[LogEntry<String>]) -> Result<(), Self::Error> {
        let writes = self.cache.append(entries);
        for (write, entry) in writes.into_iter().zip(entries) {
            self.write(vec![write]);
            self.cache.appended(entry);
        }
        Ok(())
    }

    fn install_snapshot(
        &mut self,
        snapshot: &Snapshot,
        disposition: SuffixDisposition,
    ) -> Result<(), Self::Error> {
        let first = self.cache.begin_install(snapshot, disposition);
        self.write(first);
        let rest = self.cache.install_snapshot(snapshot, disposition);
        self.write(rest);
        Ok(())
    }
}

#[test]
fn node_new_node_is_follower() {
    let n = node(1, &[2, 3]);
    assert!(is_follower(&n));
    assert_eq!(n.persistent().current_term(), Term::default());
    assert_eq!(n.persistent().voted_for(), None);
}

#[test]
fn node_election_timeout_starts_election() {
    let mut n = node(1, &[2, 3]);
    let commands = n.election_timeout();

    assert!(is_candidate(&n));
    assert_eq!(n.persistent().current_term(), Term::from(1));
    assert_eq!(n.persistent().voted_for(), Some(NodeId::from(1)));

    let send_count = commands
        .iter()
        .filter(|c| matches!(c, Command::Send { .. }))
        .count();
    assert_eq!(send_count, 2);
}

#[test]
fn node_candidate_becomes_leader_with_majority() {
    let mut n = node(1, &[2, 3]);
    n.election_timeout();

    let resp = RequestVoteResponse {
        term: Term::from(1),
        vote: Vote::Granted,
    };
    n.handle_request_vote_response(NodeId::from(2), resp);

    assert!(is_leader(&n));
}

#[test]
fn node_candidate_stays_candidate_without_majority() {
    let mut n = node(1, &[2, 3, 4, 5]);
    n.election_timeout();

    let resp = RequestVoteResponse {
        term: Term::from(1),
        vote: Vote::Granted,
    };
    n.handle_request_vote_response(NodeId::from(2), resp);

    assert!(is_candidate(&n));
}

#[test]
fn node_node_rejects_vote_if_already_voted() {
    let mut n = node(1, &[2, 3]);

    let req1 = RequestVote {
        term: Term::from(1),
        candidate_id: NodeId::from(2),
        last_log_index: LogIndex::default(),
        last_log_term: Term::default(),
    };
    let cmds = n.handle_request_vote(NodeId::from(2), req1);
    assert!(extract_vote_granted(&cmds));

    let req2 = RequestVote {
        term: Term::from(1),
        candidate_id: NodeId::from(3),
        last_log_index: LogIndex::default(),
        last_log_term: Term::default(),
    };
    let cmds = n.handle_request_vote(NodeId::from(3), req2);
    assert!(!extract_vote_granted(&cmds));
}

#[test]
fn node_node_grants_vote_in_new_term() {
    let mut n = node(1, &[2, 3]);
    force_term(&mut n, Term::from(1));
    force_vote(&mut n, NodeId::from(2));

    let req = RequestVote {
        term: Term::from(2),
        candidate_id: NodeId::from(3),
        last_log_index: LogIndex::default(),
        last_log_term: Term::default(),
    };
    let cmds = n.handle_request_vote(NodeId::from(3), req);
    assert!(extract_vote_granted(&cmds));
}

#[test]
fn node_node_rejects_vote_with_stale_log() {
    let mut n = node(1, &[2, 3]);
    push_entry(&mut n, LogEntry {
        term: Term::from(2),
        payload: LogPayload::Command("SET name=miles".to_string()),
    });

    let req = RequestVote {
        term: Term::from(2),
        candidate_id: NodeId::from(2),
        last_log_index: LogIndex::default(),
        last_log_term: Term::default(),
    };
    let cmds = n.handle_request_vote(NodeId::from(2), req);
    assert!(!extract_vote_granted(&cmds));
}

#[test]
fn node_append_entries_resets_election_timer() {
    let mut n = node(1, &[2, 3]);

    let req = AppendEntries {
        term: Term::from(1),
        leader_id: NodeId::from(2),
        prev_log_index: LogIndex::default(),
        prev_log_term: Term::default(),
        entries: vec![],
        leader_commit: LogIndex::default(),
    };
    let cmds = n.handle_append_entries(NodeId::from(2), req);

    assert!(
        cmds.iter()
            .any(|c| matches!(c, Command::ResetElectionTimer))
    );
}

#[test]
fn node_append_entries_rejects_stale_term() {
    let mut n = node(1, &[2, 3]);
    force_term(&mut n, Term::from(5));

    let req = AppendEntries {
        term: Term::from(3),
        leader_id: NodeId::from(2),
        prev_log_index: LogIndex::default(),
        prev_log_term: Term::default(),
        entries: vec![],
        leader_commit: LogIndex::default(),
    };
    let cmds = n.handle_append_entries(NodeId::from(2), req);
    assert!(!extract_append_success(&cmds));
}

#[test]
fn node_append_entries_appends_new_entries() {
    let mut n = node(1, &[2, 3]);

    let req = AppendEntries {
        term: Term::from(1),
        leader_id: NodeId::from(2),
        prev_log_index: LogIndex::default(),
        prev_log_term: Term::default(),
        entries: vec![
            LogEntry {
                term: Term::from(1),
                payload: LogPayload::Command("a".to_string()),
            },
            LogEntry {
                term: Term::from(1),
                payload: LogPayload::Command("b".to_string()),
            },
        ],
        leader_commit: LogIndex::default(),
    };
    n.handle_append_entries(NodeId::from(2), req);

    assert_eq!(n.persistent().log().len(), 2);
}

#[test]
fn node_append_entries_truncates_on_conflict() {
    let mut n = node(1, &[2, 3]);
    push_entry(&mut n, LogEntry {
        term: Term::from(1),
        payload: LogPayload::Command("SET name=miles".to_string()),
    });
    push_entry(&mut n, LogEntry {
        term: Term::from(1),
        payload: LogPayload::Command("SET status=pending".to_string()),
    });

    let req = AppendEntries {
        term: Term::from(2),
        leader_id: NodeId::from(2),
        prev_log_index: LogIndex::from(1),
        prev_log_term: Term::from(1),
        entries: vec![LogEntry {
            term: Term::from(2),
            payload: LogPayload::Command("SET status=active".to_string()),
        }],
        leader_commit: LogIndex::default(),
    };
    n.handle_append_entries(NodeId::from(2), req);

    assert_eq!(n.persistent().log().len(), 2);
    let entry = n.persistent().log().entry(LogIndex::from(2)).unwrap();
    assert_eq!(
        entry.payload,
        LogPayload::Command("SET status=active".to_string())
    );
    assert_eq!(entry.term, Term::from(2));
}

#[test]
fn node_higher_term_converts_to_follower() {
    let mut n = node(1, &[2, 3]);
    n.election_timeout();
    assert!(is_candidate(&n));

    let req = AppendEntries {
        term: Term::from(5),
        leader_id: NodeId::from(2),
        prev_log_index: LogIndex::default(),
        prev_log_term: Term::default(),
        entries: vec![],
        leader_commit: LogIndex::default(),
    };
    n.handle_append_entries(NodeId::from(2), req);

    assert!(is_follower(&n));
    assert_eq!(n.persistent().current_term(), Term::from(5));
}

#[test]
fn node_leader_advances_commit_index_on_majority() {
    let mut n = node(1, &[2, 3]);
    n.election_timeout();
    n.handle_request_vote_response(
        NodeId::from(2),
        RequestVoteResponse {
            term: Term::from(1),
            vote: Vote::Granted,
        },
    );
    assert!(is_leader(&n));

    // Submit a command (no-op is at index 1, command at index 2).
    let index = n.submit_command("SET counter=1".to_string());
    assert_eq!(index, Ok(LogIndex::from(2)));

    // Simulate successful replication of no-op to one follower.
    n.handle_append_entries_response(
        NodeId::from(2),
        AppendEntriesResponse::Accepted {
            term: Term::from(1),
            match_index: LogIndex::from(1),
        },
    );

    // The no-op at index 1 belongs to the current term, so a majority match
    // there is enough to advance the commit index.
    assert_eq!(n.volatile().commit_index, LogIndex::from(1));
}

#[test]
fn node_leader_decrements_next_index_on_failure() {
    let mut n = node(1, &[2, 3]);
    n.election_timeout();
    n.handle_request_vote_response(
        NodeId::from(2),
        RequestVoteResponse {
            term: Term::from(1),
            vote: Vote::Granted,
        },
    );
    assert!(is_leader(&n));

    // Add entries to leader's log.
    n.submit_command("SET name=miles".to_string()).unwrap();
    n.submit_command("SET counter=1".to_string()).unwrap();

    let Role::Leader(leader) = n.role() else {
        panic!("expected leader");
    };
    let initial_next = leader.next_index_for(NodeId::from(2)).unwrap();

    // Simulate failed replication.
    n.handle_append_entries_response(
        NodeId::from(2),
        AppendEntriesResponse::Rejected {
            term: Term::from(1),
        },
    );

    let Role::Leader(leader) = n.role() else {
        panic!("expected leader");
    };
    let new_next = leader.next_index_for(NodeId::from(2)).unwrap();

    assert!(new_next < initial_next);
}

#[test]
fn node_submit_command_fails_on_non_leader() {
    let mut n = node(1, &[2, 3]);
    assert!(n.submit_command("SET counter=1".to_string()).is_err());

    n.election_timeout();
    assert!(n.submit_command("SET counter=1".to_string()).is_err());
}

/// A follower that has heard from a leader must surface it as a redirect hint
/// so the client can retry there instead of guessing.
#[test]
fn node_submit_command_on_follower_returns_known_leader_hint() {
    let mut n = node(1, &[2, 3]);
    let req = AppendEntries {
        term: Term::from(1),
        leader_id: NodeId::from(2),
        prev_log_index: LogIndex::default(),
        prev_log_term: Term::default(),
        entries: vec![],
        leader_commit: LogIndex::default(),
    };
    n.handle_append_entries(NodeId::from(2), req);
    assert!(is_follower(&n));

    let result = n.submit_command("SET counter=1".to_string());
    assert_eq!(
        result,
        Err(NotLeaderError {
            leader_hint: Some(NodeId::from(2))
        })
    );
}

/// A candidate has no leader to redirect to this term.
#[test]
fn node_submit_command_on_candidate_returns_no_leader_hint() {
    let mut n = node(1, &[2, 3, 4, 5]);
    n.election_timeout();
    assert!(is_candidate(&n));

    let result = n.submit_command("SET counter=1".to_string());
    assert_eq!(result, Err(NotLeaderError { leader_hint: None }));
}

#[test]
fn node_leader_does_not_commit_entries_from_previous_term() {
    let mut n = node(1, &[2, 3]);
    force_term(&mut n, Term::from(2));
    force_vote(&mut n, NodeId::from(1));
    push_entry(&mut n, LogEntry {
        term: Term::from(1),
        payload: LogPayload::Command("SET name=miles".to_string()),
    });
    lead_from(&mut n, LogIndex::from(1));

    // Peer 2 reports it has replicated the old entry.
    n.handle_append_entries_response(
        NodeId::from(2),
        AppendEntriesResponse::Accepted {
            term: Term::from(2),
            match_index: LogIndex::from(1),
        },
    );

    // Must not commit: entry at index 1 is from term 1, not currentTerm 2.
    assert_eq!(n.volatile().commit_index, LogIndex::default());
}

#[test]
fn node_take_entry_to_apply_returns_committed_entries() {
    let mut n = node(1, &[2, 3]);

    push_entry(&mut n, LogEntry {
        term: Term::from(1),
        payload: LogPayload::Command("SET name=miles".to_string()),
    });
    push_entry(&mut n, LogEntry {
        term: Term::from(1),
        payload: LogPayload::Command("SET counter=1".to_string()),
    });

    commit_to(&mut n, LogIndex::from(1));

    assert!(n.has_pending_applies());
    let applied = n.take_entry_to_apply().unwrap();
    assert_eq!(applied.index, LogIndex::from(1));
    assert_eq!(applied.command, &"SET name=miles".to_string());
    assert!(!n.has_pending_applies());
    assert!(n.take_entry_to_apply().is_none());

    commit_to(&mut n, LogIndex::from(2));

    assert!(n.has_pending_applies());
    let applied = n.take_entry_to_apply().unwrap();
    assert_eq!(applied.index, LogIndex::from(2));
    assert_eq!(applied.command, &"SET counter=1".to_string());
    assert!(!n.has_pending_applies());
}

#[test]
fn node_take_entry_to_apply_advances_last_applied() {
    let mut n = node(1, &[2, 3]);

    push_entry(&mut n, LogEntry {
        term: Term::from(1),
        payload: LogPayload::Command("SET counter=1".to_string()),
    });
    commit_to(&mut n, LogIndex::from(1));

    assert_eq!(n.volatile().last_applied, LogIndex::default());
    n.take_entry_to_apply();
    assert_eq!(n.volatile().last_applied, LogIndex::from(1));
}

#[test]
fn node_become_leader_appends_noop_entry() {
    let mut n = node(1, &[2, 3]);
    n.election_timeout();
    n.handle_request_vote_response(
        NodeId::from(2),
        RequestVoteResponse {
            term: Term::from(1),
            vote: Vote::Granted,
        },
    );

    assert!(is_leader(&n));
    assert_eq!(n.persistent().log().len(), 1);
    let entry = n.persistent().log().entry(LogIndex::from(1)).unwrap();
    assert!(matches!(entry.payload, LogPayload::NoOp));
    assert_eq!(entry.term, Term::from(1));
}

#[test]
fn single_node_leader_commits_its_noop_on_election() {
    let mut n = node(1, &[]);

    n.election_timeout();

    assert!(is_leader(&n), "a lone member is its own majority");
    assert_eq!(n.persistent().log().last_index(), LogIndex::from(1));
    assert_eq!(
        n.volatile().commit_index,
        LogIndex::from(1),
        "no peer will ever acknowledge, so the local append is the quorum"
    );
}

#[test]
fn single_node_leader_commits_and_applies_a_submitted_command() {
    let mut n = node(1, &[]);
    n.election_timeout();

    let index = n.submit_command("SET price=1250".to_string()).unwrap();

    assert_eq!(index, LogIndex::from(2));
    assert_eq!(n.volatile().commit_index, LogIndex::from(2));

    let applied = n.take_entry_to_apply().unwrap();
    assert_eq!(applied.index, LogIndex::from(2));
    assert_eq!(applied.command, &"SET price=1250".to_string());
}

#[test]
fn single_node_leader_commits_its_own_config_change() {
    let mut n = node(1, &[]);
    n.election_timeout();

    let index = n.propose_config_change(test_config(1, &[])).unwrap();

    assert_eq!(index, LogIndex::from(2));
    assert_eq!(n.volatile().commit_index, LogIndex::from(2));
    assert!(
        n.take_entry_to_apply().is_none(),
        "a ConfigChange is not a state-machine command"
    );
    assert_eq!(
        n.take_committed_config_changes(),
        vec![(LogIndex::from(2), test_config(1, &[]))]
    );
}

#[test]
fn single_node_leader_can_compact_the_entries_it_committed_alone() {
    let mut n = node(1, &[]);
    n.election_timeout();
    n.submit_command("SET price=1250".to_string()).unwrap();
    while n.take_entry_to_apply().is_some() {}

    let snapshot = n.compact_to_snapshot(SnapshotData::new(vec![1])).unwrap();

    assert_eq!(snapshot.meta.last_index, LogIndex::from(2));
    assert_eq!(n.persistent().log().snapshot_last_index(), LogIndex::from(2));
}

#[test]
fn multi_node_leader_does_not_commit_its_noop_before_any_peer_acknowledges() {
    let mut n = node(1, &[2, 3]);
    n.election_timeout();
    n.handle_request_vote_response(
        NodeId::from(2),
        RequestVoteResponse {
            term: Term::from(1),
            vote: Vote::Granted,
        },
    );

    assert!(is_leader(&n));
    assert_eq!(
        n.volatile().commit_index,
        LogIndex::default(),
        "two of three logs still lack the no-op"
    );
}

#[test]
fn multi_node_leader_does_not_commit_a_submitted_command_before_replication() {
    let mut n = node(1, &[2, 3]);
    n.election_timeout();
    n.handle_request_vote_response(
        NodeId::from(2),
        RequestVoteResponse {
            term: Term::from(1),
            vote: Vote::Granted,
        },
    );

    n.submit_command("SET price=1250".to_string()).unwrap();

    assert_eq!(n.volatile().commit_index, LogIndex::default());
}

#[test]
fn shrinking_the_configuration_commits_what_the_smaller_quorum_already_holds() {
    let mut n = node(1, &[2, 3]);
    n.election_timeout();
    n.handle_request_vote_response(
        NodeId::from(2),
        RequestVoteResponse {
            term: Term::from(1),
            vote: Vote::Granted,
        },
    );
    n.submit_command("SET price=1250".to_string()).unwrap();
    n.handle_append_entries_response(
        NodeId::from(2),
        AppendEntriesResponse::Accepted {
            term: Term::from(1),
            match_index: LogIndex::from(2),
        },
    );
    assert_eq!(n.volatile().commit_index, LogIndex::from(2));

    // Node 3 never replicated anything. Dropping it makes {1, 2} the whole
    // cluster, and both already hold index 2, so the ConfigChange at index 3
    // commits on the two logs that carry it.
    let index = n.propose_config_change(test_config(1, &[2])).unwrap();
    assert_eq!(index, LogIndex::from(3));
    n.handle_append_entries_response(
        NodeId::from(2),
        AppendEntriesResponse::Accepted {
            term: Term::from(1),
            match_index: LogIndex::from(3),
        },
    );

    assert_eq!(n.volatile().commit_index, LogIndex::from(3));
}

#[test]
fn adopting_a_configuration_on_a_follower_never_advances_the_commit_index() {
    let mut n = node(1, &[2, 3]);
    push_entry(&mut n, LogEntry {
        term: Term::from(1),
        payload: LogPayload::Command("SET price=1250".to_string()),
    });

    n.set_config(test_config(1, &[2]));

    assert!(is_follower(&n));
    assert_eq!(
        n.volatile().commit_index,
        LogIndex::default(),
        "only a leader may decide a commit index from replication state"
    );
}

#[test]
fn two_node_leader_needs_both_logs_to_commit() {
    let mut n = node(1, &[2]);
    n.election_timeout();
    n.handle_request_vote_response(
        NodeId::from(2),
        RequestVoteResponse {
            term: Term::from(1),
            vote: Vote::Granted,
        },
    );

    assert_eq!(
        n.volatile().commit_index,
        LogIndex::default(),
        "a majority of two is two; the leader's own log is not enough"
    );

    n.handle_append_entries_response(
        NodeId::from(2),
        AppendEntriesResponse::Accepted {
            term: Term::from(1),
            match_index: LogIndex::from(1),
        },
    );

    assert_eq!(n.volatile().commit_index, LogIndex::from(1));
}

#[test]
fn four_node_leader_needs_three_logs_to_commit() {
    let mut n = node(1, &[2, 3, 4]);
    n.election_timeout();
    for voter in [2, 3] {
        n.handle_request_vote_response(
            NodeId::from(voter),
            RequestVoteResponse {
                term: Term::from(1),
                vote: Vote::Granted,
            },
        );
    }
    assert!(is_leader(&n));

    n.handle_append_entries_response(
        NodeId::from(2),
        AppendEntriesResponse::Accepted {
            term: Term::from(1),
            match_index: LogIndex::from(1),
        },
    );

    assert_eq!(
        n.volatile().commit_index,
        LogIndex::default(),
        "two of four logs is half, not a majority of four"
    );

    n.handle_append_entries_response(
        NodeId::from(3),
        AppendEntriesResponse::Accepted {
            term: Term::from(1),
            match_index: LogIndex::from(1),
        },
    );

    assert_eq!(n.volatile().commit_index, LogIndex::from(1));
}

#[test]
fn node_take_entry_to_apply_skips_noop() {
    let mut n = node(1, &[2, 3]);

    push_entry(&mut n, LogEntry {
        term: Term::from(1),
        payload: LogPayload::NoOp,
    });
    push_entry(&mut n, LogEntry {
        term: Term::from(1),
        payload: LogPayload::Command("SET price=100".to_string()),
    });
    commit_to(&mut n, LogIndex::from(2));

    let applied = n.take_entry_to_apply().unwrap();
    assert_eq!(applied.index, LogIndex::from(2));
    assert_eq!(applied.command, &"SET price=100".to_string());
    assert_eq!(n.volatile().last_applied, LogIndex::from(2));
    assert!(n.take_entry_to_apply().is_none());
}

#[test]
fn node_candidate_steps_down_on_same_term_append_entries() {
    let mut n = node(1, &[2, 3]);
    n.election_timeout();
    assert!(is_candidate(&n));
    assert_eq!(n.persistent().voted_for(), Some(NodeId::from(1)));

    let req = AppendEntries {
        term: Term::from(1),
        leader_id: NodeId::from(2),
        prev_log_index: LogIndex::default(),
        prev_log_term: Term::default(),
        entries: vec![],
        leader_commit: LogIndex::default(),
    };
    n.handle_append_entries(NodeId::from(2), req);

    assert!(is_follower(&n));
    assert_eq!(n.persistent().voted_for(), Some(NodeId::from(1)));
}

#[test]
fn node_save_and_load_persistent_state() {
    let mut n = node(1, &[2, 3]);
    n.election_timeout();
    n.handle_request_vote_response(
        NodeId::from(2),
        RequestVoteResponse {
            term: Term::from(1),
            vote: Vote::Granted,
        },
    );
    n.submit_command("SET name=miles".to_string()).unwrap();
    n.submit_command("SET counter=1".to_string()).unwrap();

    let mut storage = MemoryStorage::new();
    n.save(&mut storage).unwrap();

    let restored: Node<String> =
        Node::from_storage(NodeId::from(1), test_config(1, &[2, 3]), &storage).unwrap();

    assert_eq!(
        restored.persistent().current_term(),
        n.persistent().current_term()
    );
    assert_eq!(restored.persistent().voted_for(), n.persistent().voted_for());
    assert_eq!(restored.persistent().log().len(), n.persistent().log().len());
    assert!(is_follower(&restored));
}

/// A same-length conflict overwrite must be durable. Length-only
/// comparison in `save()` would see stored_len == current_len and write nothing,
/// silently leaving the deposed entry `B` on disk instead of the new entry `C`.
#[test]
fn node_save_persists_same_length_conflict_overwrite() {
    let mut storage: MemoryStorage<String> = MemoryStorage::new();
    let mut persistent: PersistentState<String> = PersistentState::new();
    persistent.set_term(Term::from(1));
    persistent.set_voted_for(Some(NodeId::from(1)));
    persistent.append_entry(LogEntry {
        term: Term::from(1),
        payload: LogPayload::Command("SET name=miles".to_string()),
    });
    persistent.append_entry(LogEntry {
        term: Term::from(1),
        payload: LogPayload::Command("SET status=pending".to_string()),
    });
    persistent.save(&mut storage).unwrap();

    // A term 2 leader overwrites entry 2 in place, leaving the log length
    // unchanged. Storage cannot detect this by comparing lengths.
    persistent.set_term(Term::from(2));
    persistent.merge_entries(
        LogIndex::from(1),
        vec![LogEntry {
            term: Term::from(2),
            payload: LogPayload::Command("SET status=active".to_string()),
        }],
    );
    persistent.save(&mut storage).unwrap();

    let reloaded: PersistentState<String> = PersistentState::load(&storage).unwrap();
    assert_eq!(
        reloaded.log(), persistent.log(),
        "disk log must reflect the conflict overwrite"
    );
}

/// Growing case: conflict resolution both truncates and appends new
/// entries beyond the old stored length. Length-only append-loop would skip the
/// overwritten entry, producing a frankenstein log mixing old and new entries.
#[test]
fn node_save_persists_conflict_overwrite_that_also_grows_the_log() {
    let mut storage: MemoryStorage<String> = MemoryStorage::new();
    let mut persistent: PersistentState<String> = PersistentState::new();
    persistent.set_term(Term::from(1));
    persistent.set_voted_for(Some(NodeId::from(1)));
    persistent.append_entry(LogEntry {
        term: Term::from(1),
        payload: LogPayload::Command("SET name=miles".to_string()),
    });
    persistent.append_entry(LogEntry {
        term: Term::from(1),
        payload: LogPayload::Command("SET status=pending".to_string()),
    });
    persistent.save(&mut storage).unwrap();

    persistent.set_term(Term::from(2));
    persistent.merge_entries(
        LogIndex::from(1),
        vec![
            LogEntry {
                term: Term::from(2),
                payload: LogPayload::Command("SET status=active".to_string()),
            },
            LogEntry {
                term: Term::from(2),
                payload: LogPayload::Command("SET region=eu-west-1".to_string()),
            },
        ],
    );
    persistent.save(&mut storage).unwrap();

    let reloaded: PersistentState<String> = PersistentState::load(&storage).unwrap();
    assert_eq!(reloaded.log(), persistent.log());
}

/// A compacted log's retained length is smaller than its last index. Deriving
/// the first appended index from that length names an index that is still
/// retained, so `save` hands storage a suffix beginning one or more entries
/// too early and the entry is persisted twice.
#[test]
fn save_after_compaction_does_not_duplicate_a_retained_entry() {
    let mut storage: MemoryStorage<String> = MemoryStorage::new();
    let mut persistent = compacted_state_with_one_retained_entry(&mut storage);

    persistent.merge_entries(
        LogIndex::from(2),
        vec![LogEntry {
            term: Term::from(1),
            payload: LogPayload::Command("SET region=eu-west-1".to_string()),
        }],
    );
    persistent.save(&mut storage).unwrap();

    let reloaded: PersistentState<String> = PersistentState::load(&storage).unwrap();
    assert_eq!(reloaded.log(), persistent.log());
}

/// The same accounting failure, checked across a real reopen so that the
/// duplicate cannot be masked by in-memory state the backend still holds.
#[test]
fn file_storage_reopen_after_compaction_does_not_duplicate_a_retained_entry() {
    let mut storage = SimulatedFiles::new();
    let mut persistent = compacted_state_with_one_retained_entry(&mut storage);

    persistent.merge_entries(
        LogIndex::from(2),
        vec![LogEntry {
            term: Term::from(1),
            payload: LogPayload::Command("SET region=eu-west-1".to_string()),
        }],
    );
    persistent.save(&mut storage).unwrap();
    
    let reopened = storage.reopen();
    let reloaded: PersistentState<String> = PersistentState::load(&reopened).unwrap();
    assert_eq!(reloaded.log(), persistent.log());
}

#[test]
fn node_stale_vote_response_is_ignored() {
    let mut n = node(1, &[2, 3]);
    force_term(&mut n, Term::from(3));

    let cmds = n.handle_request_vote_response(
        NodeId::from(2),
        RequestVoteResponse {
            term: Term::from(1),
            vote: Vote::Granted,
        },
    );

    assert!(cmds.is_empty());
    assert!(is_follower(&n));
}

#[test]
fn node_vote_response_is_ignored_when_not_candidate() {
    let mut n = node(1, &[2, 3]);
    force_term(&mut n, Term::from(1));

    let cmds = n.handle_request_vote_response(
        NodeId::from(2),
        RequestVoteResponse {
            term: Term::from(1),
            vote: Vote::Granted,
        },
    );

    assert!(cmds.is_empty());
    assert!(is_follower(&n));
}

/// A vote from a server outside the current configuration, whether a removed
/// member or a spoofed envelope on the unauthenticated transport, must not
/// count toward the majority that `has_majority` computes over the
/// configuration size.
#[test]
fn node_vote_from_non_member_does_not_count_toward_majority() {
    let mut n = node(1, &[2, 3]); // config = {1, 2, 3}, majority = 2, self-vote = 1
    n.election_timeout();
    assert!(is_candidate(&n));

    let cmds = n.handle_request_vote_response(
        NodeId::from(99),
        RequestVoteResponse {
            term: Term::from(1),
            vote: Vote::Granted,
        },
    );

    assert!(
        is_candidate(&n),
        "a vote from a non-member must not be enough to win the election"
    );
    assert!(cmds.is_empty());
}

#[test]
fn node_append_entries_rejects_on_prev_term_mismatch() {
    let mut n = node(1, &[2, 3]);
    push_entry(&mut n, LogEntry {
        term: Term::from(1),
        payload: LogPayload::Command("SET counter=1".to_string()),
    });

    let req = AppendEntries {
        term: Term::from(2),
        leader_id: NodeId::from(2),
        prev_log_index: LogIndex::from(1),
        prev_log_term: Term::from(2),
        entries: vec![],
        leader_commit: LogIndex::default(),
    };
    let cmds = n.handle_append_entries(NodeId::from(2), req);

    assert!(!extract_append_success(&cmds));
}

#[test]
fn node_follower_advances_commit_index_from_leader_commit() {
    let mut n = node(1, &[2, 3]);
    push_entry(&mut n, LogEntry {
        term: Term::from(1),
        payload: LogPayload::Command("SET counter=1".to_string()),
    });

    let req = AppendEntries {
        term: Term::from(1),
        leader_id: NodeId::from(2),
        prev_log_index: LogIndex::from(1),
        prev_log_term: Term::from(1),
        entries: vec![],
        leader_commit: LogIndex::from(1),
    };
    n.handle_append_entries(NodeId::from(2), req);

    assert_eq!(n.volatile().commit_index, LogIndex::from(1));
}

#[test]
fn node_propose_config_change_fails_on_non_leader() {
    let mut n = node(1, &[2, 3]);
    let new_config = test_config(1, &[2, 3, 4]);
    assert!(matches!(
        n.propose_config_change(new_config),
        Err(SubmitError::NotLeader { .. })
    ));
}

#[test]
fn node_propose_config_change_appends_entry_and_updates_peers() {
    let mut n = node(1, &[2, 3]);
    // Become leader.
    n.election_timeout();
    n.handle_request_vote_response(
        NodeId::from(2),
        RequestVoteResponse {
            term: Term::from(1),
            vote: Vote::Granted,
        },
    );
    assert!(is_leader(&n));

    let new_config = test_config(1, &[2, 3, 4]);
    let index = n.propose_config_change(new_config);
    assert!(index.is_ok());

    // Peers now include node 4.
    assert!(n.config().peer_ids(n.id()).contains(&NodeId::from(4)));
    // A ConfigChange entry was appended after the no-op.
    assert!(matches!(
        n.persistent().log().last().unwrap().payload,
        LogPayload::ConfigChange(_)
    ));
}

#[test]
fn node_second_config_change_rejected_while_first_uncommitted() {
    let mut n = node(1, &[2, 3]);
    n.election_timeout();
    n.handle_request_vote_response(
        NodeId::from(2),
        RequestVoteResponse {
            term: Term::from(1),
            vote: Vote::Granted,
        },
    );

    let config_a = test_config(1, &[2, 3, 4]);
    let config_b = test_config(1, &[2, 3, 4, 5]);

    assert!(n.propose_config_change(config_a).is_ok());
    assert_eq!(
        n.propose_config_change(config_b),
        Err(SubmitError::ConfigChangePending),
        "second change must be rejected as pending, not conflated with not-leader"
    );
}

#[test]
fn second_config_change_rejected_when_compaction_moved_the_log_start() {
    let mut n = node(1, &[2, 3]);
    n.election_timeout();
    n.handle_request_vote_response(
        NodeId::from(2),
        RequestVoteResponse {
            term: Term::from(1),
            vote: Vote::Granted,
        },
    );
    // The leader no-op at index 1 commits, applies, and is compacted away,
    // so the first retained entry no longer sits at index 1.
    commit_to(&mut n, LogIndex::from(1));
    apply_to(&mut n, LogIndex::from(1));
    n.compact_to_snapshot(SnapshotData::new(vec![1])).unwrap();

    let config_a = test_config(1, &[2, 3, 4]);
    let config_b = test_config(1, &[2, 3, 4, 5]);

    let first = n.propose_config_change(config_a).unwrap();
    assert_eq!(first, LogIndex::from(2));

    assert_eq!(
        n.propose_config_change(config_b),
        Err(SubmitError::ConfigChangePending),
        "the uncommitted change at index 2 is the first retained entry; \
         reading its position as index 1 would make it look committed"
    );
}

#[test]
fn node_take_entry_to_apply_skips_config_change_and_buffers_committed() {
    let mut n = node(1, &[2, 3]);
    let new_config = test_config(1, &[2, 3, 4]);

    push_entry(&mut n, LogEntry {
        term: Term::from(1),
        payload: LogPayload::ConfigChange(new_config.clone()),
    });
    push_entry(&mut n, LogEntry {
        term: Term::from(1),
        payload: LogPayload::Command("SET city=amsterdam".to_string()),
    });
    commit_to(&mut n, LogIndex::from(2));

    // First call must skip the ConfigChange and return the Command.
    let applied = n.take_entry_to_apply().unwrap();
    assert_eq!(applied.index, LogIndex::from(2));
    assert_eq!(applied.command, &"SET city=amsterdam".to_string());

    // The committed config change must be buffered.
    let committed = n.take_committed_config_changes();
    assert_eq!(committed.len(), 1);
    assert_eq!(committed[0].0, LogIndex::from(1));
    assert_eq!(committed[0].1, new_config);
}

#[test]
fn compact_to_snapshot_errors_when_nothing_new_to_compact() {
    let mut n = node(1, &[2, 3]);

    let result = n.compact_to_snapshot(SnapshotData::new(vec![1]));

    assert!(result.err() == Some(CompactError::NothingToCompact));
}

#[test]
fn compact_to_snapshot_compacts_log_through_last_applied() {
    let mut n = node(1, &[2, 3]);
    push_entry(&mut n, LogEntry {
        term: Term::from(1),
        payload: LogPayload::Command("SET name=miles".to_string()),
    });
    push_entry(&mut n, LogEntry {
        term: Term::from(1),
        payload: LogPayload::Command("SET status=pending".to_string()),
    });
    commit_to(&mut n, LogIndex::from(2));
    apply_to(&mut n, LogIndex::from(2));

    let snapshot = n.compact_to_snapshot(SnapshotData::new(vec![42])).unwrap();

    assert_eq!(snapshot.meta.last_index, LogIndex::from(2));
    assert_eq!(snapshot.meta.last_term, Term::from(1));
    assert_eq!(
        snapshot.meta.config, *n.config(),
        "no later ConfigChange exists, so the current active config is used directly"
    );
    assert_eq!(n.persistent().log().snapshot_last_index(), LogIndex::from(2));
    assert!(n.persistent().log().is_empty());
    assert!(n.persistent().latest_snapshot() == Some(&snapshot));
}

#[test]
fn compact_to_snapshot_picks_config_change_at_or_before_boundary_not_a_later_one() {
    let mut n = node(1, &[2, 3]);
    let earlier_config = test_config(1, &[2, 3]);
    let later_config = test_config(1, &[2, 3, 4]);

    push_entry(&mut n, LogEntry {
        term: Term::from(1),
        payload: LogPayload::ConfigChange(earlier_config.clone()),
    }); // index 1
    push_entry(&mut n, LogEntry {
        term: Term::from(1),
        payload: LogPayload::Command("SET name=miles".to_string()),
    }); // index 2, the compaction boundary
    push_entry(&mut n, LogEntry {
        term: Term::from(1),
        payload: LogPayload::ConfigChange(later_config),
    }); // index 3, beyond the boundary, so it must not be picked

    commit_to(&mut n, LogIndex::from(2));
    apply_to(&mut n, LogIndex::from(2));

    let snapshot = n.compact_to_snapshot(SnapshotData::new(vec![1])).unwrap();

    assert_eq!(snapshot.meta.config, earlier_config);
}

#[test]
fn compact_to_snapshot_falls_back_to_previous_snapshot_config_when_retained_prefix_has_none() {
    let mut n = node(1, &[2, 3]);
    let grown_config = test_config(1, &[2, 3, 4]);

    // The first configuration is compacted into a snapshot, so the retained
    // log no longer holds it.
    push_entry(&mut n, LogEntry {
        term: Term::from(1),
        payload: LogPayload::ConfigChange(grown_config.clone()),
    }); // index 1
    n.set_config(grown_config.clone()); // effective on append, section 4.1
    push_entry(&mut n, LogEntry {
        term: Term::from(1),
        payload: LogPayload::Command("SET name=miles".to_string()),
    }); // index 2, first compaction boundary
    commit_to(&mut n, LogIndex::from(2));
    apply_to(&mut n, LogIndex::from(2));
    let first_snapshot = n.compact_to_snapshot(SnapshotData::new(vec![1])).unwrap();
    assert_eq!(first_snapshot.meta.config, grown_config);

    // The second configuration is appended but not yet applied when the
    // second compaction fires, so the retained prefix, index 3 alone,
    // carries no ConfigChange.
    push_entry(&mut n, LogEntry {
        term: Term::from(1),
        payload: LogPayload::Command("SET status=pending".to_string()),
    }); // index 3, second compaction boundary
    push_entry(&mut n, LogEntry {
        term: Term::from(1),
        payload: LogPayload::ConfigChange(test_config(1, &[2, 3, 4, 5])),
    }); // index 4, beyond the boundary, so it must not be picked
    commit_to(&mut n, LogIndex::from(3));
    apply_to(&mut n, LogIndex::from(3));

    let second_snapshot = n.compact_to_snapshot(SnapshotData::new(vec![2])).unwrap();

    assert_eq!(
        second_snapshot.meta.config, grown_config,
        "must fall back to the previous snapshot's config, not initial_config, \
         when the only ConfigChange in the retained prefix was already compacted away"
    );
}

#[test]
fn leader_sends_install_snapshot_to_lagging_peer_and_append_entries_to_caught_up_peer() {
    let mut n = make_leader(1, &[2, 3]);
    n.submit_command("SET name=miles".to_string()).unwrap(); // index 2
    n.submit_command("SET status=pending".to_string()).unwrap(); // index 3

    // Peer 3 catches up to index 3; peer 2 is left behind at its initial next_index.
    n.handle_append_entries_response(
        NodeId::from(3),
        AppendEntriesResponse::Accepted {
            term: Term::from(1),
            match_index: LogIndex::from(3),
        },
    );

    commit_to(&mut n, LogIndex::from(3));
    apply_to(&mut n, LogIndex::from(3));
    n.compact_to_snapshot(SnapshotData::new(vec![7])).unwrap();

    let commands = n.heartbeat_timeout();

    let sent_to_2 = commands
        .iter()
        .find_map(|c| match c {
            Command::Send { to, message } if *to == NodeId::from(2) => Some(message),
            _ => None,
        })
        .unwrap();
    assert!(
        matches!(sent_to_2, Message::InstallSnapshot(_)),
        "peer behind the compacted boundary must receive InstallSnapshot"
    );

    let sent_to_3 = commands
        .iter()
        .find_map(|c| match c {
            Command::Send { to, message } if *to == NodeId::from(3) => Some(message),
            _ => None,
        })
        .unwrap();
    assert!(
        matches!(sent_to_3, Message::AppendEntries(_)),
        "caught-up peer must keep receiving AppendEntries"
    );
}

#[test]
fn install_snapshot_response_advances_match_index_and_can_advance_commit_index() {
    let mut n = make_leader(1, &[2, 3]);
    n.submit_command("SET name=miles".to_string()).unwrap(); // index 2

    n.handle_install_snapshot_response(
        NodeId::from(2),
        InstallSnapshotResponse::Installed {
            term: Term::from(1),
            last_index: LogIndex::from(2),
        },
    );

    let Role::Leader(leader) = n.role() else {
        panic!("expected leader");
    };
    assert_eq!(
        leader.next_index_for(NodeId::from(2)),
        Some(LogIndex::from(3))
    );
    assert_eq!(n.volatile().commit_index, LogIndex::from(2));
}

#[test]
fn install_snapshot_response_with_higher_term_steps_leader_down() {
    let mut n = make_leader(1, &[2, 3]);

    let cmds = n.handle_install_snapshot_response(
        NodeId::from(2),
        InstallSnapshotResponse::Rejected {
            term: Term::from(99),
        },
    );

    assert!(is_follower(&n));
    assert_eq!(n.persistent().current_term(), Term::from(99));
    assert!(
        cmds.iter()
            .any(|c| matches!(c, Command::ResetElectionTimer))
    );
}

#[test]
fn follower_rejects_stale_term_install_snapshot() {
    let mut n = node(1, &[2, 3]);
    force_term(&mut n, Term::from(5));

    let req = InstallSnapshot {
        term: Term::from(3),
        leader_id: NodeId::from(2),
        snapshot: test_snapshot(1, 1, test_config(1, &[2, 3])),
    };
    let cmds = n.handle_install_snapshot(NodeId::from(2), req);

    let resp = cmds
        .iter()
        .find_map(|c| match c {
            Command::Send {
                message: Message::InstallSnapshotResponse(r),
                ..
            } => Some(r),
            _ => None,
        })
        .unwrap();
    assert!(
        matches!(resp, InstallSnapshotResponse::Rejected { term } if *term == Term::from(5))
    );
}

#[test]
fn candidate_steps_down_on_in_term_install_snapshot() {
    let mut n = node(1, &[2, 3]);
    n.election_timeout();
    assert!(is_candidate(&n));

    let req = InstallSnapshot {
        term: Term::from(1),
        leader_id: NodeId::from(2),
        snapshot: test_snapshot(1, 1, test_config(1, &[2, 3])),
    };
    n.handle_install_snapshot(NodeId::from(2), req);

    assert!(is_follower(&n));
}

#[test]
fn follower_ignores_snapshot_at_or_below_commit_index() {
    let mut n = node(1, &[2, 3]);
    push_entry(&mut n, LogEntry {
        term: Term::from(1),
        payload: LogPayload::Command("SET name=miles".to_string()),
    });
    commit_to(&mut n, LogIndex::from(1));

    let req = InstallSnapshot {
        term: Term::from(1),
        leader_id: NodeId::from(2),
        snapshot: test_snapshot(1, 1, test_config(1, &[2, 3])),
    };
    let cmds = n.handle_install_snapshot(NodeId::from(2), req);

    assert_eq!(
        n.persistent().log().len(),
        1,
        "already-committed state untouched"
    );
    assert!(n.take_snapshot_to_restore().is_none());

    let resp = cmds
        .iter()
        .find_map(|c| match c {
            Command::Send {
                message: Message::InstallSnapshotResponse(r),
                ..
            } => Some(r),
            _ => None,
        })
        .unwrap();
    assert!(
        matches!(resp, InstallSnapshotResponse::Installed { last_index, .. } if *last_index == LogIndex::from(1))
    );
}

#[test]
fn follower_retains_suffix_when_boundary_entry_matches() {
    let mut n = node(1, &[2, 3]);
    push_entry(&mut n, LogEntry {
        term: Term::from(1),
        payload: LogPayload::Command("SET name=miles".to_string()),
    }); // index 1
    push_entry(&mut n, LogEntry {
        term: Term::from(1),
        payload: LogPayload::Command("SET status=pending".to_string()),
    }); // index 2
    push_entry(&mut n, LogEntry {
        term: Term::from(1),
        payload: LogPayload::Command("SET region=eu-west-1".to_string()),
    }); // index 3

    let req = InstallSnapshot {
        term: Term::from(1),
        leader_id: NodeId::from(2),
        snapshot: test_snapshot(2, 1, test_config(1, &[2, 3])), // term matches our entry at index 2
    };
    n.handle_install_snapshot(NodeId::from(2), req);

    assert_eq!(n.persistent().log().snapshot_last_index(), LogIndex::from(2));
    assert_eq!(n.persistent().log().len(), 1);
    assert_eq!(
        n.persistent().log().entry(LogIndex::from(3)).unwrap().payload,
        LogPayload::Command("SET region=eu-west-1".to_string())
    );
    assert_eq!(n.volatile().last_applied, LogIndex::from(2));
    assert!(n.take_snapshot_to_restore().is_some());
}

#[test]
fn follower_discards_conflicting_log_wholesale_on_install_snapshot() {
    let mut n = node(1, &[2, 3]);
    push_entry(&mut n, LogEntry {
        term: Term::from(1),
        payload: LogPayload::Command("SET name=miles".to_string()),
    }); // index 1
    push_entry(&mut n, LogEntry {
        term: Term::from(1),
        payload: LogPayload::Command("SET status=pending".to_string()),
    }); // index 2, term 1, conflicting with the snapshot's term 9

    let req = InstallSnapshot {
        term: Term::from(1),
        leader_id: NodeId::from(2),
        snapshot: test_snapshot(2, 9, test_config(1, &[2, 3])),
    };
    n.handle_install_snapshot(NodeId::from(2), req);

    assert!(n.persistent().log().is_empty());
    assert_eq!(n.persistent().log().snapshot_last_index(), LogIndex::from(2));
    assert_eq!(n.persistent().log().snapshot_last_term(), Term::from(9));
}

/// A boundary past the end of the local log leaves nothing to compare terms
/// against, so section 7 treats it like a conflict and clears the log.
#[test]
fn follower_discards_log_when_snapshot_boundary_is_past_its_end() {
    let mut n = node(1, &[2, 3]);
    push_entry(&mut n, LogEntry {
        term: Term::from(1),
        payload: LogPayload::Command("SET name=miles".to_string()),
    }); // index 1

    let req = InstallSnapshot {
        term: Term::from(1),
        leader_id: NodeId::from(2),
        snapshot: test_snapshot(5, 3, test_config(1, &[2, 3])),
    };
    n.handle_install_snapshot(NodeId::from(2), req);

    assert!(n.persistent().log().is_empty());
    assert_eq!(n.persistent().log().snapshot_last_index(), LogIndex::from(5));
    assert_eq!(n.persistent().log().snapshot_last_term(), Term::from(3));
}

/// The durable log must end up where the in-memory one did. A discard that
/// reached only memory would come back at the next restart.
#[test]
fn save_clears_storage_log_after_a_conflicting_install() {
    let mut storage: MemoryStorage<String> = MemoryStorage::new();
    let mut n = node(1, &[2, 3]);
    push_entry(&mut n, LogEntry {
        term: Term::from(1),
        payload: LogPayload::Command("SET name=miles".to_string()),
    });
    push_entry(&mut n, LogEntry {
        term: Term::from(1),
        payload: LogPayload::Command("SET status=pending".to_string()),
    });
    n.save(&mut storage).expect("save appends");

    n.handle_install_snapshot(
        NodeId::from(2),
        InstallSnapshot {
            term: Term::from(1),
            leader_id: NodeId::from(2),
            snapshot: test_snapshot(2, 9, test_config(1, &[2, 3])),
        },
    );
    n.save(&mut storage).expect("save installs");

    let loaded = storage.load().expect("load");
    assert!(loaded.entries.is_empty());
    assert_eq!(
        loaded.snapshot.map(|snap| snap.meta.last_term),
        Some(Term::from(9))
    );
}

/// A failed install stays recorded. Dropping it would leave the in-memory
/// log compacted and storage still holding the prefix, with nothing left to
/// replay the difference.
#[test]
fn save_keeps_the_recorded_install_when_storage_rejects_it() {
    let mut storage = FailingStorage {
        install_attempts: 0,
    };
    let mut n = node(1, &[2, 3]);
    push_entry(&mut n, LogEntry {
        term: Term::from(1),
        payload: LogPayload::Command("SET name=miles".to_string()),
    });
    n.handle_install_snapshot(
        NodeId::from(2),
        InstallSnapshot {
            term: Term::from(1),
            leader_id: NodeId::from(2),
            snapshot: test_snapshot(2, 9, test_config(1, &[2, 3])),
        },
    );

    assert_eq!(n.save(&mut storage), Err(StorageOffline));
    assert_eq!(n.save(&mut storage), Err(StorageOffline));
    assert_eq!(storage.install_attempts, 2, "the install must be retried");
}

#[test]
fn follower_retains_suffix_config_change_over_snapshots_boundary_time_config() {
    let mut n = node(1, &[2, 3]);
    let boundary_time_config = test_config(1, &[2, 3]);
    let grown_config = test_config(1, &[2, 3, 4]);

    push_entry(&mut n, LogEntry {
        term: Term::from(1),
        payload: LogPayload::Command("SET name=miles".to_string()),
    }); // index 1
    push_entry(&mut n, LogEntry {
        term: Term::from(1),
        payload: LogPayload::Command("SET status=pending".to_string()),
    }); // index 2, the snapshot boundary
    push_entry(&mut n, LogEntry {
        term: Term::from(1),
        payload: LogPayload::ConfigChange(grown_config.clone()),
    }); // index 3, beyond the boundary and effective on append (section 4.1)

    let req = InstallSnapshot {
        term: Term::from(1),
        leader_id: NodeId::from(2),
        snapshot: test_snapshot(2, 1, boundary_time_config), // term matches our entry at index 2
    };
    n.handle_install_snapshot(NodeId::from(2), req);

    assert_eq!(n.persistent().log().snapshot_last_index(), LogIndex::from(2));
    assert_eq!(
        n.config(),
        &grown_config,
        "surviving suffix's ConfigChange must win over the snapshot's boundary-time config"
    );
}

#[test]
fn follower_adopts_snapshot_config_on_install_snapshot() {
    let mut n = node(1, &[2, 3]);
    let grown_config = test_config(1, &[2, 3, 4]);

    let req = InstallSnapshot {
        term: Term::from(1),
        leader_id: NodeId::from(2),
        snapshot: test_snapshot(1, 1, grown_config.clone()),
    };
    n.handle_install_snapshot(NodeId::from(2), req);

    assert_eq!(*n.config(), grown_config);
}

#[test]
fn take_snapshot_to_restore_drains_pending_snapshot() {
    let mut n = node(1, &[2, 3]);
    let req = InstallSnapshot {
        term: Term::from(1),
        leader_id: NodeId::from(2),
        snapshot: test_snapshot(1, 1, test_config(1, &[2, 3])),
    };
    n.handle_install_snapshot(NodeId::from(2), req);

    assert!(n.take_snapshot_to_restore().is_some());
    assert!(n.take_snapshot_to_restore().is_none());
}

#[test]
fn save_persists_snapshot_install_before_appends() {
    let mut n = node(1, &[2, 3]);
    push_entry(&mut n, LogEntry {
        term: Term::from(1),
        payload: LogPayload::Command("SET name=miles".to_string()),
    });
    commit_to(&mut n, LogIndex::from(1));
    apply_to(&mut n, LogIndex::from(1));
    n.compact_to_snapshot(SnapshotData::new(vec![1])).unwrap();
    // A new entry appended after compaction means save() has both a pending
    // snapshot install and a pending append to persist in the same call.
    push_entry(&mut n, LogEntry {
        term: Term::from(1),
        payload: LogPayload::Command("SET status=pending".to_string()),
    });

    let mut storage = RecordingStorage::default();
    n.save(&mut storage).unwrap();

    let install_pos = storage
        .calls
        .iter()
        .position(|&c| c == "install_snapshot")
        .expect("install_snapshot must be called");
    let append_pos = storage
        .calls
        .iter()
        .position(|&c| c == "append")
        .expect("append must be called");
    assert!(
        install_pos < append_pos,
        "snapshot must be installed before the new suffix is appended: {:?}",
        storage.calls
    );
}

#[test]
fn election_safety_after_full_compaction_uses_snapshot_boundary_for_vote_comparison() {
    let mut n = node(1, &[2, 3]);
    push_entry(&mut n, LogEntry {
        term: Term::from(3),
        payload: LogPayload::Command("SET name=miles".to_string()),
    });
    commit_to(&mut n, LogIndex::from(1));
    apply_to(&mut n, LogIndex::from(1));
    n.compact_to_snapshot(SnapshotData::new(vec![9])).unwrap();

    assert!(n.persistent().log().is_empty());
    assert_eq!(n.persistent().log().snapshot_last_index(), LogIndex::from(1));
    assert_eq!(n.persistent().log().snapshot_last_term(), Term::from(3));

    // A candidate whose log ends at a lower term than our snapshot boundary
    // must be denied, even though our in-memory `entries` vec is now empty.
    let stale_log_request = RequestVote {
        term: Term::from(4),
        candidate_id: NodeId::from(2),
        last_log_index: LogIndex::from(1),
        last_log_term: Term::from(2),
    };
    let cmds = n.handle_request_vote(NodeId::from(2), stale_log_request);
    assert!(!extract_vote_granted(&cmds));

    // A candidate at least as up to date as the snapshot boundary must be granted.
    let caught_up_request = RequestVote {
        term: Term::from(5),
        candidate_id: NodeId::from(3),
        last_log_index: LogIndex::from(1),
        last_log_term: Term::from(3),
    };
    let cmds = n.handle_request_vote(NodeId::from(3), caught_up_request);
    assert!(extract_vote_granted(&cmds));
}

/// A `ConfigChange` is pending exactly when its absolute index is above the commit index, whatever
/// compaction did to the retained range.
#[test]
fn pending_config_change_follows_absolute_index_across_compaction_boundaries() {
    for (length, config_index, first, second, commit) in
        [(4usize, 4usize, 1usize, 2usize, 3usize), (6, 4, 2, 3, 4), (6, 5, 2, 3, 4), (9, 2, 3, 5, 7)]
    {
        let mut n = make_leader(1, &[2, 3]);
        // The leader's no-op takes index 1.
        for i in 2..=length {
            let payload = if i == config_index {
                LogPayload::ConfigChange(test_config(1, &[2, 3, 4]))
            } else {
                LogPayload::Command(format!("SET counter={i}"))
            };
            push_entry(&mut n, LogEntry { term: Term::from(1), payload });
        }
        commit_to(&mut n, LogIndex::from(commit as u64));
        apply_to(&mut n, LogIndex::from(first as u64));
        n.compact_to_snapshot(SnapshotData::new(vec![1])).unwrap();
        apply_to(&mut n, LogIndex::from(second as u64));
        n.compact_to_snapshot(SnapshotData::new(vec![2])).unwrap();

        let pending = n.propose_config_change(test_config(1, &[2]))
            == Err(SubmitError::ConfigChangePending);
        assert_eq!(pending, config_index > commit);
    }
}

#[test]
fn leader_outside_its_configuration_steps_down_once_that_commits() {
    let mut n = make_leader(1, &[2, 3]);
    let index = n
        .propose_config_change(n.config().without_member(NodeId::from(1)).unwrap())
        .unwrap();
    assert!(is_leader(&n));
    for peer in [2, 3] {
        let cmds = n.handle_append_entries_response(
            NodeId::from(peer),
            AppendEntriesResponse::Accepted { term: Term::from(1), match_index: index },
        );
        if peer == 3 {
            assert!(matches!(cmds[..], [Command::ResetElectionTimer]));
        } else {
            assert!(cmds.is_empty());
            assert!(is_leader(&n));
        }
    }
    assert!(is_follower(&n));
    assert_eq!(n.volatile().commit_index, index);
    assert_eq!(n.leader_hint(), None);
}

#[test]
fn heartbeat_carries_what_a_peer_is_next_to_receive() {
    let mut n = make_leader(1, &[2, 3]);
    n.submit_command("SET name=miles".to_string()).unwrap();
    let commands = n.heartbeat_timeout();
    assert_eq!(commands.len(), 3);
    for (command, peer) in commands.iter().zip([2, 3]) {
        let Command::Send { to, message: Message::AppendEntries(req) } = command else {
            panic!("expected a replication message");
        };
        assert_eq!(*to, NodeId::from(peer));
        assert_eq!(req.prev_log_index, LogIndex::from(1));
        assert_eq!(req.prev_log_term, Term::from(1));
        assert_eq!(req.entries.len(), 1);
        assert_eq!(req.leader_commit, LogIndex::default());
    }
    assert!(matches!(commands[2], Command::ResetHeartbeatTimer));
}

fn entries_behind(term: u64, prev: u64, prev_term: u64, count: usize) -> AppendEntries<String> {
    AppendEntries {
        term: Term::from(term),
        leader_id: NodeId::from(2),
        prev_log_index: LogIndex::from(prev),
        prev_log_term: Term::from(prev_term),
        entries: (0..count)
            .map(|_| LogEntry { term: Term::from(term), payload: LogPayload::NoOp })
            .collect(),
        leader_commit: LogIndex::default(),
    }
}

#[test]
fn there_is_no_room_for_entries_past_the_last_index() {
    let mut storage: MemoryStorage<String> = MemoryStorage::new();
    let boundary = LogIndex::from(u64::MAX - 2);
    let snapshot = Snapshot {
        meta: SnapshotMeta {
            last_index: boundary,
            last_term: Term::from(1),
            config: test_config(1, &[2, 3]),
        },
        data: SnapshotData::new(vec![]),
    };
    storage.install_snapshot(&snapshot, SuffixDisposition::Discard).unwrap();
    let n: Node<String> =
        Node::from_storage(NodeId::from(1), test_config(1, &[2, 3]), &storage).unwrap();
    let one = entries_behind(1, u64::MAX - 2, 1, 1);
    assert!(n.has_room_for(&Message::AppendEntries(one)));
    let two = entries_behind(1, u64::MAX - 2, 1, 2);
    assert!(!n.has_room_for(&Message::AppendEntries(two)));
    // The term at the boundary is another one, so this is turned down.
    let mismatch = entries_behind(1, u64::MAX - 2, 9, 2);
    assert!(n.has_room_for(&Message::AppendEntries(mismatch)));
}

#[test]
fn entries_past_the_last_index_are_rejected_where_the_logs_do_not_match() {
    let mut n = node(1, &[2, 3]);
    let req = entries_behind(3, u64::MAX, 1, 2);
    assert!(n.has_room_for(&Message::AppendEntries(entries_behind(3, u64::MAX, 1, 2))));
    let commands = n.handle_append_entries(NodeId::from(2), req);
    assert_eq!(commands.len(), 2);
    assert!(matches!(commands[0], Command::ResetElectionTimer));
    let Command::Send { to, message: Message::AppendEntriesResponse(resp) } = &commands[1] else {
        panic!("expected a response");
    };
    assert_eq!(*to, NodeId::from(2));
    assert_eq!(*resp, AppendEntriesResponse::Rejected { term: Term::from(3) });
}

/// Storage that fails at one of its calls, counted from 0, and records the calls made of it.
struct BrittleStorage {
    inner: MemoryStorage<String>,
    fails_at: usize,
    calls: Vec<&'static str>,
}

impl BrittleStorage {
    fn note(&mut self, call: &'static str) -> Result<(), &'static str> {
        self.calls.push(call);
        if self.calls.len() == self.fails_at + 1 {
            return Err(call);
        }
        Ok(())
    }
}

impl Storage<String> for BrittleStorage {
    type Error = &'static str;

    fn stored(&self) -> StoredOf<String> {
        unreachable!("only stated, never run")
    }

    fn may_answer(
        &self,
        _call: StorageCallOf<String>,
        _result: Result<(), Self::Error>,
        _after: Self,
    ) -> bool {
        unreachable!("only stated, never run")
    }

    fn load(&self) -> Result<LoadedState<String>, Self::Error> {
        Ok(self.inner.load().unwrap())
    }

    fn set_meta(&mut self, term: Term, voted_for: Option<NodeId>) -> Result<(), Self::Error> {
        self.note("set_meta")?;
        self.inner.set_meta(term, voted_for).unwrap();
        Ok(())
    }

    fn truncate_from(&mut self, index: LogIndex) -> Result<(), Self::Error> {
        self.note("truncate_from")?;
        self.inner.truncate_from(index).unwrap();
        Ok(())
    }

    fn append(&mut self, entries: &[LogEntry<String>]) -> Result<(), Self::Error> {
        self.note("append")?;
        self.inner.append(entries).unwrap();
        Ok(())
    }

    fn install_snapshot(
        &mut self,
        snapshot: &Snapshot,
        disposition: SuffixDisposition,
    ) -> Result<(), Self::Error> {
        self.note("install_snapshot")?;
        self.inner.install_snapshot(snapshot, disposition).unwrap();
        Ok(())
    }
}

/// A save that failed is taken up again with the call that failed, and no call that succeeded is
/// repeated.
#[test]
fn failed_save_is_retried_from_the_call_that_failed() {
    let all = ["set_meta", "install_snapshot", "truncate_from", "append"];
    for fails_at in 0..4 {
        let mut storage =
            BrittleStorage { inner: MemoryStorage::new(), fails_at: usize::MAX, calls: vec![] };
        let mut state: PersistentState<String> = PersistentState::new();
        for _ in 0..4 {
            state.append_entry(LogEntry { term: Term::from(1), payload: LogPayload::NoOp });
        }
        state.save(&mut storage).unwrap();

        // One change of every kind: a term, a compaction, and a conflict at index 3.
        state.set_term(Term::from(2));
        state.install_snapshot(
            Snapshot {
                meta: SnapshotMeta {
                    last_index: LogIndex::from(1),
                    last_term: Term::from(1),
                    config: test_config(1, &[2, 3]),
                },
                data: SnapshotData::new(vec![7]),
            },
            SuffixDisposition::Retain,
        );
        state.merge_entries(
            LogIndex::from(2),
            vec![LogEntry { term: Term::from(2), payload: LogPayload::NoOp }],
        );
        storage.calls.clear();
        storage.fails_at = fails_at;
        assert_eq!(state.save(&mut storage), Err(all[fails_at]));
        assert_eq!(storage.calls, all[..=fails_at].to_vec());

        storage.calls.clear();
        storage.fails_at = usize::MAX;
        assert_eq!(state.save(&mut storage), Ok(()));
        assert_eq!(storage.calls, all[fails_at..].to_vec());
        storage.calls.clear();
        assert_eq!(state.save(&mut storage), Ok(()));
        assert!(storage.calls.is_empty());

        let loaded: PersistentState<String> = PersistentState::load(&storage).unwrap();
        assert_eq!(loaded.current_term(), Term::from(2));
        assert_eq!(loaded.log().entries(), state.log().entries());
        assert!(loaded.latest_snapshot() == state.latest_snapshot());
    }
}

#[test]
fn errors_say_why() {
    assert_eq!(NotLeaderError { leader_hint: None }.display(), "not the leader");
    assert_eq!(SubmitError::NotLeader { leader_hint: None }.display(), "not the leader");
    assert_eq!(
        SubmitError::ConfigChangePending.display(),
        "a config change is already pending"
    );
    assert_eq!(
        CompactError::NothingToCompact.display(),
        "nothing to compact: last_applied is at or below the snapshot boundary"
    );
}

#[derive(Debug, PartialEq, Eq)]
struct StorageOffline;

struct FailingStorage {
    install_attempts: usize,
}

impl Storage<String> for FailingStorage {
    type Error = StorageOffline;

    fn stored(&self) -> StoredOf<String> {
        unreachable!("only stated, never run")
    }

    fn may_answer(
        &self,
        _call: StorageCallOf<String>,
        _result: Result<(), Self::Error>,
        _after: Self,
    ) -> bool {
        unreachable!("only stated, never run")
    }

    fn load(&self) -> Result<LoadedState<String>, Self::Error> {
        Err(StorageOffline)
    }

    fn set_meta(
        &mut self,
        _term: Term,
        _voted_for: Option<NodeId>,
    ) -> Result<(), Self::Error> {
        Ok(())
    }

    fn truncate_from(&mut self, _index: LogIndex) -> Result<(), Self::Error> {
        Ok(())
    }

    fn append(&mut self, _entries: &[LogEntry<String>]) -> Result<(), Self::Error> {
        Ok(())
    }

    fn install_snapshot(
        &mut self,
        _snapshot: &Snapshot,
        _disposition: SuffixDisposition,
    ) -> Result<(), Self::Error> {
        self.install_attempts += 1;
        Err(StorageOffline)
    }
}

#[derive(Default)]
struct RecordingStorage {
    calls: Vec<&'static str>,
    inner: MemoryStorage<String>,
}

impl Storage<String> for RecordingStorage {
    type Error = std::convert::Infallible;

    fn stored(&self) -> StoredOf<String> {
        unreachable!("only stated, never run")
    }

    fn may_answer(
        &self,
        _call: StorageCallOf<String>,
        _result: Result<(), Self::Error>,
        _after: Self,
    ) -> bool {
        unreachable!("only stated, never run")
    }

    fn load(&self) -> Result<LoadedState<String>, Self::Error> {
        self.inner.load()
    }

    fn set_meta(
        &mut self,
        term: Term,
        voted_for: Option<NodeId>,
    ) -> Result<(), Self::Error> {
        self.calls.push("set_meta");
        self.inner.set_meta(term, voted_for)
    }

    fn truncate_from(&mut self, index: LogIndex) -> Result<(), Self::Error> {
        self.calls.push("truncate_from");
        self.inner.truncate_from(index)
    }

    fn append(&mut self, entries: &[LogEntry<String>]) -> Result<(), Self::Error> {
        self.calls.push("append");
        self.inner.append(entries)
    }

    fn install_snapshot(
        &mut self,
        snapshot: &Snapshot,
        disposition: SuffixDisposition,
    ) -> Result<(), Self::Error> {
        self.calls.push("install_snapshot");
        self.inner.install_snapshot(snapshot, disposition)
    }
}
