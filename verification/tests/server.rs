use raft::Config;
use raft::Event;
use raft::MemoryStorage;
use raft::MembershipRequest;
use raft::MembershipResult;
use raft::Role;
use raft::Runtime;
use raft::RuntimeError;
use raft::Server;
use raft::ServerError;
use raft::SnapshotPolicy;
use raft::StateMachine;
use raft::TimerConfig;
use raft::kv::KvCommand;
use raft::kv::KvResult;
use raft::kv::KvStore;
use raft::routes::UnknownPeer;
use raft::runtime::NonZeroUsize;
use raft::server::ApiResponse;
use raft::server::Handled;
use raft::server::Turn;
use raft::time::Instant;
use raft::types::AppendEntries;
use raft::types::AppendEntriesResponse;
use raft::types::ClusterConfig;
use raft::types::LogEntry;
use raft::types::LogIndex;
use raft::types::LogPayload;
use raft::types::Message;
use raft::types::NodeId;
use raft::types::RequestVote;
use raft::types::SocketAddr;
use raft::types::Term;

type KvServer = Server<KvCommand, KvStore, MemoryStorage<KvCommand>>;

fn test_addr(port: u16) -> SocketAddr {
    SocketAddr::V4 { ip: 0x7f00_0001, port }
}

/// A single-node runtime whose configuration holds only itself.
fn test_runtime(id: u64) -> Runtime<KvCommand, KvStore, MemoryStorage<KvCommand>> {
    let local_id = NodeId::from(id);
    let config = ClusterConfig::new(vec![(local_id, test_addr(0))]).unwrap();
    Runtime::from_storage(
        local_id,
        config,
        KvStore::new(),
        MemoryStorage::new(),
        TimerConfig::default(),
        // Low enough that compaction is reachable within a handful of commands.
        SnapshotPolicy {
            compact_threshold: NonZeroUsize::new(8),
        },
    )
    .unwrap()
}

/// A single-node server whose configuration holds only itself.
fn test_server(id: u64) -> KvServer {
    Server::around(test_runtime(id))
}

fn run(server: &mut KvServer, event: Event<KvCommand>) -> Handled<KvCommand, KvResult> {
    server.handle(event).unwrap()
}

fn is_leader(server: &KvServer) -> bool {
    matches!(server.runtime().node().role(), Role::Leader(_))
}

fn acknowledge(term: Term, index: LogIndex) -> Event<KvCommand> {
    Event::Message {
        from: NodeId::from(2),
        message: Message::AppendEntriesResponse(AppendEntriesResponse::Accepted {
            term,
            match_index: index,
        }),
    }
}

fn outvoted(leader_term: Term) -> Event<KvCommand> {
    Event::Message {
        from: NodeId::from(2),
        message: Message::RequestVote(RequestVote {
            term: Term::from(5),
            candidate_id: NodeId::from(2),
            last_log_index: LogIndex::from(1),
            last_log_term: leader_term,
        }),
    }
}

fn overwritten(leader_term: Term, payload: LogPayload<KvCommand>) -> Event<KvCommand> {
    Event::Message {
        from: NodeId::from(2),
        message: Message::AppendEntries(AppendEntries {
            term: Term::from(6),
            leader_id: NodeId::from(2),
            prev_log_index: LogIndex::from(1),
            prev_log_term: leader_term,
            entries: vec![LogEntry {
                term: Term::from(6),
                payload,
            }],
            leader_commit: LogIndex::from(2),
        }),
    }
}

/// Adding a member must update the routes at once. Otherwise the next heartbeat targets a peer that
/// cannot be resolved, although the node considers it active.
#[test]
fn membership_add_updates_transport_before_next_heartbeat() {
    let mut server = test_server(1);
    run(&mut server, Event::ElectionTimeout);
    assert!(is_leader(&server));

    let new_peer = NodeId::from(2);
    let answer = server.request_membership(
        MembershipRequest::Add {
            id: new_peer,
            addr: test_addr(19999),
        },
        1,
    );

    assert_eq!(answer, None, "leader must accept the membership change");
    assert!(
        server.peer_routes().peer_ids().contains(&new_peer),
        "transport must track the new peer immediately, before any heartbeat tries to reach it"
    );
    assert_eq!(server.peer_routes().route_to(new_peer), Ok(test_addr(19999)));
}

/// A second membership change while the first is uncommitted must be rejected as pending,
/// distinguishably from a not-leader refusal.
#[test]
fn second_membership_request_is_rejected_while_first_uncommitted() {
    let mut server = test_server(1);
    run(&mut server, Event::ElectionTimeout);
    assert!(is_leader(&server));

    let first = server.request_membership(
        MembershipRequest::Add {
            id: NodeId::from(2),
            addr: test_addr(19999),
        },
        1,
    );
    assert_eq!(first, None, "first change must be accepted");

    let second = server.request_membership(
        MembershipRequest::Add {
            id: NodeId::from(3),
            addr: test_addr(19998),
        },
        2,
    );
    assert_eq!(
        second,
        Some(MembershipResult::Rejected),
        "second change must be distinguishably rejected as pending, not conflated with not-leader"
    );
}

/// Removing the only member of a single-node cluster must be refused.
#[test]
fn removing_the_last_member_is_rejected() {
    let mut server = test_server(1);
    run(&mut server, Event::ElectionTimeout);
    assert!(is_leader(&server));

    let result = server.request_membership(
        MembershipRequest::Remove {
            id: NodeId::from(1),
        },
        1,
    );

    assert_eq!(
        result,
        Some(MembershipResult::Rejected),
        "removing the last member must be rejected, not silently poison the config"
    );
    assert_eq!(server.runtime().node().config().size(), 1);
}

/// A send to a peer that is not, or is no longer, registered is refused without stopping anything.
#[test]
fn dispatch_does_not_propagate_unknown_peer_as_fatal() {
    let server = test_server(1);
    assert_eq!(
        server.peer_routes().route_to(NodeId::from(99)),
        Err(UnknownPeer { peer: NodeId::from(99) })
    );
}

/// If leadership changes before a submitted command commits, a different entry can later commit at
/// the same log index. A client waiting on the original submission must never receive that unrelated
/// command's result.
#[test]
fn stranded_client_never_receives_a_different_commands_result() {
    let mut server = test_server(1);

    // Node 1 becomes leader alone in term 1. A client command then lands at index 2, index 1 being
    // the leader's own no-op.
    run(&mut server, Event::ElectionTimeout);
    assert!(is_leader(&server));
    let leader_term = server.runtime().node().persistent().current_term();
    let answer = server.submit(
        KvCommand::Put {
            key: "username".to_string(),
            value: "miles".to_string(),
        },
        42,
    );
    assert!(answer.is_none());
    assert_eq!(
        server.runtime().node().persistent().log().last_index(),
        LogIndex::from(2)
    );
    assert_eq!(server.waiting_count(), 1);

    // A RequestVote from a higher term forces node 1 to step down, leaving the command at index 2
    // stranded.
    let mut answers = run(&mut server, outvoted(leader_term)).replies.clients;
    assert!(matches!(server.runtime().node().role(), Role::Follower(_)));

    // A term 6 leader overwrites index 2 with an unrelated command and directs node 1 to commit it.
    let handled = run(
        &mut server,
        overwritten(
            leader_term,
            LogPayload::Command(KvCommand::Put {
                key: "region".to_string(),
                value: "eu-west-1".to_string(),
            }),
        ),
    );
    answers.extend(handled.replies.clients);

    // The stranded client must never see the unrelated command's result. It failed with NotLeader
    // when the node stepped down.
    for (_, answer) in &answers {
        if let ApiResponse::Result(result) = answer {
            panic!("stranded client incorrectly received a different command's result: {result:?}");
        }
    }
    assert_eq!(answers, vec![(42, ApiResponse::NotLeader { leader_hint: None })]);
    assert_eq!(server.waiting_count(), 0);
}

/// The same with a command that has not committed when the node steps down, since a second member
/// has yet to acknowledge it.
#[test]
fn stranded_client_of_an_uncommitted_command_is_refused() {
    let mut server = test_server(1);
    run(&mut server, Event::ElectionTimeout);
    let leader_term = server.runtime().node().persistent().current_term();
    let joining = MembershipRequest::Add { id: NodeId::from(2), addr: test_addr(19999) };
    assert_eq!(server.request_membership(joining, 7), None);
    let put = KvCommand::Put { key: "username".to_string(), value: "miles".to_string() };
    assert!(server.submit(put, 42).is_none());

    let handled = run(&mut server, outvoted(leader_term));
    assert_eq!(
        handled.replies.clients,
        vec![(42, ApiResponse::NotLeader { leader_hint: None })]
    );
    assert_eq!(
        handled.replies.members,
        vec![(7, MembershipResult::Indeterminate)]
    );
}

/// A membership request registers a waiter and is answered once its own `ConfigChange` commits.
#[test]
fn membership_waiter_is_answered_when_its_own_change_commits() {
    let mut server = test_server(1);
    run(&mut server, Event::ElectionTimeout);
    let term = server.runtime().node().persistent().current_term();

    let answer = server.request_membership(
        MembershipRequest::Add {
            id: NodeId::from(2),
            addr: test_addr(19999),
        },
        11,
    );
    assert_eq!(answer, None);
    assert_eq!(server.waiting_member_count(), 1);

    // The new member is part of the quorum from the moment the change is appended, so the entry
    // commits only once it acknowledges.
    let handled = run(&mut server, acknowledge(term, LogIndex::from(2)));

    assert_eq!(
        handled.replies.members,
        vec![(11, MembershipResult::Committed)],
        "the caller's own change committed, so it must be told so"
    );
    assert_eq!(server.waiting_member_count(), 0);
}

/// A committed `ConfigChange` with nobody waiting on it is discarded. That is the normal case on a
/// follower and after a restart.
#[test]
fn committed_change_with_no_waiter_is_discarded() {
    let mut runtime = test_runtime(1);
    runtime.handle(Event::ElectionTimeout).unwrap();
    let term = runtime.node().persistent().current_term();
    let config = runtime.node().config().with_member(NodeId::from(2), test_addr(19999));
    let index = runtime.submit_config_change(config).unwrap();
    let mut server = Server::around(runtime);

    let handled = run(&mut server, acknowledge(term, index));

    assert_eq!(server.runtime().node().volatile().commit_index, index);
    assert!(handled.replies.members.is_empty());
    assert_eq!(server.waiting_member_count(), 0);
}

#[test]
fn follower_discards_a_committed_change() {
    let mut server = test_server(1);
    let config = ClusterConfig::new(vec![
        (NodeId::from(1), test_addr(0)),
        (NodeId::from(2), test_addr(19999)),
    ])
    .unwrap();
    let handled = run(
        &mut server,
        Event::Message {
            from: NodeId::from(2),
            message: Message::AppendEntries(AppendEntries {
                term: Term::from(1),
                leader_id: NodeId::from(2),
                prev_log_index: LogIndex::from(0),
                prev_log_term: Term::from(0),
                entries: vec![LogEntry {
                    term: Term::from(1),
                    payload: LogPayload::ConfigChange(config),
                }],
                leader_commit: LogIndex::from(1),
            }),
        },
    );
    assert!(handled.replies.members.is_empty());
    assert_eq!(server.waiting_member_count(), 0);
    assert_eq!(server.peer_routes().peer_ids(), vec![NodeId::from(2)]);
}

/// Stepping down strands every membership waiter. The next leader decides whether the entry
/// survives, so the caller is told the outcome is undecided rather than being left to time out.
#[test]
fn stepping_down_answers_membership_waiters_as_indeterminate() {
    let mut server = test_server(1);
    run(&mut server, Event::ElectionTimeout);
    let leader_term = server.runtime().node().persistent().current_term();
    server.request_membership(
        MembershipRequest::Add {
            id: NodeId::from(2),
            addr: test_addr(19999),
        },
        3,
    );

    let handled = run(&mut server, outvoted(leader_term));

    assert_eq!(
        handled.replies.members,
        vec![(3, MembershipResult::Indeterminate)],
        "a stranded membership caller must be told the outcome is undecided"
    );
    assert_eq!(server.waiting_member_count(), 0);
}

/// If leadership changes before a membership change commits, a different `ConfigChange` can later
/// commit at the same log index. A caller waiting on the original request must never be told its own
/// change succeeded.
#[test]
fn stranded_membership_client_never_receives_a_different_configs_result() {
    let mut server = test_server(1);
    run(&mut server, Event::ElectionTimeout);
    let leader_term = server.runtime().node().persistent().current_term();
    server.request_membership(
        MembershipRequest::Add {
            id: NodeId::from(2),
            addr: test_addr(19999),
        },
        3,
    );
    assert_eq!(
        server.runtime().node().persistent().log().last_index(),
        LogIndex::from(2)
    );

    let mut answers = run(&mut server, outvoted(leader_term)).replies.members;
    let unrelated = ClusterConfig::new(vec![
        (NodeId::from(1), test_addr(19001)),
        (NodeId::from(7), test_addr(19007)),
    ])
    .unwrap();
    answers.extend(
        run(
            &mut server,
            overwritten(leader_term, LogPayload::ConfigChange(unrelated)),
        )
        .replies
        .members,
    );

    assert!(
        !answers.contains(&(3, MembershipResult::Committed)),
        "stranded membership caller was told an unrelated config change succeeded"
    );
}

#[test]
fn client_is_answered_with_the_output_of_its_own_command() {
    let mut server = test_server(1);
    let refused = server.submit(KvCommand::Get { key: "a".to_string() }, 1);
    assert_eq!(refused, Some(ApiResponse::NotLeader { leader_hint: None }));

    run(&mut server, Event::ElectionTimeout);
    for (ticket, value) in [(5, "one"), (6, "two")] {
        let answer = server.submit(
            KvCommand::Put {
                key: "a".to_string(),
                value: value.to_string(),
            },
            ticket,
        );
        assert!(answer.is_none());
    }
    assert!(server.submit(KvCommand::Get { key: "a".to_string() }, 9).is_none());

    let handled = run(&mut server, Event::HeartbeatTimeout);
    assert_eq!(
        handled.replies.clients,
        vec![
            (5, ApiResponse::Result(KvResult::Done)),
            (6, ApiResponse::Result(KvResult::Done)),
            (9, ApiResponse::Result(KvResult::Value(Some("two".to_string())))),
        ]
    );
}

#[test]
fn start_restores_storage_and_routes_to_the_peers() {
    let config = |peers| Config {
        id: NodeId::from(1),
        addr: test_addr(9001),
        peers,
        snapshot_policy: SnapshotPolicy::default(),
    };
    let server: KvServer = Server::start(
        config(vec![(NodeId::from(2), test_addr(9002))]),
        KvStore::new(),
        MemoryStorage::new(),
    )
    .unwrap();
    assert_eq!(server.peer_routes().peer_ids(), vec![NodeId::from(2)]);
    assert_eq!(server.runtime().node().config().size(), 2);

    let refused = server.runtime().node().leader_hint();
    assert_eq!(refused, None);
}

#[test]
fn runtime_failures_are_server_failures() {
    let storage: ServerError<u8, u8> = ServerError::from_runtime(RuntimeError::Storage(1));
    assert!(matches!(storage, ServerError::Storage(1)));
    let machine: ServerError<u8, u8> = ServerError::from_runtime(RuntimeError::StateMachine(2));
    assert!(matches!(machine, ServerError::StateMachine(2)));
}

#[test]
fn server_waits_until_the_deadline_or_the_limit() {
    let server = test_server(1);
    let deadline = server.runtime().next_deadline();
    let early = Instant { nanos: deadline.nanos - 3_000_000 };
    assert_eq!(server.wait_time(early, 5_000_000), 3_000_000);
    assert_eq!(server.wait_time(early, 1_000_000), 1_000_000);
    assert_eq!(server.wait_time(deadline, 5_000_000), 0);
    assert!(server.poll_timers().is_none());
}

#[test]
fn a_timeout_that_has_fired_comes_before_waiting() {
    let server = test_server(1);
    let deadline = server.runtime().next_deadline();
    let early = Instant { nanos: deadline.nanos - 3_000_000 };
    assert!(matches!(
        server.next_turn_at(deadline, deadline, 5_000_000),
        Turn::Handle(Event::ElectionTimeout)
    ));
    assert!(matches!(
        server.next_turn_at(early, early, 5_000_000),
        Turn::Wait(3_000_000)
    ));
    assert!(matches!(server.next_turn(5_000_000), Turn::Wait(5_000_000)));
}

#[test]
fn reads_are_served_from_the_state_machine() {
    let mut server = test_server(1);
    run(&mut server, Event::ElectionTimeout);
    server.submit(
        KvCommand::Put {
            key: "a".to_string(),
            value: "b".to_string(),
        },
        1,
    );
    run(&mut server, Event::HeartbeatTimeout);
    let data = server.runtime().state_machine().snapshot().unwrap();
    assert_eq!(data.as_bytes(), b"{\"entries\":{\"a\":\"b\"}}");
}

/// A leader whose own removal commits steps down in that step. The change has committed all the same,
/// so whoever asked for it is told so. Every client that waits is sent elsewhere.
#[test]
fn leader_that_removes_itself_tells_that_the_change_committed() {
    let mut server = test_server(1);
    run(&mut server, Event::ElectionTimeout);
    let term = server.runtime().node().persistent().current_term();
    let joining = MembershipRequest::Add { id: NodeId::from(2), addr: test_addr(19999) };
    assert_eq!(server.request_membership(joining, 1), None);
    run(&mut server, acknowledge(term, LogIndex::from(2)));

    let put = |value: &str| KvCommand::Put { key: "a".to_string(), value: value.to_string() };
    assert!(server.submit(put("one"), 2).is_none());
    let leaving = MembershipRequest::Remove { id: NodeId::from(1) };
    assert_eq!(server.request_membership(leaving, 3), None);
    assert!(server.submit(put("two"), 4).is_none());

    let handled = run(&mut server, acknowledge(term, LogIndex::from(4)));
    assert!(!is_leader(&server));
    assert_eq!(handled.replies.members, vec![(3, MembershipResult::Committed)]);
    assert_eq!(
        handled.replies.clients,
        vec![
            (2, ApiResponse::NotLeader { leader_hint: None }),
            (4, ApiResponse::NotLeader { leader_hint: None }),
        ]
    );
    assert_eq!(server.waiting_count(), 0);
    assert_eq!(server.waiting_member_count(), 0);
}
