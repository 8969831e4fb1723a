use std::collections::HashMap;
use std::collections::HashSet;
use std::collections::VecDeque;

use raft::Command;
use raft::Event;
use raft::LoadedState;
use raft::MemoryStorage;
use raft::Node;
use raft::Role;
use raft::Runtime;
use raft::SnapshotPolicy;
use raft::StateMachine;
use raft::Storage;
use raft::TimerConfig;
use raft::kv::KvCommand;
use raft::kv::KvResult;
use raft::kv::KvStore;
use raft::runtime::NonZeroUsize;
use raft::storage::StorageCallOf;
use raft::storage::StoredOf;
use raft::storage::file::FileCache;
use raft::storage::file::FileWrite;
use raft::storage::file::Files;
use raft::types::AppendEntries;
use raft::types::AppendEntriesResponse;
use raft::types::ClusterConfig;
use raft::types::InstallSnapshot;
use raft::types::LogEntry;
use raft::types::LogIndex;
use raft::types::LogPayload;
use raft::types::Membership;
use raft::types::Message;
use raft::types::NodeId;
use raft::types::RequestVoteResponse;
use raft::types::Snapshot;
use raft::types::SnapshotData;
use raft::types::SnapshotMeta;
use raft::types::SocketAddr;
use raft::types::SuffixDisposition;
use raft::types::Term;
use raft::types::Vote;

type KvRuntime = Runtime<KvCommand, KvStore, MemoryStorage<KvCommand>>;

/// A message in flight between nodes.
struct InFlight {
    from: NodeId,
    to: NodeId,
    message: Message<KvCommand>,
}

/// A placeholder address for a simulated node. The harness routes messages in
/// memory by `NodeId` and never opens a socket, so only uniqueness matters.
fn dummy_addr(id_value: u64) -> SocketAddr {
    SocketAddr::V4 { ip: 0x7f00_0001, port: (9000 + id_value) as u16 }
}

/// A cluster simulated in one process, with `MemoryStorage` on every node.
///
/// Message delivery is explicit rather than concurrent: the harness queues what
/// each node emits and delivers it on demand, so a test can drive an exact
/// interleaving and reproduce it on every run.
struct Cluster {
    runtimes: Vec<KvRuntime>,
    messages: VecDeque<InFlight>,
    /// Nodes cut off from the rest of the cluster. Messages to or from them are
    /// dropped in flight until `heal_partition`.
    partitioned: HashSet<NodeId>,
    /// Applied to every node created by `with_snapshot_policy` and `add_node`,
    /// so a node joining later compacts on the same schedule as its peers.
    snapshot_policy: SnapshotPolicy,
    /// The configuration each node was created with, by index.
    ///
    /// `restart` passes this back to `Runtime::from_storage` as
    /// `initial_config`, the fallback a restarted node uses when neither its log
    /// nor its snapshot carries a `ConfigChange`.
    initial_configs: Vec<ClusterConfig>,
}

impl Cluster {
    /// A cluster of `size` nodes with automatic compaction disabled.
    ///
    /// # Panics
    /// If `size` is 0, which is not a meaningful fixture.
    fn new(size: usize) -> Self {
        Self::with_snapshot_policy(size, SnapshotPolicy::default())
    }

    /// A cluster of `size` nodes, each compacting according to `snapshot_policy`.
    ///
    /// # Panics
    /// If `size` is 0, which is not a meaningful fixture.
    fn with_snapshot_policy(size: usize, snapshot_policy: SnapshotPolicy) -> Self {
        assert!(size > 0, "Cluster::new requires at least one node");
        let ids: Vec<NodeId> = (1..=size).map(|i| NodeId::from(i as u64)).collect();

        // Every node starts from the same full membership, as a cluster brought
        // up from a shared configuration file would.
        let members: Vec<(NodeId, SocketAddr)> =
            ids.iter().map(|&id| (id, dummy_addr(id.value()))).collect();
        let config = match ClusterConfig::new(members) {
            Ok(config) => config,
            // The assertion above guarantees members is non-empty.
            Err(_) => unreachable!("Cluster::new asserts size > 0, so members is non-empty"),
        };

        let runtimes = ids
            .iter()
            .map(|&id| {
                let node = Node::new(id, config.clone());
                Runtime::new(
                    node,
                    KvStore::default(),
                    MemoryStorage::new(),
                    TimerConfig::default(),
                    snapshot_policy,
                )
            })
            .collect();

        Self {
            runtimes,
            messages: VecDeque::new(),
            partitioned: HashSet::new(),
            snapshot_policy,
            initial_configs: ids.iter().map(|_| config.clone()).collect(),
        }
    }

    /// Adds a node to a running cluster, simulating a member that joins partway
    /// through a test.
    ///
    /// The new node's configuration contains only itself. That view is replaced
    /// as soon as the leader reaches it, since both AppendEntries and
    /// InstallSnapshot carry the real membership.
    fn add_node(&mut self, id_value: u64) {
        let id = NodeId::from(id_value);
        let solo_config = match ClusterConfig::new(vec![(id, dummy_addr(id_value))]) {
            Ok(config) => config,
            Err(_) => unreachable!("a single-member config is always valid"),
        };
        let node = Node::new(id, solo_config.clone());
        let runtime = Runtime::new(
            node,
            KvStore::default(),
            MemoryStorage::new(),
            TimerConfig::default(),
            self.snapshot_policy,
        );
        self.runtimes.push(runtime);
        self.initial_configs.push(solo_config);
    }

    /// Crashes and restarts node `index`, rebuilding its runtime from its own
    /// storage through `Runtime::from_storage`, exactly as a process restart
    /// would. All volatile state is lost and the node comes back as a follower.
    ///
    /// The node keeps its position in `runtimes`, so callers can go on
    /// addressing it by the same index.
    ///
    /// # Panics
    /// If `from_storage` fails. For `KvStore` that requires a restore failure,
    /// which cannot happen for the reason given on `election_timeout`.
    fn restart(&mut self, index: usize) {
        let old = self.runtimes.remove(index);
        let id = old.node().id();
        let storage = old.into_storage();
        let restored = Runtime::from_storage(
            id,
            self.initial_configs[index].clone(),
            KvStore::default(),
            storage,
            TimerConfig::default(),
            self.snapshot_policy,
        )
        .unwrap();
        self.runtimes.insert(index, restored);
    }

    /// Cuts node `index` off from the cluster. Messages to or from it are
    /// dropped in flight, not queued, until `heal_partition`.
    fn partition(&mut self, index: usize) {
        self.partitioned.insert(self.runtimes[index].node().id());
    }

    /// Reconnects a previously partitioned node.
    fn heal_partition(&mut self, index: usize) {
        self.partitioned.remove(&self.runtimes[index].node().id());
    }

    /// A node's runtime, by zero-based index.
    fn runtime(&self, index: usize) -> &KvRuntime {
        &self.runtimes[index]
    }

    /// Mutable access to a node's runtime, by zero-based index.
    fn runtime_mut(&mut self, index: usize) -> &mut KvRuntime {
        &mut self.runtimes[index]
    }

    /// Fires the election timeout on node `index` and queues what it emits.
    // KvStore's snapshot and restore only serialize an in-memory
    // HashMap<String, String>, which never fails in practice, so RuntimeError is
    // unreachable here even when the snapshot policy compacts. Not provable, but
    // not worth a fallible harness API threaded through every test.
    fn election_timeout(&mut self, index: usize) {
        let commands = self.runtimes[index]
            .handle(raft::Event::ElectionTimeout)
            .unwrap();
        self.queue_commands(index, commands);
    }

    /// Fires the heartbeat interval on node `index` and queues what it emits.
    fn heartbeat_timeout(&mut self, index: usize) {
        let commands = self.runtimes[index]
            .handle(raft::Event::HeartbeatTimeout)
            .unwrap();
        self.queue_commands(index, commands);
    }

    /// Delivers the oldest queued message. Returns whether there was one.
    fn deliver_one(&mut self) -> bool {
        if let Some(msg) = self.messages.pop_front() {
            self.deliver(msg);
            true
        } else {
            false
        }
    }

    /// Delivers queued messages until none remain, including those generated by
    /// the deliveries themselves.
    fn deliver_all(&mut self) {
        while let Some(msg) = self.messages.pop_front() {
            self.deliver(msg);
        }
    }

    /// Delivers one message and queues whatever the recipient emits in response.
    ///
    /// A message is discarded, not deferred, when either endpoint is
    /// partitioned. A real network drops packets it cannot route rather than
    /// buffering them until the link returns.
    fn deliver(&mut self, inflight: InFlight) {
        if self.partitioned.contains(&inflight.from) || self.partitioned.contains(&inflight.to) {
            return;
        }
        let to_index = self.node_index(inflight.to);
        if let Some(index) = to_index {
            let commands = self.runtimes[index]
                .handle(raft::Event::Message {
                    from: inflight.from,
                    message: inflight.message,
                })
                .unwrap();
            self.queue_commands(index, commands);
        }
    }

    /// Queues the `Send` commands a node emitted. Timer commands are irrelevant
    /// here, since the harness drives timeouts explicitly.
    fn queue_commands(&mut self, from_index: usize, commands: Vec<Command<KvCommand>>) {
        let from_id = self.runtimes[from_index].node().id();
        for command in commands {
            if let Command::Send { to, message } = command {
                self.messages.push_back(InFlight {
                    from: from_id,
                    to,
                    message,
                });
            }
        }
    }

    /// Index of the node with `id`, or `None` if no such node exists.
    fn node_index(&self, id: NodeId) -> Option<usize> {
        self.runtimes.iter().position(|rt| rt.node().id() == id)
    }

    /// Index of a node currently believing itself leader, if any. Two nodes can
    /// hold that belief at once across different terms, in which case this
    /// returns the first.
    fn leader(&self) -> Option<usize> {
        self.runtimes
            .iter()
            .position(|rt| matches!(rt.node().role(), Role::Leader(_)))
    }

    /// Counts of followers, candidates, and leaders, in that order.
    fn role_counts(&self) -> (usize, usize, usize) {
        let mut followers = 0;
        let mut candidates = 0;
        let mut leaders = 0;

        for rt in &self.runtimes {
            match rt.node().role() {
                Role::Follower(_) => followers += 1,
                Role::Candidate(_) => candidates += 1,
                Role::Leader(_) => leaders += 1,
            }
        }

        (followers, candidates, leaders)
    }
}

/// Storage whose files are values, so that closing and opening it again goes through exactly what
/// has been written.
struct SimulatedFiles {
    files: Files<KvCommand>,
    cache: FileCache<KvCommand>,
}

fn no_files() -> Files<KvCommand> {
    Files {
        current_term: Term::default(),
        voted_for: None,
        snapshot: None,
        first_index: LogIndex::from(1),
        entries: Vec::new(),
        intent: None,
    }
}

fn copy_files(files: &Files<KvCommand>) -> Files<KvCommand> {
    Files {
        current_term: files.current_term,
        voted_for: files.voted_for,
        snapshot: files.snapshot.clone(),
        first_index: files.first_index,
        entries: files.entries.clone(),
        intent: files.intent,
    }
}

impl SimulatedFiles {
    fn new() -> Self {
        let (cache, writes) = FileCache::open(no_files());
        assert!(writes.is_empty());
        SimulatedFiles { files: no_files(), cache }
    }

    fn write(&mut self, write: FileWrite<KvCommand>) {
        match write {
            FileWrite::Meta { term, voted_for } => {
                self.files.current_term = term;
                self.files.voted_for = voted_for;
            }
            FileWrite::Snapshot { snapshot } => self.files.snapshot = Some(snapshot),
            FileWrite::Intent { intent } => self.files.intent = Some(intent),
            FileWrite::Append { entry } => self.files.entries.push(entry),
            FileWrite::Rewrite { first_index, entries } => {
                self.files.first_index = first_index;
                self.files.entries = entries;
            }
            FileWrite::ClearIntent => self.files.intent = None,
        }
    }

    fn write_all(&mut self, writes: Vec<FileWrite<KvCommand>>) {
        for write in writes {
            self.write(write);
        }
    }

    fn reopen(&self) -> Self {
        let (cache, writes) = FileCache::open(copy_files(&self.files));
        let mut reopened = SimulatedFiles { files: copy_files(&self.files), cache };
        reopened.write_all(writes);
        reopened
    }
}

impl Storage<KvCommand> for SimulatedFiles {
    type Error = std::convert::Infallible;

    fn stored(&self) -> StoredOf<KvCommand> {
        unreachable!("only stated, never run")
    }

    fn may_answer(
        &self,
        _call: StorageCallOf<KvCommand>,
        _result: Result<(), Self::Error>,
        _after: Self,
    ) -> bool {
        unreachable!("only stated, never run")
    }

    fn load(&self) -> Result<LoadedState<KvCommand>, Self::Error> {
        Ok(self.cache.load())
    }

    fn set_meta(&mut self, term: Term, voted_for: Option<NodeId>) -> Result<(), Self::Error> {
        let writes = self.cache.set_meta(term, voted_for);
        self.write_all(writes);
        Ok(())
    }

    fn truncate_from(&mut self, index: LogIndex) -> Result<(), Self::Error> {
        let writes = self.cache.truncate_from(index);
        self.write_all(writes);
        Ok(())
    }

    fn append(&mut self, entries: &[LogEntry<KvCommand>]) -> Result<(), Self::Error> {
        let writes = self.cache.append(entries);
        for (write, entry) in writes.into_iter().zip(entries) {
            self.write(write);
            self.cache.appended(entry);
        }
        Ok(())
    }

    fn install_snapshot(
        &mut self,
        snapshot: &Snapshot,
        disposition: SuffixDisposition,
    ) -> Result<(), Self::Error> {
        let first = self.cache.begin_install(snapshot, disposition);
        self.write_all(first);
        let rest = self.cache.install_snapshot(snapshot, disposition);
        self.write_all(rest);
        Ok(())
    }
}

fn addr(port: u16) -> SocketAddr {
    SocketAddr::V4 { ip: 0x7f00_0001, port }
}

fn set(key: &str, value: &str) -> KvCommand {
    KvCommand::Put {
        key: key.to_string(),
        value: value.to_string(),
    }
}

/// Drives node `i` through an election and delivers everything it produces.
fn elect(cluster: &mut Cluster, i: usize) {
    cluster.election_timeout(i);
    cluster.deliver_all();
}


/// A single-node cluster reaches leadership on the election timeout alone. Its
/// own vote is already a majority, so no message is exchanged.
#[test]
fn single_node_becomes_leader_without_messages() {
    let mut cluster: Cluster = Cluster::new(1);

    cluster.election_timeout(0);

    assert_eq!(
        cluster.leader(),
        Some(0),
        "single node must win its own election"
    );
    assert_eq!(cluster.role_counts(), (0, 0, 1));
}

/// A lone leader commits and applies without any peer traffic. Its own log is
/// the whole quorum, so nothing will ever acknowledge on its behalf.
#[test]
fn single_node_applies_a_command_with_no_peer_to_acknowledge_it() {
    let mut cluster: Cluster = Cluster::new(1);
    cluster.election_timeout(0);

    cluster
        .runtime_mut(0)
        .submit(set("city", "amsterdam"))
        .unwrap();
    // The runtime applies committed entries while handling an event. No peer
    // will ever send one here, so the heartbeat tick is what pumps the apply
    // loop, exactly as the server loop drives it.
    cluster.heartbeat_timeout(0);

    let outputs = cluster.runtime_mut(0).take_outputs();
    assert_eq!(
        outputs.len(),
        1,
        "the command commits on the local append alone"
    );

    let result = cluster
        .runtime_mut(0)
        .state_machine_mut()
        .apply(KvCommand::Get {
            key: "city".to_string(),
        });
    assert_eq!(result, KvResult::Value(Some("amsterdam".to_string())));
}

/// What a lone leader committed survives a restart, and is restored from the
/// snapshot the commit made compactable.
#[test]
fn single_node_recovers_what_it_committed_alone_across_a_restart() {
    let policy = SnapshotPolicy {
        compact_threshold: NonZeroUsize::new(2),
    };
    let mut cluster: Cluster = Cluster::with_snapshot_policy(1, policy);
    cluster.election_timeout(0);

    for (key, value) in [("city", "amsterdam"), ("country", "netherlands")] {
        cluster.runtime_mut(0).submit(set(key, value)).unwrap();
        cluster.heartbeat_timeout(0);
        cluster.runtime_mut(0).take_outputs();
    }

    cluster.restart(0);
    // commit_index is volatile and comes back at the snapshot boundary, so the
    // recovered suffix is durable but uncommitted. Only a new leader commits it,
    // and on a lone node nothing but its own append can.
    cluster.election_timeout(0);

    let result = cluster
        .runtime_mut(0)
        .state_machine_mut()
        .apply(KvCommand::Get {
            key: "country".to_string(),
        });
    assert_eq!(
        result,
        KvResult::Value(Some("netherlands".to_string())),
        "a restart must not lose entries that committed without peer acks"
    );
}

/// A lone leader commits its own membership change, so growing a one-node
/// cluster is not blocked on the member it is about to add.
#[test]
fn single_node_commits_the_config_change_that_adds_a_second_member() {
    let mut cluster: Cluster = Cluster::new(1);
    cluster.election_timeout(0);

    let members: Vec<(NodeId, SocketAddr)> =
        [(NodeId::from(1), addr(9001))].into_iter().collect();
    let index = cluster
        .runtime_mut(0)
        .submit_config_change(ClusterConfig::new(members).unwrap())
        .unwrap();

    assert_eq!(index, LogIndex::from(2));
    assert_eq!(
        cluster.runtime(0).node().volatile().commit_index,
        LogIndex::from(2),
        "the sole member is the quorum for its own change"
    );
}

/// A three-node election: one candidate and two voters, of whom one suffices
/// for a majority.
#[test]
fn three_node_cluster_elects_single_leader() {
    let mut cluster: Cluster = Cluster::new(3);

    elect(&mut cluster, 0);

    assert_eq!(cluster.leader(), Some(0));
    let (followers, candidates, leaders) = cluster.role_counts();
    assert_eq!(leaders, 1, "exactly one leader");
    assert_eq!(candidates, 0, "no lingering candidates");
    assert_eq!(followers, 2);
}

/// In a five-node cluster a candidate needs three votes: its own plus two peers.
#[test]
fn five_node_cluster_elects_with_majority() {
    let mut cluster: Cluster = Cluster::new(5);

    elect(&mut cluster, 2);

    assert_eq!(cluster.leader(), Some(2));
    assert_eq!(cluster.role_counts(), (4, 0, 1));
}

/// A follower that times out while a leader is active starts an election in a
/// higher term. The leader sees that term in the vote request, steps down, and
/// the candidate wins.
#[test]
fn re_election_after_leader_steps_down() {
    let mut cluster: Cluster = Cluster::new(3);

    elect(&mut cluster, 0);
    assert_eq!(cluster.leader(), Some(0));

    // Node 1 stands for election in term 2. Node 0 sees the higher term in the
    // vote request, steps down, and grants the vote.
    elect(&mut cluster, 1);

    assert_eq!(
        cluster.leader(),
        Some(1),
        "node 1 must win the new election"
    );
    assert!(
        matches!(cluster.runtime(0).node().role(), Role::Follower(_)),
        "former leader must be a follower"
    );
}

/// After the first heartbeat, followers learn who the current leader is.
#[test]
fn followers_track_leader_identity() {
    let mut cluster: Cluster = Cluster::new(3);
    elect(&mut cluster, 0);

    cluster.heartbeat_timeout(0);
    cluster.deliver_all();

    let leader_id = cluster.runtime(0).node().id();
    for i in 1..3 {
        if let Role::Follower(f) = cluster.runtime(i).node().role() {
            assert_eq!(
                f.leader_id(),
                Some(leader_id),
                "follower {i} must track the current leader"
            );
        }
    }
}

/// Once a command is committed and applied, the state machine reflects it.
#[test]
fn state_machine_reflects_committed_command() {
    let mut cluster: Cluster = Cluster::new(3);
    elect(&mut cluster, 0);

    cluster
        .runtime_mut(0)
        .submit(set("city", "amsterdam"))
        .unwrap();

    cluster.heartbeat_timeout(0);
    cluster.deliver_all();

    let result = cluster
        .runtime_mut(0)
        .state_machine_mut()
        .apply(KvCommand::Get {
            key: "city".to_string(),
        });
    assert_eq!(result, KvResult::Value(Some("amsterdam".to_string())));
}

/// A submitted command produces no output until a majority acknowledges it.
#[test]
fn outputs_empty_before_commit() {
    let mut cluster: Cluster = Cluster::new(3);
    elect(&mut cluster, 0);

    cluster
        .runtime_mut(0)
        .submit(set("pending", "true"))
        .unwrap();

    assert!(
        cluster.runtime_mut(0).take_outputs().is_empty(),
        "command must not be applied before majority ack"
    );
}

/// Leadership transfers across three consecutive terms without losing safety.
///
/// Each leader replicates its no-op before the next election because the
/// up-to-date check of section 5.4.1 denies a vote to a candidate with a stale
/// log. Skipping a replication round would leave the next candidate behind and
/// its RequestVote refused.
#[test]
fn three_consecutive_re_elections() {
    let mut cluster: Cluster = Cluster::new(3);

    elect(&mut cluster, 0);
    cluster.heartbeat_timeout(0); // replicates the term 1 no-op
    cluster.deliver_all();

    elect(&mut cluster, 1);
    cluster.heartbeat_timeout(1); // replicates the term 2 no-op
    cluster.deliver_all();

    elect(&mut cluster, 2); // node 2's log is current, so it wins term 3

    assert_eq!(cluster.leader(), Some(2));
    assert_eq!(cluster.role_counts(), (2, 0, 1));
    assert!(matches!(
        cluster.runtime(0).node().role(),
        Role::Follower(_)
    ));
    assert!(matches!(
        cluster.runtime(1).node().role(),
        Role::Follower(_)
    ));
}

/// A new leader appends a no-op (section 8) and then the submitted command. One
/// heartbeat round trip carries both to every node.
#[test]
fn command_replicated_to_all_followers_after_one_heartbeat() {
    let mut cluster: Cluster = Cluster::new(3);
    elect(&mut cluster, 0);

    cluster
        .runtime_mut(0)
        .submit(set("hostname", "node-alpha"))
        .unwrap();

    cluster.heartbeat_timeout(0);
    cluster.deliver_all();

    for i in 0..3 {
        assert_eq!(
            cluster.runtime(i).node().persistent().log().len(),
            2, // the no-op at index 1 and the command at index 2
            "node {i} must have both log entries"
        );
    }
}

/// The leader commits once a majority acknowledges. A second heartbeat carries
/// the updated commit_index to followers so they can apply the entry too.
#[test]
fn command_committed_and_applied_on_all_nodes() {
    let mut cluster: Cluster = Cluster::new(3);
    elect(&mut cluster, 0);

    cluster
        .runtime_mut(0)
        .submit(set("region", "eu-west-1"))
        .unwrap();

    // The first round replicates the entries. One acknowledgement plus the
    // leader's own copy is a majority of three, so the leader commits.
    cluster.heartbeat_timeout(0);
    cluster.deliver_all();

    assert_eq!(
        cluster.runtime(0).node().volatile().commit_index,
        LogIndex::from(2),
        "leader must have committed both entries"
    );

    // The second round carries that commit index to the followers.
    cluster.heartbeat_timeout(0);
    cluster.deliver_all();

    for i in 1..3 {
        assert_eq!(
            cluster.runtime(i).node().volatile().commit_index,
            LogIndex::from(2),
            "follower {i} must have received the updated commit index"
        );
    }
}

/// Multiple commands are replicated and applied in submission order.
#[test]
fn multiple_commands_applied_in_order() {
    let mut cluster: Cluster = Cluster::new(3);
    elect(&mut cluster, 0);

    cluster.runtime_mut(0).submit(set("user", "miles")).unwrap();
    cluster.runtime_mut(0).submit(set("role", "admin")).unwrap();

    cluster.heartbeat_timeout(0);
    cluster.deliver_all();
    cluster.heartbeat_timeout(0);
    cluster.deliver_all();

    // Indices 2 and 3 carry the commands; index 1 is the no-op, which produces
    // no output.
    let outputs = cluster.runtime_mut(0).take_outputs();
    assert_eq!(outputs.len(), 2);
    assert_eq!(outputs[0], (Term::from(1), LogIndex::from(2), KvResult::Done));
    assert_eq!(outputs[1], (Term::from(1), LogIndex::from(3), KvResult::Done));
}

/// A follower refuses a client command, so the client can be redirected to the
/// leader instead of silently writing to a node that cannot replicate.
#[test]
fn submit_to_follower_returns_none() {
    let mut cluster: Cluster = Cluster::new(3);
    elect(&mut cluster, 0);

    let index = cluster.runtime_mut(1).submit(set("key", "value"));
    assert!(index.is_err(), "follower must reject client commands");
}

/// After re-election the new leader can still accept and commit commands.
#[test]
fn new_leader_accepts_commands_after_re_election() {
    let mut cluster: Cluster = Cluster::new(3);
    elect(&mut cluster, 0);
    elect(&mut cluster, 1); // node 1 takes over in term 2

    assert_eq!(cluster.leader(), Some(1));

    let index = cluster.runtime_mut(1).submit(set("datacenter", "ams1"));
    assert!(index.is_ok(), "new leader must accept commands");

    cluster.heartbeat_timeout(1);
    cluster.deliver_all();
    cluster.heartbeat_timeout(1);
    cluster.deliver_all();

    assert_eq!(
        cluster.runtime(1).node().volatile().commit_index,
        index.unwrap(),
        "new leader must commit its own command"
    );
}

/// A follower partitioned before the leader ever compacts falls behind the
/// entire compacted prefix.
///
/// Once healed, its `next_index` points at entries the leader no longer holds,
/// so AppendEntries cannot serve it and the leader must send a snapshot instead.
/// The follower has to reach the leader's state without ever replaying the
/// compacted log.
#[test]
fn lagging_follower_catches_up_via_install_snapshot() {
    let mut cluster: Cluster = Cluster::with_snapshot_policy(
        3,
        SnapshotPolicy {
            compact_threshold: NonZeroUsize::new(2),
        },
    );
    elect(&mut cluster, 0);

    // Node 2 falls behind before it receives even the leader's no-op.
    cluster.partition(2);

    for (key, value) in [("a", "1"), ("b", "2"), ("c", "3"), ("d", "4")] {
        cluster.runtime_mut(0).submit(set(key, value)).unwrap();
        cluster.heartbeat_timeout(0);
        cluster.deliver_all();
    }
    // Carries the last commit index to node 1, which lets it compact too.
    cluster.heartbeat_timeout(0);
    cluster.deliver_all();

    assert!(
        cluster
            .runtime(0)
            .node()
            .persistent()
            .log()
            .snapshot_last_index()
            > LogIndex::from(0),
        "leader must have compacted past the threshold while node 2 was partitioned"
    );

    cluster.heal_partition(2);
    // The leader's next_index for node 2 is still 1, below the compacted
    // boundary, so this round must send InstallSnapshot rather than
    // AppendEntries.
    cluster.heartbeat_timeout(0);
    cluster.deliver_all();
    // A second round replicates any entries appended after the last compaction,
    // which the snapshot does not cover.
    cluster.heartbeat_timeout(0);
    cluster.deliver_all();

    for key in ["a", "b", "c", "d"] {
        let expected = cluster
            .runtime_mut(0)
            .state_machine_mut()
            .apply(KvCommand::Get {
                key: key.to_string(),
            });
        let actual = cluster
            .runtime_mut(2)
            .state_machine_mut()
            .apply(KvCommand::Get {
                key: key.to_string(),
            });
        assert_eq!(
            actual, expected,
            "node 2 must converge to the leader's value for {key:?} via InstallSnapshot"
        );
    }
    assert!(
        cluster.runtime(2).node().persistent().log().first_index() > LogIndex::from(1),
        "node 2's log must start after the installed snapshot boundary, not at index 1"
    );
}

/// Both halves of a node's durable state survive a restart from `FileStorage`:
/// the committed prefix folded into a snapshot, and the uncommitted suffix
/// appended just before the crash.
#[test]
fn restarted_node_recovers_from_snapshot_plus_suffix() {
    let config = ClusterConfig::new(vec![
        (NodeId::from(1), addr(19101)),
        (NodeId::from(2), addr(19102)),
    ])
    .unwrap();

    let mut rt: Runtime<KvCommand, KvStore, SimulatedFiles> = Runtime::new(
        Node::new(NodeId::from(1), config.clone()),
        KvStore::new(),
        SimulatedFiles::new(),
        TimerConfig::default(),
        SnapshotPolicy {
            compact_threshold: NonZeroUsize::new(1),
        },
    );

    rt.handle(Event::ElectionTimeout).unwrap();
    rt.handle(Event::Message {
        from: NodeId::from(2),
        message: Message::RequestVoteResponse(RequestVoteResponse {
            term: Term::from(1),
            vote: Vote::Granted,
        }),
    })
    .unwrap();
    assert!(matches!(rt.node().role(), Role::Leader(_)));

    // A simulated acknowledgement from peer 2 commits the entry, and the
    // threshold of 1 compacts it immediately.
    let index = rt.submit(set("region", "eu-west-1")).unwrap();
    rt.handle(Event::Message {
        from: NodeId::from(2),
        message: Message::AppendEntriesResponse(AppendEntriesResponse::Accepted {
            term: Term::from(1),
            match_index: index,
        }),
    })
    .unwrap();
    assert!(
        rt.node().persistent().log().snapshot_last_index() > LogIndex::from(0),
        "threshold of 1 must have compacted after the first commit"
    );

    // Appended and persisted but never acknowledged, so it is still uncommitted
    // when the crash happens.
    rt.submit(set("region", "us-east-1")).unwrap();
    rt.handle(Event::HeartbeatTimeout).unwrap();

    // Dropping the runtime and reopening the same directory is the crash.
    let reopened = rt.into_storage().reopen();
    let mut restored = Runtime::from_storage(
        NodeId::from(1),
        config,
        KvStore::new(),
        reopened,
        TimerConfig::default(),
        SnapshotPolicy::default(),
    )
    .unwrap();

    assert!(
        restored
            .node()
            .persistent()
            .log()
            .entry(LogIndex::from(1))
            .is_none(),
        "compacted entries must not be replayable from the log after restart"
    );
    assert_eq!(
        restored.state_machine_mut().apply(KvCommand::Get {
            key: "region".to_string()
        }),
        KvResult::Value(Some("eu-west-1".to_string())),
        "restored state machine must reflect the committed snapshot, \
         not the uncommitted suffix written just before the crash"
    );
}

/// An `InstallSnapshot` whose boundary conflicts with the local log must clear
/// the whole stale suffix from durable storage, not only the compacted prefix.
///
/// Otherwise a later append lands after entries the node itself discarded, and
/// the log on disk no longer matches the one in memory once the node restarts.
#[test]
fn restarted_node_discards_stale_suffix_after_conflicting_install_snapshot() {
    let config = ClusterConfig::new(vec![
        (NodeId::from(1), addr(19201)),
        (NodeId::from(2), addr(19202)),
        (NodeId::from(3), addr(19203)),
    ])
    .unwrap();

    let mut rt: Runtime<KvCommand, KvStore, SimulatedFiles> = Runtime::new(
        Node::new(NodeId::from(1), config.clone()),
        KvStore::new(),
        SimulatedFiles::new(),
        TimerConfig::default(),
        SnapshotPolicy::default(),
    );

    // A term 1 leader replicates three entries, none of which commit.
    let entries: Vec<LogEntry<KvCommand>> = ["a", "b", "c"]
        .iter()
        .map(|k| LogEntry {
            term: Term::from(1),
            payload: LogPayload::Command(set(k, "1")),
        })
        .collect();
    rt.handle(Event::Message {
        from: NodeId::from(3),
        message: Message::AppendEntries(AppendEntries {
            term: Term::from(1),
            leader_id: NodeId::from(3),
            prev_log_index: LogIndex::from(0),
            prev_log_term: Term::from(0),
            entries,
            leader_commit: LogIndex::from(0),
        }),
    })
    .unwrap();

    // A term 9 leader installs a snapshot whose boundary at index 2 claims term
    // 9, conflicting with the local term 1 entry there. The whole log goes.
    let mut source = KvStore::new();
    source.apply(set("a", "leader"));
    let data: SnapshotData = StateMachine::snapshot(&source).unwrap();
    rt.handle(Event::Message {
        from: NodeId::from(2),
        message: Message::InstallSnapshot(InstallSnapshot {
            term: Term::from(9),
            leader_id: NodeId::from(2),
            snapshot: Snapshot {
                meta: SnapshotMeta {
                    last_index: LogIndex::from(2),
                    last_term: Term::from(9),
                    config: config.clone(),
                },
                data,
            },
        }),
    })
    .unwrap();
    assert_eq!(rt.node().persistent().log().len(), 0);

    // The new leader then replicates a fresh term 9 entry at index 3.
    rt.handle(Event::Message {
        from: NodeId::from(2),
        message: Message::AppendEntries(AppendEntries {
            term: Term::from(9),
            leader_id: NodeId::from(2),
            prev_log_index: LogIndex::from(2),
            prev_log_term: Term::from(9),
            entries: vec![LogEntry {
                term: Term::from(9),
                payload: LogPayload::Command(set("d", "fresh")),
            }],
            leader_commit: LogIndex::from(2),
        }),
    })
    .unwrap();

    // Reopening the same directory shows what the crash would have left behind.
    let reopened = rt.into_storage().reopen();
    let loaded = reopened.load().unwrap();
    assert_eq!(
        loaded.entries.len(),
        1,
        "storage must hold exactly the one fresh entry after the boundary; \
         a stale discarded entry surviving here diverges node and storage"
    );
    assert_eq!(loaded.entries[0].term, Term::from(9));
}

/// A lagging node still learns a membership change whose log entry was compacted
/// away before it caught up, because the snapshot carries the configuration that
/// entry established.
#[test]
fn snapshot_preserves_membership_config() {
    let mut cluster: Cluster = Cluster::with_snapshot_policy(
        3,
        SnapshotPolicy {
            compact_threshold: NonZeroUsize::new(1),
        },
    );
    elect(&mut cluster, 0);

    let new_member = NodeId::from(4);
    cluster.add_node(4);

    let new_config = cluster
        .runtime(0)
        .node()
        .config()
        .with_member(new_member, addr(19104));
    let config_change_index = cluster
        .runtime_mut(0)
        .submit_config_change(new_config)
        .unwrap();
    cluster.heartbeat_timeout(0);
    cluster.deliver_all();
    cluster.heartbeat_timeout(0);
    cluster.deliver_all();

    // Node 2 stops receiving anything from here on, while the config change is
    // still in the log but before compaction removes it.
    cluster.partition(2);

    for (key, value) in [("x", "1"), ("y", "2"), ("z", "3")] {
        cluster.runtime_mut(0).submit(set(key, value)).unwrap();
        cluster.heartbeat_timeout(0);
        cluster.deliver_all();
    }
    cluster.heartbeat_timeout(0);
    cluster.deliver_all();

    assert!(
        cluster
            .runtime(0)
            .node()
            .persistent()
            .log()
            .snapshot_last_index()
            > config_change_index,
        "the config-change entry at index {config_change_index:?} must have been compacted away"
    );

    cluster.heal_partition(2);
    cluster.heartbeat_timeout(0);
    cluster.deliver_all();
    cluster.heartbeat_timeout(0);
    cluster.deliver_all();

    assert!(
        cluster.runtime(2).node().config().contains(new_member),
        "node 2 must learn the new member from the installed snapshot's config, \
         since the config-change log entry itself was compacted away before it caught up"
    );
}

/// An election still succeeds once every node's log is fully compacted.
///
/// With no entries retained anywhere, the up-to-date comparison has nothing to
/// read from the log and rests entirely on the index and term preserved at the
/// snapshot boundary.
#[test]
fn leader_election_works_when_all_logs_fully_compacted() {
    let mut cluster: Cluster = Cluster::with_snapshot_policy(
        3,
        SnapshotPolicy {
            compact_threshold: NonZeroUsize::new(1),
        },
    );
    elect(&mut cluster, 0);

    cluster.runtime_mut(0).submit(set("x", "1")).unwrap();
    cluster.heartbeat_timeout(0);
    cluster.deliver_all();
    // The second round carries the commit index to the followers, so they apply
    // and compact as well.
    cluster.heartbeat_timeout(0);
    cluster.deliver_all();

    for i in 0..3 {
        assert_eq!(
            cluster.runtime(i).node().persistent().log().len(),
            0,
            "node {i}'s log must be fully compacted, with nothing left to replay"
        );
    }

    // The leader is presumed lost, so node 1 times out and stands for election.
    elect(&mut cluster, 1);

    assert_eq!(
        cluster.leader(),
        Some(1),
        "election must still succeed once every log is fully compacted"
    );
}

/// A leader that removes itself keeps replicating until the removal commits,
/// then steps down and leaves the remaining members able to elect a successor
/// on their own (dissertation section 4.2.2).
#[test]
fn a_leader_that_removes_itself_steps_down_and_the_rest_carry_on() {
    let mut cluster: Cluster = Cluster::new(3);
    elect(&mut cluster, 0);
    cluster.heartbeat_timeout(0);
    cluster.deliver_all();

    let leader_id = cluster.runtime(0).node().id();
    let without_leader = cluster
        .runtime(0)
        .node()
        .config()
        .without_member(leader_id)
        .unwrap();

    cluster
        .runtime_mut(0)
        .submit_config_change(without_leader)
        .unwrap();
    assert_eq!(
        cluster.runtime(0).node().local_membership(),
        Membership::NonMember
    );
    assert!(
        matches!(cluster.runtime(0).node().role(), Role::Leader(_)),
        "the removal has not committed, so it must keep replicating it"
    );

    cluster.heartbeat_timeout(0);
    cluster.deliver_all();

    assert!(
        matches!(cluster.runtime(0).node().role(), Role::Follower(_)),
        "once the removal commits the leader must step down"
    );

    // The two remaining members are a cluster of their own and can elect a
    // leader without the removed node's vote.
    elect(&mut cluster, 1);
    assert_eq!(cluster.leader(), Some(1));
}

/// After a removal commits, the remaining members are the whole cluster: they
/// commit on their own quorum, and the removed node stops receiving entries.
///
/// The removed node is dropped from replication the moment the change is
/// appended, so it never learns of its own removal. Stopping it from disrupting
/// the cluster it still believes it belongs to needs the minimum-election-timeout
/// rule of dissertation section 4.2.3, which is not implemented here.
#[test]
fn a_removed_follower_stops_receiving_entries_while_the_rest_commit() {
    let mut cluster: Cluster = Cluster::new(3);
    elect(&mut cluster, 0);
    cluster.heartbeat_timeout(0);
    cluster.deliver_all();

    let removed_id = cluster.runtime(2).node().id();
    let without_node = cluster
        .runtime(0)
        .node()
        .config()
        .without_member(removed_id)
        .unwrap();
    cluster
        .runtime_mut(0)
        .submit_config_change(without_node)
        .unwrap();
    cluster.heartbeat_timeout(0);
    cluster.deliver_all();

    let removed_last_index = cluster.runtime(2).node().persistent().log().last_index();

    cluster
        .runtime_mut(0)
        .submit(set("city", "amsterdam"))
        .unwrap();
    cluster.heartbeat_timeout(0);
    cluster.deliver_all();

    assert_eq!(
        cluster.runtime(2).node().persistent().log().last_index(),
        removed_last_index,
        "a removed member must no longer receive replication"
    );

    // One more round so the follower learns the advanced commit index.
    cluster.heartbeat_timeout(0);
    cluster.deliver_all();

    for i in [0, 1] {
        let result = cluster
            .runtime_mut(i)
            .state_machine_mut()
            .apply(KvCommand::Get {
                key: "city".to_string(),
            });
        assert_eq!(
            result,
            KvResult::Value(Some("amsterdam".to_string())),
            "node {i} is part of the quorum of the remaining configuration"
        );
    }
    assert_eq!(cluster.leader(), Some(0));
}

const N: usize = 3;
const KEYS: [&str; 3] = ["a", "b", "c"];

/// A small generator of pseudo-random numbers, so that schedules are reproducible.
struct Schedule {
    state: u64,
}

impl Schedule {
    fn next(&mut self, bound: u64) -> u64 {
        self.state = self
            .state
            .wrapping_mul(6364136223846793005)
            .wrapping_add(1442695040888963407);
        (self.state >> 33) % bound
    }
}

/// Election Safety (section 5.2): no term ever has two leaders. Nodes in
/// different terms may both believe they lead, which is allowed.
fn check_election_safety(cluster: &Cluster) {
    let mut leaders: HashMap<Term, usize> = HashMap::new();
    for i in 0..N {
        let node = cluster.runtime(i).node();
        if matches!(node.role(), Role::Leader(_)) {
            let term = node.persistent().current_term();
            assert!(
                leaders.insert(term, i).is_none(),
                "election safety violated: two leaders in term {}",
                term.display()
            );
        }
    }
}

/// State Machine Safety (section 5.4.3): where two nodes have both committed
/// through some index, their entries at every position up to it are equal.
///
/// Compaction removes entries below a node's `first_index`, so a direct
/// comparison is only possible across the overlap of the two retained
/// ranges. The discarded prefix is covered by the snapshot itself, and the
/// term check at the start of the overlap is what ties the two together.
fn check_state_machine_safety(cluster: &Cluster) {
    for i in 0..N {
        for j in (i + 1)..N {
            let ni = cluster.runtime(i).node();
            let nj = cluster.runtime(j).node();
            let min_commit =
                std::cmp::min(ni.volatile().commit_index, nj.volatile().commit_index);
            let overlap_start = std::cmp::max(
                ni.persistent().log().first_index(),
                nj.persistent().log().first_index(),
            );

            let boundary = overlap_start.prev().unwrap();
            if boundary <= min_commit {
                assert_eq!(
                    ni.persistent().log().term_at(boundary),
                    nj.persistent().log().term_at(boundary),
                    "state machine safety violated at compaction boundary {}: \
                     nodes {i} and {j} disagree on the term of their common prefix",
                    boundary.display()
                );
            }

            let mut idx = overlap_start;
            while idx <= min_commit {
                let ei = ni.persistent().log().entry(idx).unwrap_or_else(|| {
                    panic!(
                        "node {i} has commit_index {} \
                         but log only has {} entries",
                        min_commit.display(),
                        ni.persistent().log().len()
                    )
                });
                let ej = nj.persistent().log().entry(idx).unwrap_or_else(|| {
                    panic!(
                        "node {j} has commit_index {} \
                         but log only has {} entries",
                        min_commit.display(),
                        nj.persistent().log().len()
                    )
                });
                assert_eq!(
                    (ei.term, &ei.payload),
                    (ej.term, &ej.payload),
                    "state machine safety violated at index {}: \
                     nodes {i} and {j} have different committed entries",
                    idx.display()
                );
                idx = idx.next();
            }
        }
    }
}

/// Two nodes that have applied through the same index hold the same values.
///
/// This covers what compaction puts out of reach of
/// `check_state_machine_safety`: once entries fall below a compaction
/// boundary they cannot be compared in the log, but the state they produced
/// is still observable through a read.
fn check_applied_state_equivalence(cluster: &mut Cluster) {
    let applied: Vec<LogIndex> = (0..N)
        .map(|i| cluster.runtime(i).node().volatile().last_applied)
        .collect();
    for i in 0..N {
        for j in (i + 1)..N {
            if applied[i] != applied[j] || applied[i] == LogIndex::default() {
                continue;
            }
            for key in KEYS {
                let vi = cluster
                    .runtime_mut(i)
                    .state_machine_mut()
                    .apply(KvCommand::Get {
                        key: key.to_string(),
                    });
                let vj = cluster
                    .runtime_mut(j)
                    .state_machine_mut()
                    .apply(KvCommand::Get {
                        key: key.to_string(),
                    });
                assert_eq!(
                    vi, vj,
                    "nodes {i} and {j} both applied through index {:?} \
                     but disagree on key {key:?}",
                    applied[i]
                );
            }
        }
    }
}


/// Takes one step against the cluster. Delivery is weighted heavily, so that schedules actually
/// reach a committed state instead of thrashing between elections.
fn take_step(cluster: &mut Cluster, schedule: &mut Schedule) {
    let node = schedule.next(N as u64) as usize;
    match schedule.next(18) {
        0..=2 => cluster.election_timeout(node),
        3..=4 => cluster.heartbeat_timeout(node),
        5..=9 => {
            cluster.deliver_one();
        }
        10..=12 => cluster.deliver_all(),
        13..=14 => {
            let key = KEYS[schedule.next(3) as usize];
            let value = ["1", "2", "3"][schedule.next(3) as usize];
            let _ = cluster.runtime_mut(node).submit(set(key, value));
        }
        15 => cluster.partition(node),
        16 => cluster.heal_partition(node),
        _ => cluster.restart(node),
    }
}

#[test]
fn safety_invariants_hold() {
    for seed in 0..300u64 {
        let mut schedule = Schedule { state: seed };
        let mut cluster = Cluster::with_snapshot_policy(
            N,
            SnapshotPolicy {
                compact_threshold: NonZeroUsize::new(2),
            },
        );
        for _ in 0..60 {
            take_step(&mut cluster, &mut schedule);
            check_election_safety(&cluster);
            check_state_machine_safety(&cluster);
            check_applied_state_equivalence(&mut cluster);
        }
    }
}

#[test]
fn single_node_becomes_leader() {
    let mut cluster: Cluster = Cluster::new(1);

    cluster.election_timeout(0);

    assert!(cluster.leader().is_some());
}

#[test]
fn three_node_leader_election() {
    let mut cluster: Cluster = Cluster::new(3);

    cluster.election_timeout(0);
    assert_eq!(cluster.role_counts(), (2, 1, 0));

    // Carries the vote requests out and the responses back.
    cluster.deliver_all();

    assert_eq!(cluster.leader(), Some(0));
    assert_eq!(cluster.role_counts(), (2, 0, 1));
}

#[test]
fn leader_replicates_to_followers() {
    let mut cluster: Cluster = Cluster::new(3);

    cluster.election_timeout(0);
    cluster.deliver_all();
    assert_eq!(cluster.leader(), Some(0));

    // Index 1 holds the leader's no-op, so the command lands at index 2.
    let index = cluster.runtime_mut(0).submit(KvCommand::Put {
        key: "x".to_string(),
        value: "1".to_string(),
    });
    assert_eq!(index, Ok(LogIndex::from(2)));

    cluster.heartbeat_timeout(0);
    cluster.deliver_all();

    // Both the no-op and the command reach every node.
    for i in 0..3 {
        assert_eq!(cluster.runtime(i).node().persistent().log().len(), 2);
    }

    assert_eq!(
        cluster.runtime(0).node().volatile().commit_index,
        LogIndex::from(2)
    );

    let result = cluster
        .runtime_mut(0)
        .state_machine_mut()
        .apply(KvCommand::Get {
            key: "x".to_string(),
        });
    assert_eq!(result, KvResult::Value(Some("1".to_string())));
}

#[test]
fn followers_commit_on_leader_heartbeat() {
    let mut cluster: Cluster = Cluster::new(3);

    cluster.election_timeout(0);
    cluster.deliver_all();

    cluster
        .runtime_mut(0)
        .submit(KvCommand::Put {
            key: "y".to_string(),
            value: "2".to_string(),
        })
        .unwrap();

    // The first round replicates the entry, which is what lets the leader
    // commit it. Only the second round carries that commit index to the
    // followers.
    cluster.heartbeat_timeout(0);
    cluster.deliver_all();
    cluster.heartbeat_timeout(0);
    cluster.deliver_all();

    // The no-op at index 1 and the command at index 2 are both committed.
    for i in 1..3 {
        assert_eq!(
            cluster.runtime(i).node().volatile().commit_index,
            LogIndex::from(2)
        );
    }
}

/// Log Matching (section 5.3): where two logs hold an entry of the same term at the same index, they
/// hold the same entries up to there.
fn check_log_matching(cluster: &Cluster) {
    for i in 0..N {
        for j in (i + 1)..N {
            let a = cluster.runtime(i).node().persistent().log();
            let b = cluster.runtime(j).node().persistent().log();
            let mut matched = false;
            let mut idx = std::cmp::min(a.last_index(), b.last_index());
            while let (Some(x), Some(y)) = (a.entry(idx), b.entry(idx)) {
                matched = matched || x.term == y.term;
                if matched {
                    assert_eq!((x.term, &x.payload), (y.term, &y.payload));
                }
                idx = idx.prev().unwrap();
            }
        }
    }
}

/// Leader Completeness (section 5.4): the leader of the highest term has everything that anybody
/// knows to be committed.
fn check_leader_completeness(cluster: &Cluster) {
    let newest = (0..N)
        .map(|i| cluster.runtime(i).node().persistent().current_term())
        .max()
        .unwrap();
    for i in 0..N {
        let node = cluster.runtime(i).node();
        if !matches!(node.role(), Role::Leader(_)) || node.persistent().current_term() != newest {
            continue;
        }
        for j in 0..N {
            let commit = cluster.runtime(j).node().volatile().commit_index;
            assert!(
                node.persistent().log().last_index() >= commit,
                "leader {i} lacks what node {j} knows to be committed"
            );
        }
    }
}

#[test]
fn logs_match_and_leaders_have_what_is_committed() {
    for seed in 1000..1200u64 {
        let mut schedule = Schedule { state: seed };
        let mut cluster = Cluster::new(N);
        for _ in 0..60 {
            take_step(&mut cluster, &mut schedule);
            check_log_matching(&cluster);
            check_leader_completeness(&cluster);
        }
    }
}

/// Leader Append-Only (section 5.3): whatever happens while it leads, a leader's log only grows.
#[test]
fn a_leader_only_appends() {
    let mut cluster = Cluster::new(N);
    elect(&mut cluster, 0);
    let mut known: Vec<LogEntry<KvCommand>> = Vec::new();
    for round in 0..5 {
        let value = round.to_string();
        cluster.runtime_mut(0).submit(set("a", &value)).unwrap();
        cluster.heartbeat_timeout(0);
        cluster.deliver_all();
        let log = cluster.runtime(0).node().persistent().log();
        assert!(log.entries().starts_with(&known));
        known = log.entries().to_vec();
    }
    assert_eq!(known.len(), 6);
}

/// Storage that fails once it has carried out as many writes as it was given, as a disk does that
/// the machine crashes under. Entries are appended one by one.
struct LimitedStorage {
    inner: MemoryStorage<KvCommand>,
    left: usize,
}

impl LimitedStorage {
    fn spend(&mut self) -> Result<(), &'static str> {
        if self.left == 0 {
            return Err("crashed");
        }
        self.left -= 1;
        Ok(())
    }
}

impl Storage<KvCommand> for LimitedStorage {
    type Error = &'static str;

    fn stored(&self) -> StoredOf<KvCommand> {
        unreachable!("only stated, never run")
    }

    fn may_answer(
        &self,
        _call: StorageCallOf<KvCommand>,
        _result: Result<(), Self::Error>,
        _after: Self,
    ) -> bool {
        unreachable!("only stated, never run")
    }

    fn load(&self) -> Result<LoadedState<KvCommand>, Self::Error> {
        Ok(self.inner.load().unwrap())
    }

    fn set_meta(&mut self, term: Term, voted_for: Option<NodeId>) -> Result<(), Self::Error> {
        self.spend()?;
        self.inner.set_meta(term, voted_for).unwrap();
        Ok(())
    }

    fn truncate_from(&mut self, index: LogIndex) -> Result<(), Self::Error> {
        self.spend()?;
        self.inner.truncate_from(index).unwrap();
        Ok(())
    }

    fn append(&mut self, entries: &[LogEntry<KvCommand>]) -> Result<(), Self::Error> {
        for entry in entries {
            self.spend()?;
            self.inner.append(std::slice::from_ref(entry)).unwrap();
        }
        Ok(())
    }

    fn install_snapshot(
        &mut self,
        snapshot: &Snapshot,
        disposition: SuffixDisposition,
    ) -> Result<(), Self::Error> {
        self.spend()?;
        self.inner.install_snapshot(snapshot, disposition).unwrap();
        Ok(())
    }
}

fn entry_of(term: u64) -> LogEntry<KvCommand> {
    LogEntry { term: Term::from(term), payload: LogPayload::NoOp }
}

/// A follower that crashes anywhere in the middle of saving what a leader sent it comes back with a
/// part of that, and takes the rest when it is sent again.
#[test]
fn a_crash_in_the_middle_of_a_save_leaves_a_part_of_it() {
    // The writes, in order: the new term, the truncation, and three entries.
    let expected: [(u64, Vec<u64>); 6] = [
        (1, vec![1, 1, 1]),
        (2, vec![1, 1, 1]),
        (2, vec![1]),
        (2, vec![1, 2]),
        (2, vec![1, 2, 2]),
        (2, vec![1, 2, 2, 2]),
    ];
    let members: Vec<(NodeId, SocketAddr)> =
        (1..=3).map(|id| (NodeId::from(id), dummy_addr(id))).collect();
    let start = |storage: LimitedStorage| {
        Runtime::from_storage(
            NodeId::from(1),
            ClusterConfig::new(members.clone()).unwrap(),
            KvStore::default(),
            storage,
            TimerConfig::default(),
            SnapshotPolicy::default(),
        )
        .unwrap()
    };
    let append = |term: u64, prev: u64, prev_term: u64, terms: &[u64]| Event::Message {
        from: NodeId::from(term),
        message: Message::AppendEntries(AppendEntries {
            term: Term::from(term),
            leader_id: NodeId::from(term),
            prev_log_index: LogIndex::from(prev),
            prev_log_term: Term::from(prev_term),
            entries: terms.iter().map(|&t| entry_of(t)).collect(),
            leader_commit: LogIndex::from(0),
        }),
    };
    for (left, (term, terms)) in expected.iter().enumerate() {
        let storage = LimitedStorage { inner: MemoryStorage::new(), left: usize::MAX };
        let mut runtime = start(storage);
        runtime.handle(append(1, 0, 0, &[1, 1, 1])).unwrap();
        let mut storage = runtime.into_storage();
        storage.left = left;
        let mut runtime = start(storage);
        let result = runtime.handle(append(2, 1, 1, &[2, 2, 2]));
        assert_eq!(result.is_ok(), left == 5);

        let mut storage = runtime.into_storage();
        storage.left = usize::MAX;
        let mut runtime = start(storage);
        let persistent = runtime.node().persistent();
        assert_eq!(persistent.current_term(), Term::from(*term));
        let found: Vec<u64> = persistent.log().entries().iter().map(|e| e.term.value).collect();
        assert_eq!(&found, terms, "after {left} writes");

        runtime.handle(append(2, 1, 1, &[2, 2, 2])).unwrap();
        let log = runtime.node().persistent().log();
        let after: Vec<u64> = log.entries().iter().map(|e| e.term.value).collect();
        assert_eq!(after, vec![1, 2, 2, 2]);
    }
}

/// A server that crashes keeps its term and the vote it gave in it, so it cannot vote again.
#[test]
fn a_restart_keeps_the_term_and_the_vote() {
    let mut cluster = Cluster::new(N);
    cluster.election_timeout(0);
    assert!(cluster.deliver_one());
    let before = cluster.runtime(1).node().persistent();
    let (term, vote) = (before.current_term(), before.voted_for());
    assert_eq!(term, Term::from(1));
    assert_eq!(vote, Some(NodeId::from(1)));

    cluster.restart(1);
    let after = cluster.runtime(1).node().persistent();
    assert_eq!(after.current_term(), term);
    assert_eq!(after.voted_for(), vote);

    // Node 3 asks for the same term and is turned down.
    cluster.partition(0);
    cluster.election_timeout(2);
    cluster.deliver_all();
    assert_eq!(cluster.runtime(1).node().persistent().voted_for(), vote);
    assert!(!matches!(cluster.runtime(2).node().role(), Role::Leader(_)));
}

/// A node decides by what it is told alone: two that are told the same do the same.
#[test]
fn the_same_inputs_lead_to_the_same_decisions() {
    let members: Vec<(NodeId, SocketAddr)> =
        (1..=3).map(|id| (NodeId::from(id), dummy_addr(id))).collect();
    let run = || {
        let config = ClusterConfig::new(members.clone()).unwrap();
        let mut node: Node<KvCommand> = Node::new(NodeId::from(1), config);
        let mut answers: Vec<String> = Vec::new();
        answers.push(format!("{}", node.election_timeout().len()));
        let vote = RequestVoteResponse { term: Term::from(1), vote: Vote::Granted };
        answers.push(format!("{}", node.handle_request_vote_response(NodeId::from(2), vote).len()));
        answers.push(format!("{:?}", node.submit_command(set("a", "b")).unwrap()));
        let accepted = AppendEntriesResponse::Accepted {
            term: Term::from(1),
            match_index: LogIndex::from(2),
        };
        node.handle_append_entries_response(NodeId::from(3), accepted);
        answers.push(format!("{}", node.take_entry_to_apply().is_some()));
        answers.push(format!("{}", node.compact_to_snapshot(SnapshotData::new(vec![1])).is_ok()));
        let persistent = node.persistent();
        answers.push(format!("{:?} {:?}", persistent.current_term(), persistent.voted_for()));
        answers.push(format!("{:?}", persistent.log().snapshot_last_index()));
        answers.push(format!("{:?}", node.volatile().commit_index));
        answers
    };
    assert_eq!(run(), run());
}
