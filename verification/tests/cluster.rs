use std::collections::BTreeMap;

use replicated_wal::storage::{FileAction, Files, IoFault, Outcome};
use replicated_wal::wal_core::error::WalError;
use replicated_wal::wal_core::wal::Wal;
use replicated_wal::wal_replication::config::{ClusterConfig, NodeInfo, NANOS_PER_MILLI};
use replicated_wal::wal_replication::error::RaftError;
use replicated_wal::wal_replication::persistent_state::PersistentState;
use replicated_wal::wal_replication::raft::log::{LogEntry, RaftLog};
use replicated_wal::wal_replication::raft::message::{
    AppendEntriesRequest, AppendEntriesResponse, RequestVoteRequest, RequestVoteResponse,
};
use replicated_wal::wal_replication::raft::node::{
    AppendStep, PeerClient, RaftNode, Role, TimeoutAction,
};

const MS: u128 = NANOS_PER_MILLI;

#[derive(Default)]
struct Disk {
    files: BTreeMap<String, Vec<u8>>,
    broken: bool,
}

impl Disk {
    fn perform(&mut self, actions: &[FileAction]) -> Outcome {
        for (at, action) in actions.iter().enumerate() {
            if self.broken {
                return Outcome::Failed { at, fault: IoFault::Other("disk full".to_string()) };
            }
            match action {
                FileAction::CreateNew { path } => {
                    self.files.insert(path.clone(), Vec::new());
                }
                FileAction::OpenAppend { .. }
                | FileAction::Flush { .. }
                | FileAction::Sync { .. } => {}
                FileAction::Append { path, bytes } => {
                    self.files.get_mut(path).unwrap().extend_from_slice(bytes);
                }
                FileAction::Write { path, bytes } => {
                    self.files.insert(path.clone(), bytes.clone());
                }
                FileAction::Rename { from, to } => {
                    let bytes = self.files.remove(from).unwrap();
                    self.files.insert(to.clone(), bytes);
                }
                FileAction::Remove { path } => {
                    self.files.remove(path).unwrap();
                }
                FileAction::Shorten { path, len } => {
                    self.files.get_mut(path).unwrap().truncate(*len as usize);
                }
            }
        }
        Outcome::Done
    }

    fn files(&self) -> Files {
        let mut files = Files::new();
        for (path, bytes) in &self.files {
            files.add(path.clone(), Ok(bytes.clone()));
        }
        files
    }
}

/// A node with its disk.
struct Member {
    node: RaftNode,
    disk: Disk,
    reachable: bool,
}

fn config(i: usize) -> ClusterConfig {
    let info = |k: usize| NodeInfo {
        id: format!("node-{}", k + 1),
        addr: format!("http://127.0.0.1:{}", 7001 + k),
    };
    let peers: Vec<NodeInfo> = (0..3).filter(|k| *k != i).map(|k| info(k)).collect();
    ClusterConfig::new(info(i), peers, format!("/node-{}", i + 1))
}

impl Member {
    fn start(i: usize, disk: Disk) -> Member {
        let mut disk = disk;
        let config = config(i);
        let ps = PersistentState::open(&config.data_dir, &disk.files()).unwrap();
        let wal_config = config.wal_config();
        let files = disk.files();
        let io = disk.perform(&Wal::open_actions(&wal_config, &files));
        let log = RaftLog::try_open(wal_config, &files, &io, &disk.files()).unwrap().unwrap();
        Member {
            node: RaftNode::start(config, ps, log, 0, 200 * MS),
            disk,
            reachable: true,
        }
    }

    fn append_entries(&mut self, req: AppendEntriesRequest) -> AppendEntriesResponse {
        assert!(self.node.can_accept(&req.entries));
        let handled = self.node.on_append_entries(req, 7 * MS, 180 * MS);
        self.disk.perform(&handled.persist);
        let mut step = handled.step;
        loop {
            match step {
                AppendStep::Reply(response) => return response,
                AppendStep::Write { job, actions } => {
                    let io = self.disk.perform(&actions);
                    let job = self.node.append_written(job, &io);
                    assert!(self.node.can_accept(job.entries()));
                    step = self.node.next_append_step(job);
                }
            }
        }
    }

    fn request_vote(&mut self, req: RequestVoteRequest) -> RequestVoteResponse {
        let handled = self.node.on_request_vote(req, 9 * MS);
        for list in &handled.persist {
            self.disk.perform(list);
        }
        handled.response
    }

    fn entries(&self) -> Vec<LogEntry> {
        self.node.on_client_read(1)
    }
}

/// Three nodes whose messages arrive at once, or not at all.
struct Cluster {
    members: Vec<Member>,
}

impl Cluster {
    fn start() -> Cluster {
        Cluster { members: (0..3).map(|i| Member::start(i, Disk::default())).collect() }
    }

    /// The place of a peer in the cluster.
    fn place(id: &str) -> usize {
        match id {
            "node-1" => 0,
            "node-2" => 1,
            "node-3" => 2,
            _ => panic!("no such node"),
        }
    }

    fn elect(&mut self, i: usize) -> bool {
        assert!(self.members[i].node.handle_timeout() == TimeoutAction::StartElection);
        let started = self.members[i].node.start_election(100 * MS, 250 * MS);
        for list in &started.persist {
            self.members[i].disk.perform(list);
        }
        let peers: Vec<usize> = self.members[i].node.peers().iter().map(|p| Cluster::place(&p.id)).collect();
        let mut results = Vec::new();
        for k in peers {
            if self.members[k].reachable {
                results.push(Some(self.members[k].request_vote(started.request.clone())));
            } else {
                results.push(None);
            }
        }
        let lists = self.members[i].node.finish_election(&results, 101 * MS, 260 * MS);
        for list in &lists {
            self.members[i].disk.perform(list);
        }
        self.members[i].node.role() == Role::Leader
    }

    fn write(&mut self, i: usize, data: &[u8]) -> Result<u64, RaftError> {
        let actions = self.members[i].node.client_write_actions(data)?;
        let io = self.members[i].disk.perform(&actions);
        let index = self.members[i].node.begin_client_write(data, &io)?;
        let requests = self.members[i].node.replication_requests(index);
        let peers: Vec<usize> = self.members[i].node.peers().iter().map(|p| Cluster::place(&p.id)).collect();
        let mut results = Vec::new();
        for (k, req) in peers.into_iter().zip(requests) {
            if self.members[k].reachable {
                results.push(Some(self.members[k].append_entries(req)));
            } else {
                results.push(None);
            }
        }
        let closed = self.members[i].node.finish_client_write(index, &results, 110 * MS, 270 * MS);
        for list in &closed.persist {
            self.members[i].disk.perform(list);
        }
        closed.result
    }

    fn heartbeat(&mut self, i: usize) {
        assert!(self.members[i].node.handle_timeout() == TimeoutAction::SendHeartbeats);
        let peers: Vec<usize> = self.members[i].node.peers().iter().map(|p| Cluster::place(&p.id)).collect();
        let mut results = Vec::new();
        for k in peers {
            if self.members[k].reachable {
                let req = self.members[i].node.heartbeat_request();
                results.push(Some(self.members[k].append_entries(req)));
            } else {
                results.push(None);
            }
        }
        let lists = self.members[i].node.on_heartbeat_responses(&results, 120 * MS, 280 * MS);
        for list in &lists {
            self.members[i].disk.perform(list);
        }
    }

    fn restart(&mut self, i: usize) {
        let disk = Disk { files: self.members[i].disk.files.clone(), broken: false };
        self.members[i] = Member::start(i, disk);
    }
}

#[test]
fn test_leader_is_elected() {
    let mut cluster = Cluster::start();
    assert!(cluster.elect(0), "a leader should be elected");
    assert!(cluster.write(0, b"probe").is_ok());
}

#[test]
fn test_write_to_leader_succeeds() {
    let mut cluster = Cluster::start();
    cluster.elect(1);
    let idx = cluster.write(1, b"hello distributed WAL").unwrap();
    assert!(idx >= 1, "write should return a positive index");
}

#[test]
fn test_entries_replicated_to_all_nodes() {
    let mut cluster = Cluster::start();
    cluster.elect(2);
    let idx = cluster.write(2, b"replicated entry").unwrap();
    for member in &cluster.members {
        let found = member
            .entries()
            .iter()
            .any(|e| e.index == idx && e.data == b"replicated entry");
        assert!(found, "every node should have the entry");
    }
}

#[test]
fn test_multiple_writes_maintain_order() {
    let mut cluster = Cluster::start();
    cluster.elect(0);
    let payloads = [b"tx-1".as_ref(), b"tx-2".as_ref(), b"tx-3".as_ref()];
    let mut indices = Vec::new();
    for p in &payloads {
        indices.push(cluster.write(0, p).unwrap());
    }
    // Indices must be strictly increasing
    for w in indices.windows(2) {
        assert!(w[1] > w[0], "log indices must be monotonically increasing");
    }
}

#[test]
fn test_follower_rejects_write() {
    let mut cluster = Cluster::start();
    cluster.elect(0);
    cluster.heartbeat(0);
    let result = cluster.write(1, b"should fail");
    assert!(
        matches!(result, Err(RaftError::NotLeader { .. })),
        "follower must reject writes with NotLeader"
    );
}

#[test]
fn cluster_commits_survive_across_reads() {
    let mut cluster = Cluster::start();
    cluster.elect(0);
    let mut last_idx = 0u64;
    for i in 0u8..10 {
        last_idx = cluster.write(0, format!("payload-{i}").as_bytes()).unwrap();
    }
    // All nodes must see all committed entries
    for member in &cluster.members {
        let found = member.entries().iter().any(|e| e.index == last_idx);
        assert!(found, "every node must have the last committed entry");
    }
}

#[test]
fn follower_catches_up_after_lag() {
    let mut cluster = Cluster::start();
    cluster.elect(0);
    cluster.members[2].reachable = false;
    for i in 0..5 {
        cluster.write(0, format!("msg-{i}").as_bytes()).unwrap();
    }
    assert!(cluster.members[2].entries().is_empty());
    cluster.members[2].reachable = true;
    cluster.write(0, b"one more").unwrap();
    cluster.write(0, b"and another").unwrap();
    let leader_entries = cluster.members[0].entries();
    for member in &cluster.members {
        assert_eq!(
            member.entries().len(),
            leader_entries.len(),
            "follower entry count must match leader"
        );
        assert_eq!(member.entries(), leader_entries);
    }
}

#[test]
fn follower_write_is_rejected_after_compaction_tests() {
    let mut cluster = Cluster::start();
    cluster.elect(0);
    let result = cluster.write(1, b"bad");
    assert!(
        matches!(result, Err(RaftError::NotLeader { .. })),
        "follower must return NotLeader"
    );
}

#[test]
fn refused_write_names_the_leader() {
    let mut cluster = Cluster::start();
    match cluster.write(1, b"x") {
        Err(RaftError::NotLeader { hint }) => assert_eq!(hint, None),
        _ => panic!("nobody leads"),
    }
    cluster.elect(0);
    cluster.heartbeat(0);
    match cluster.write(1, b"x") {
        Err(RaftError::NotLeader { hint }) => assert_eq!(hint.as_deref(), Some("node-1")),
        _ => panic!("node-1 leads"),
    }
    assert!(cluster.members[1].entries().is_empty());
}

#[test]
fn minority_cannot_commit() {
    let mut cluster = Cluster::start();
    cluster.elect(0);
    cluster.members[1].reachable = false;
    cluster.members[2].reachable = false;
    assert!(matches!(cluster.write(0, b"alone"), Err(RaftError::QuorumNotReached)));
    assert_eq!(cluster.members[0].node.commit_index(), 0);
    cluster.members[1].reachable = true;
    // What was not committed before goes along.
    assert_eq!(cluster.write(0, b"together").unwrap(), 2);
    assert_eq!(cluster.members[0].node.commit_index(), 2);
    assert_eq!(cluster.members[1].entries().len(), 2);
}

#[test]
fn minority_cannot_elect() {
    let mut cluster = Cluster::start();
    cluster.members[1].reachable = false;
    cluster.members[2].reachable = false;
    assert!(!cluster.elect(0));
    assert!(cluster.members[0].node.role() == Role::Follower);
    assert_eq!(cluster.members[0].node.current_term(), 1);
    cluster.members[2].reachable = true;
    assert!(cluster.elect(0));
    assert_eq!(cluster.members[0].node.current_term(), 2);
}

#[test]
fn vote_is_given_once_per_term() {
    let mut member = Member::start(0, Disk::default());
    let ask = |name: &str, term: u64| RequestVoteRequest {
        term,
        candidate_id: name.to_string(),
        last_log_index: 0,
        last_log_term: 0,
    };
    assert_eq!(member.request_vote(ask("node-2", 1)), RequestVoteResponse { term: 1, vote_granted: true });
    assert_eq!(member.request_vote(ask("node-3", 1)), RequestVoteResponse { term: 1, vote_granted: false });
    assert_eq!(member.request_vote(ask("node-2", 1)), RequestVoteResponse { term: 1, vote_granted: true });
    // The vote survives a restart.
    let mut again = Member::start(0, Disk { files: member.disk.files.clone(), broken: false });
    assert_eq!(again.request_vote(ask("node-3", 1)), RequestVoteResponse { term: 1, vote_granted: false });
    assert_eq!(again.request_vote(ask("node-3", 2)), RequestVoteResponse { term: 2, vote_granted: true });
    assert_eq!(again.request_vote(ask("node-2", 1)), RequestVoteResponse { term: 2, vote_granted: false });
}

#[test]
fn candidate_behind_gets_no_vote() {
    let mut cluster = Cluster::start();
    cluster.elect(0);
    cluster.members[2].reachable = false;
    cluster.write(0, b"committed").unwrap();
    cluster.members[2].reachable = true;
    assert!(!cluster.elect(2));
    assert!(cluster.elect(1));
    assert_eq!(cluster.members[1].entries()[0].data, b"committed");
}

#[test]
fn stale_leader_steps_down() {
    let mut cluster = Cluster::start();
    cluster.elect(0);
    cluster.members[0].reachable = false;
    assert!(cluster.elect(1));
    assert!(cluster.members[0].node.role() == Role::Leader);
    cluster.heartbeat(0);
    assert!(cluster.members[0].node.role() == Role::Follower);
    assert_eq!(cluster.members[0].node.current_term(), 2);
}

#[test]
fn stale_request_is_refused() {
    let mut member = Member::start(0, Disk::default());
    let heartbeat = |term: u64| AppendEntriesRequest {
        term,
        leader_id: "node-2".to_string(),
        prev_log_index: 0,
        prev_log_term: 0,
        entries: vec![],
        leader_commit: 0,
    };
    assert!(member.append_entries(heartbeat(4)).success);
    let refused = AppendEntriesResponse { term: 4, success: false, conflict_index: 0, conflict_term: 0 };
    assert_eq!(member.append_entries(heartbeat(3)), refused);
}

#[test]
fn diverged_follower_is_overwritten() {
    let mut cluster = Cluster::start();
    cluster.elect(0);
    cluster.write(0, b"shared").unwrap();
    // node-1 goes on alone, in vain.
    cluster.members[1].reachable = false;
    cluster.members[2].reachable = false;
    let _ = cluster.write(0, b"lost 1");
    let _ = cluster.write(0, b"lost 2");
    cluster.members[0].reachable = false;
    cluster.members[1].reachable = true;
    cluster.members[2].reachable = true;
    assert!(cluster.elect(1));
    cluster.write(1, b"kept").unwrap();
    cluster.members[0].reachable = true;
    for _ in 0..3 {
        cluster.write(1, b"more").unwrap();
    }
    assert_eq!(cluster.members[0].entries(), cluster.members[1].entries());
    assert_eq!(cluster.members[0].entries()[1].data, b"kept");
    // And so it is after a restart.
    let before = cluster.members[0].entries();
    cluster.restart(0);
    assert_eq!(cluster.members[0].entries(), before);
    assert_eq!(cluster.members[0].node.current_term(), 2);
}

#[test]
fn conflicts_say_where_to_go_on_from() {
    let mut member = Member::start(0, Disk::default());
    let entry = |index: u64, term: u64| LogEntry { index, term, data: vec![index as u8] };
    let request = |prev: (u64, u64), entries: Vec<LogEntry>, leader_commit: u64| AppendEntriesRequest {
        term: 5,
        leader_id: "node-2".to_string(),
        prev_log_index: prev.0,
        prev_log_term: prev.1,
        entries,
        leader_commit,
    };
    let first = vec![entry(1, 1), entry(2, 2), entry(3, 2), entry(4, 2)];
    assert!(member.append_entries(request((0, 0), first, 2)).success);
    assert_eq!(member.node.commit_index(), 2);
    // No such entry
    let refused = AppendEntriesResponse { term: 5, success: false, conflict_index: 5, conflict_term: 0 };
    assert_eq!(member.append_entries(request((9, 3), vec![], 0)), refused);
    // Another term: the first index of that term
    let refused = AppendEntriesResponse { term: 5, success: false, conflict_index: 2, conflict_term: 2 };
    assert_eq!(member.append_entries(request((4, 3), vec![], 0)), refused);
    // Entries that are there are kept, a conflicting one cuts off the rest
    let second = vec![entry(2, 2), entry(3, 5)];
    assert!(member.append_entries(request((1, 1), second, 99)).success);
    let terms: Vec<u64> = member.entries().iter().map(|e| e.term).collect();
    assert_eq!(terms, vec![1, 2, 5]);
    assert_eq!(member.node.commit_index(), 3);
}

#[test]
fn failed_writes_of_a_follower_are_passed_over() {
    let mut cluster = Cluster::start();
    cluster.elect(0);
    cluster.members[1].disk.broken = true;
    cluster.write(0, b"a").unwrap();
    assert!(cluster.members[1].entries().is_empty());
    cluster.members[1].disk.broken = false;
    cluster.write(0, b"b").unwrap();
    cluster.write(0, b"c").unwrap();
    assert_eq!(cluster.members[1].entries(), cluster.members[0].entries());
}

#[test]
fn failed_write_of_the_leader_is_reported() {
    let mut cluster = Cluster::start();
    cluster.elect(0);
    cluster.members[0].disk.broken = true;
    let result = cluster.write(0, b"a");
    assert!(matches!(result, Err(RaftError::Wal(WalError::Io(IoFault::Other(_))))));
    assert!(cluster.members[0].entries().is_empty());
}

#[test]
fn node_starts_as_a_follower_of_nobody() {
    let member = Member::start(0, Disk::default());
    assert!(member.node.role() == Role::Follower);
    assert_eq!(member.node.id(), "node-1");
    assert_eq!(member.node.current_term(), 0);
    assert_eq!(member.node.commit_index(), 0);
    let addrs: Vec<&str> = member.node.peers().iter().map(|p| p.addr.as_str()).collect();
    assert_eq!(addrs, vec!["http://127.0.0.1:7002", "http://127.0.0.1:7003"]);
    assert_eq!(member.node.log().last_index(), 0);
    let peer = PeerClient::new("p".to_string(), "http://p".to_string());
    assert_eq!((peer.id.as_str(), peer.addr.as_str()), ("p", "http://p"));
}

#[test]
fn followers_wait_out_their_timeout_and_leaders_their_interval() {
    let mut cluster = Cluster::start();
    let node = &cluster.members[0].node;
    assert_eq!(node.time_until_timeout(0), 200 * MS);
    assert_eq!(node.time_until_timeout(150 * MS), 50 * MS);
    assert_eq!(node.time_until_timeout(500 * MS), 0);
    cluster.elect(0);
    assert_eq!(cluster.members[0].node.time_until_timeout(500 * MS), 50 * MS);
}
