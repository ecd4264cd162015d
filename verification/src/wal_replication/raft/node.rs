//! The Raft consensus node — the state machine that drives Raft.
//!
//! # Event model
//!
//! `RaftNode` owns all mutable state. Whoever runs it hands it one event at a
//! time — a message, the answers of the peers, a timeout — and performs what it
//! asks for: writes to disk, requests to peers, a reply. This keeps the state
//! machine single-threaded with no locks.
//!
//! # Raft roles
//!
//! ```text
//!  ┌─────────────────────────────────────────────────────────────┐
//!  │  Follower  ──(timeout)──►  Candidate  ──(majority)──►  Leader  │
//!  │     ▲                          │                          │     │
//!  │     └──────(higher term)───────┘◄────(higher term)────────┘     │
//!  └─────────────────────────────────────────────────────────────┘
//! ```
use vstd::hash_map::StringHashMap;
use vstd::prelude::*;

use crate::storage;
use crate::storage::{FileAction, FileOp, Outcome, OutcomeView};
use crate::wal_replication::config;
use crate::wal_replication::config::{ClusterConfig, Nanos, NodeId};
use crate::wal_replication::error;
use crate::wal_replication::error::{RaftError, RaftErrorView};
use crate::wal_replication::persistent_state::{PersistentState, StateView};
use crate::wal_replication::raft::log;
use crate::wal_replication::raft::log::{LogEntry, LogEntryView, LogView, RaftLog, RaftLogView};
use crate::wal_replication::raft::message::{
    AppendEntriesRequest, AppendEntriesResponse, AppendRequestView, RequestVoteRequest,
    RequestVoteResponse, VoteRequestView,
};

verus! {

// ─── Peers and roles ─────────────────────────────────────────────────────────

/// How to reach one peer.
pub struct PeerClient {
    pub id: NodeId,
    /// The gRPC endpoint of the peer.
    pub addr: String,
}

impl PeerClient {
    pub fn new(id: NodeId, addr: String) -> (peer: PeerClient)
        ensures
            peer.id == id,
            peer.addr == addr,
    {
        PeerClient { id, addr }
    }
}

impl Clone for PeerClient {
    fn clone(&self) -> (copy: Self)
        ensures
            copy == self,
    {
        PeerClient { id: self.id.clone(), addr: self.addr.clone() }
    }
}

#[derive(Debug, Clone, Copy, PartialEq, Eq, Structural)]
pub enum Role {
    Follower,
    Candidate,
    Leader,
}

// ─── State ───────────────────────────────────────────────────────────────────

pub struct RaftNode {
    id: NodeId,
    config: ClusterConfig,
    peers: Vec<PeerClient>,
    // Raft persistent state
    ps: PersistentState,
    // Replicated log (WAL-backed)
    log: RaftLog,
    // Volatile state (all nodes)
    role: Role,
    commit_index: u64,
    current_leader: Option<NodeId>,
    // Leader volatile state
    next_index: StringHashMap<u64>,
    match_index: StringHashMap<u64>,
    // Election timer
    last_heartbeat: Nanos,
    election_timeout: Nanos,
}

/// A [`RaftNode`] in terms of mathematical sequences and maps.
pub struct NodeView {
    pub id: Seq<char>,
    /// The IDs of the other members.
    pub peers: Seq<Seq<char>>,
    /// Where to reach them.
    pub addrs: Seq<Seq<char>>,
    pub heartbeat_interval: Nanos,
    pub state: StateView,
    pub log: RaftLogView,
    pub role: Role,
    pub commit_index: u64,
    pub current_leader: Option<Seq<char>>,
    pub next_index: Map<Seq<char>, u64>,
    pub match_index: Map<Seq<char>, u64>,
    pub last_heartbeat: Nanos,
    pub election_timeout: Nanos,
}

/// The IDs of a list of peers.
pub open spec fn peer_ids(peers: Seq<PeerClient>) -> Seq<Seq<char>> {
    Seq::new(peers.len(), |i: int| peers[i].id@)
}

/// The addresses of a list of peers.
pub open spec fn peer_addrs(peers: Seq<PeerClient>) -> Seq<Seq<char>> {
    Seq::new(peers.len(), |i: int| peers[i].addr@)
}

impl View for RaftNode {
    type V = NodeView;

    closed spec fn view(&self) -> NodeView {
        NodeView {
            id: self.id@,
            peers: peer_ids(self.peers@),
            addrs: peer_addrs(self.peers@),
            heartbeat_interval: self.config.heartbeat_interval,
            state: self.ps@,
            log: self.log@,
            role: self.role,
            commit_index: self.commit_index,
            current_leader: error::text_view(self.current_leader),
            next_index: self.next_index@,
            match_index: self.match_index@,
            last_heartbeat: self.last_heartbeat,
            election_timeout: self.election_timeout,
        }
    }
}

impl RaftNode {
    /// The peers are those of the configuration, and the cluster can be counted.
    pub closed spec fn wf(&self) -> bool {
        &&& self.peers@.len() == self.config.peers@.len()
        &&& self.peers@.len() < usize::MAX
    }
}

impl NodeView {
    /// The votes or acknowledgements that make a majority of the cluster.
    pub open spec fn quorum(self) -> int {
        config::majority(self.peers.len() as int + 1)
    }

    /// The node as a follower that has just heard from `leader`, if that is known.
    pub open spec fn following(
        self,
        leader: Option<Seq<char>>,
        now: Nanos,
        timeout: Nanos,
    ) -> NodeView {
        NodeView {
            role: Role::Follower,
            current_leader: match leader {
                Some(l) => Some(l),
                None => self.current_leader,
            },
            last_heartbeat: now,
            election_timeout: timeout,
            ..self
        }
    }

    /// The node in the higher term `term`, a follower of a leader not yet known.
    pub open spec fn stepped_down(self, term: u64, now: Nanos, timeout: Nanos) -> NodeView {
        NodeView { state: self.state.in_term(term), ..self }.following(None, now, timeout)
    }
}

/// What running a timeout to its end asks for.
#[derive(Debug, Clone, Copy, PartialEq, Eq, Structural)]
pub enum TimeoutAction {
    SendHeartbeats,
    StartElection,
}

impl RaftNode {
    /// A node as it starts: a follower that knows of no leader, with the state and
    /// the log that its disk holds. `now` is the time, and `election_timeout` one
    /// drawn by [`config::random_election_timeout`].
    pub fn start(
        config: ClusterConfig,
        ps: PersistentState,
        log: RaftLog,
        now: Nanos,
        election_timeout: Nanos,
    ) -> (node: RaftNode)
        requires
            config.peers@.len() < usize::MAX,
        ensures
            node.wf(),
            node@.id == config.this_node.id@,
            node@.peers.len() == config.peers@.len(),
            node@.addrs.len() == config.peers@.len(),
            forall|i: int|
                0 <= i < config.peers@.len() ==> #[trigger] node@.peers[i] == config.peers@[i].id@,
            forall|i: int|
                0 <= i < config.peers@.len() ==> #[trigger] node@.addrs[i]
                    == config.peers@[i].addr@,
            node@.heartbeat_interval == config.heartbeat_interval,
            node@.state == ps@,
            node@.log == log@,
            node@.role == Role::Follower,
            node@.commit_index == 0,
            node@.current_leader is None,
            node@.next_index == Map::<Seq<char>, u64>::empty(),
            node@.match_index == Map::<Seq<char>, u64>::empty(),
            node@.last_heartbeat == now,
            node@.election_timeout == election_timeout,
    {
        let mut peers: Vec<PeerClient> = Vec::new();
        let mut i: usize = 0;
        while i < config.peers.len()
            invariant
                i <= config.peers@.len(),
                peers@.len() == i,
                forall|j: int|
                    0 <= j < i ==> (#[trigger] peers@[j]).id@ == config.peers@[j].id@
                        && peers@[j].addr@ == config.peers@[j].addr@,
            decreases config.peers@.len() - i,
        {
            peers.push(
                PeerClient::new(config.peers[i].id.clone(), config.peers[i].addr.clone()),
            );
            i = i + 1;
        }
        RaftNode {
            id: config.this_node.id.clone(),
            config,
            peers,
            ps,
            log,
            role: Role::Follower,
            commit_index: 0,
            current_leader: None,
            next_index: StringHashMap::new(),
            match_index: StringHashMap::new(),
            last_heartbeat: now,
            election_timeout,
        }
    }

    // ─── Timer ───────────────────────────────────────────────────────────────

    /// How long to wait for a message, at the time `now`, before the timeout is
    /// up.
    pub fn time_until_timeout(&self, now: Nanos) -> (wait: Nanos)
        ensures
            wait == match self@.role {
                Role::Leader => self@.heartbeat_interval as int,
                _ => {
                    let elapsed = if now > self@.last_heartbeat {
                        now - self@.last_heartbeat
                    } else {
                        0
                    };
                    if self@.election_timeout > elapsed {
                        self@.election_timeout - elapsed
                    } else {
                        0
                    }
                },
            },
            self@.role != Role::Leader && now >= self@.last_heartbeat ==> now + wait == if now
                > self@.last_heartbeat + self@.election_timeout {
                now as int
            } else {
                self@.last_heartbeat + self@.election_timeout
            },
    {
        match self.role {
            Role::Leader => self.config.heartbeat_interval,
            _ => {
                let elapsed: Nanos = if now > self.last_heartbeat {
                    now - self.last_heartbeat
                } else {
                    0
                };
                if self.election_timeout > elapsed {
                    self.election_timeout - elapsed
                } else {
                    0
                }
            },
        }
    }

    /// What the end of a timeout asks for: a leader sends heartbeats, any other
    /// node starts an election.
    pub fn handle_timeout(&self) -> (action: TimeoutAction)
        ensures
            action == if self@.role == Role::Leader {
                TimeoutAction::SendHeartbeats
            } else {
                TimeoutAction::StartElection
            },
    {
        match self.role {
            Role::Leader => TimeoutAction::SendHeartbeats,
            _ => TimeoutAction::StartElection,
        }
    }

    fn become_follower_with_leader(
        &mut self,
        leader: Option<String>,
        now: Nanos,
        election_timeout: Nanos,
    )
        ensures
            final(self)@ == old(self)@.following(error::text_view(leader), now, election_timeout),
            final(self).wf() == old(self).wf(),
    {
        self.role = Role::Follower;
        if leader.is_some() {
            self.current_leader = leader;
        }
        self.last_heartbeat = now;
        self.election_timeout = election_timeout;
    }

    /// Go to the higher term `term` as a follower. Returns what has to be done on
    /// disk to persist that.
    fn step_down(&mut self, term: u64, now: Nanos, election_timeout: Nanos) -> (persist: Vec<
        FileAction,
    >)
        ensures
            final(self)@ == old(self)@.stepped_down(term, now, election_timeout),
            final(self).wf() == old(self).wf(),
            storage::ops(persist@) == old(self)@.state.in_term(term).persist_ops(),
    {
        let persist = self.ps.enter_term(term);
        self.become_follower_with_leader(None, now, election_timeout);
        persist
    }
}

// ─── AppendEntries RPC (§5.3) ────────────────────────────────────────────────

/// What the next entry of a job needs.
#[derive(Debug, Clone, Copy, PartialEq, Eq, Structural)]
pub enum Stage {
    /// It has not been held against the log.
    Check,
    /// The log has another entry in its place, which has to go.
    Cut,
    /// It has to be appended.
    Append,
}

/// Entries of an accepted request that still have to be dealt with.
pub struct AppendJob {
    entries: Vec<LogEntry>,
    /// The next entry.
    at: usize,
    stage: Stage,
    leader_commit: u64,
}

/// An [`AppendJob`] in terms of mathematical sequences.
pub struct JobView {
    pub entries: Seq<LogEntryView>,
    pub at: int,
    pub stage: Stage,
    pub leader_commit: u64,
}

impl View for AppendJob {
    type V = JobView;

    closed spec fn view(&self) -> JobView {
        JobView {
            entries: log::views(self.entries@),
            at: self.at as int,
            stage: self.stage,
            leader_commit: self.leader_commit,
        }
    }
}

/// What comes next in answering an AppendEntries request.
pub enum AppendStep {
    /// Perform `actions`, report their outcome by [`RaftNode::append_written`], and
    /// go on with [`RaftNode::next_append_step`].
    Write { job: AppendJob, actions: Vec<FileAction> },
    /// Send this reply: the request has been dealt with.
    Reply(AppendEntriesResponse),
}

/// An [`AppendStep`] in terms of mathematical sequences.
pub enum StepView {
    Write(JobView, Seq<FileOp>),
    Reply(AppendEntriesResponse),
}

impl View for AppendStep {
    type V = StepView;

    open spec fn view(&self) -> StepView {
        match self {
            AppendStep::Write { job, actions } => StepView::Write(job@, storage::ops(actions@)),
            AppendStep::Reply(response) => StepView::Reply(*response),
        }
    }
}

/// How a request was taken up: what has to be persisted first, whether or not
/// that succeeds, and what comes next.
pub struct AppendHandled {
    pub persist: Vec<FileAction>,
    pub step: AppendStep,
}

/// The position of the first entry from `at` on that the log does not have yet.
pub open spec fn first_missing(l: LogView, entries: Seq<LogEntryView>, at: int) -> int
    decreases entries.len() - at,
{
    if !(0 <= at < entries.len()) {
        entries.len() as int
    } else if l.term_at(entries[at].index) == Some(entries[at].term) {
        first_missing(l, entries, at + 1)
    } else {
        at
    }
}

impl NodeView {
    /// A refusal in term `term`.
    pub open spec fn refusal(
        term: u64,
        conflict_index: u64,
        conflict_term: u64,
    ) -> AppendEntriesResponse {
        AppendEntriesResponse { term, success: false, conflict_index, conflict_term }
    }

    /// The node after it has heard a request of a leader that is not stale.
    pub open spec fn heard(self, req: AppendRequestView, now: Nanos, timeout: Nanos) -> NodeView {
        NodeView {
            state: if req.term > self.state.current_term {
                self.state.in_term(req.term)
            } else {
                self.state
            },
            ..self
        }.following(Some(req.leader_id), now, timeout)
    }

    /// Why the log does not take entries behind the one that the request names:
    /// it has no such entry, or one of another term. The refusal says where the
    /// leader should go on from.
    pub open spec fn mismatch(self, req: AppendRequestView) -> Option<AppendEntriesResponse> {
        let term = self.state.current_term;
        if req.prev_log_index == 0 {
            None
        } else {
            match self.log.log.term_at(req.prev_log_index) {
                None => Some(
                    NodeView::refusal(term, (self.log.log.last_index() + 1) as u64, 0),
                ),
                Some(t) => if t == req.prev_log_term {
                    None
                } else {
                    Some(
                        NodeView::refusal(
                            term,
                            match self.log.log.first_index_of_term(t) {
                                Some(index) => index,
                                None => req.prev_log_index,
                            },
                            t,
                        ),
                    )
                },
            }
        }
    }

    /// What taking up a request comes to.
    pub open spec fn append_requested(
        self,
        req: AppendRequestView,
        now: Nanos,
        timeout: Nanos,
    ) -> (NodeView, StepView) {
        let heard = self.heard(req, now, timeout);
        if req.term < self.state.current_term {
            (self, StepView::Reply(NodeView::refusal(self.state.current_term, 0, 0)))
        } else {
            match heard.mismatch(req) {
                Some(refusal) => (heard, StepView::Reply(refusal)),
                None => heard.next_step(
                    JobView {
                        entries: req.entries,
                        at: 0,
                        stage: Stage::Check,
                        leader_commit: req.leader_commit,
                    },
                ),
            }
        }
    }

    /// What has to be persisted when a request is taken up: the term, if it is new.
    pub open spec fn append_persist_ops(self, req: AppendRequestView) -> Seq<FileOp> {
        if req.term > self.state.current_term {
            self.state.in_term(req.term).persist_ops()
        } else {
            Seq::empty()
        }
    }

    /// The node after everything was written: the commit index follows the
    /// leader's, as far as the log reaches.
    pub open spec fn caught_up(self, leader_commit: u64) -> NodeView {
        NodeView {
            commit_index: if leader_commit > self.commit_index {
                if leader_commit < self.log.log.last_index() {
                    leader_commit
                } else {
                    self.log.log.last_index() as u64
                }
            } else {
                self.commit_index
            },
            ..self
        }
    }

    /// The reply to a request that was accepted.
    pub open spec fn acceptance(self) -> AppendEntriesResponse {
        AppendEntriesResponse {
            term: self.state.current_term,
            success: true,
            conflict_index: 0,
            conflict_term: 0,
        }
    }

    /// What comes next in a job. Entries that are there already are passed over;
    /// where the log has another entry, that is cut off before the new one is
    /// appended.
    pub open spec fn next_step(self, job: JobView) -> (NodeView, StepView) {
        let i = first_missing(self.log.log, job.entries, job.at);
        match job.stage {
            Stage::Check => if i >= job.entries.len() {
                (self.caught_up(job.leader_commit), StepView::Reply(self.acceptance()))
            } else if self.log.log.term_at(job.entries[i].index) is Some {
                (self, self.cut_step(JobView { at: i, stage: Stage::Cut, ..job }))
            } else {
                (self, self.entry_step(JobView { at: i, stage: Stage::Append, ..job }))
            },
            Stage::Cut => (self, self.cut_step(job)),
            Stage::Append => (self, self.entry_step(job)),
        }
    }

    /// The cut before the next entry of a job.
    pub open spec fn cut_step(self, job: JobView) -> StepView {
        StepView::Write(job, self.log.truncate_ops(job.entries[job.at].index))
    }

    /// The write of the next entry of a job.
    pub open spec fn entry_step(self, job: JobView) -> StepView {
        let e = job.entries[job.at];
        StepView::Write(job, self.log.append_ops(e.term, e.data))
    }

    /// The node and the job after the job's write came out as `io`. A write that
    /// failed is passed over.
    pub open spec fn write_reported(self, job: JobView, io: OutcomeView) -> (NodeView, JobView) {
        let e = job.entries[job.at];
        match job.stage {
            Stage::Check => (self, job),
            Stage::Cut => (
                NodeView { log: self.log.truncated(e.index, io), ..self },
                JobView { stage: Stage::Append, ..job },
            ),
            Stage::Append => (
                NodeView { log: self.log.appended(e.term, e.data, io), ..self },
                JobView { at: job.at + 1, stage: Stage::Check, ..job },
            ),
        }
    }

    /// Every one of `entries` can be numbered and placed.
    pub open spec fn can_accept(self, entries: Seq<LogEntryView>) -> bool {
        &&& self.log.log.last_index() < u64::MAX
        &&& forall|i: int|
            0 <= i < entries.len() ==> self.log.can_append(
                (#[trigger] entries[i]).data.len() as int,
            )
    }
}

impl JobView {
    /// What has to be cut or appended is there.
    pub open spec fn wf(self) -> bool {
        &&& 0 <= self.at <= self.entries.len()
        &&& self.stage != Stage::Check ==> self.at < self.entries.len()
    }
}

impl AppendJob {
    /// The entries of the job.
    pub fn entries(&self) -> (entries: &Vec<LogEntry>)
        ensures
            log::views(entries@) == self@.entries,
    {
        &self.entries
    }
}

impl RaftNode {
    /// Whether every one of `entries` can be numbered and placed.
    pub fn can_accept(&self, entries: &Vec<LogEntry>) -> (r: bool)
        ensures
            r == self@.can_accept(log::views(entries@)),
    {
        if !self.log.can_count() {
            return false;
        }
        let ghost all = log::views(entries@);
        let mut i: usize = 0;
        while i < entries.len()
            invariant
                i <= entries@.len(),
                all == log::views(entries@),
                self@.log.log.last_index() < u64::MAX,
                forall|j: int|
                    0 <= j < i ==> self@.log.can_append((#[trigger] all[j]).data.len() as int),
            decreases entries@.len() - i,
        {
            assert(all[i as int] == entries@[i as int]@);
            if !self.log.can_append(entries[i].data.len()) {
                return false;
            }
            i = i + 1;
        }
        true
    }

    /// Take up an AppendEntries request, at the time `now`. `election_timeout` is
    /// one drawn by [`config::random_election_timeout`].
    pub fn on_append_entries(
        &mut self,
        req: AppendEntriesRequest,
        now: Nanos,
        election_timeout: Nanos,
    ) -> (handled: AppendHandled)
        requires
            old(self).wf(),
            req@.term >= old(self)@.state.current_term ==> old(self)@.can_accept(req@.entries),
        ensures
            final(self).wf(),
            (final(self)@, handled.step@) == old(self)@.append_requested(
                req@,
                now,
                election_timeout,
            ),
            storage::ops(handled.persist@) == old(self)@.append_persist_ops(req@),
            handled.step matches AppendStep::Write { job, actions } ==> job@.wf(),
    {
        let mut persist: Vec<FileAction> = Vec::new();
        assert(storage::ops(persist@) =~= Seq::<FileOp>::empty());
        // Rule 1: reject stale leaders
        if req.term < self.ps.current_term {
            return AppendHandled { persist, step: AppendStep::Reply(self.ae_reject(0, 0)) };
        }
        // Rule 2: a valid leader → become / stay follower
        if req.term > self.ps.current_term {
            persist = self.ps.enter_term(req.term);
        }
        self.become_follower_with_leader(Some(req.leader_id.clone()), now, election_timeout);
        assert(self@ == old(self)@.heard(req@, now, election_timeout));
        // Rule 3: check log consistency at prev_log_index / prev_log_term
        if req.prev_log_index > 0 {
            match self.log.term_at(req.prev_log_index) {
                None => {
                    // We don't have that entry yet
                    let next: u64 = self.log.last_index() + 1;
                    return AppendHandled {
                        persist,
                        step: AppendStep::Reply(self.ae_reject(next, 0)),
                    };
                },
                Some(t) => {
                    if t != req.prev_log_term {
                        // Conflicting term: give back the first index of that term
                        // so the leader can skip the whole term in one round trip
                        let conflict_index: u64 = match self.log.first_index_of_term(t) {
                            Some(index) => index,
                            None => req.prev_log_index,
                        };
                        return AppendHandled {
                            persist,
                            step: AppendStep::Reply(self.ae_reject(conflict_index, t)),
                        };
                    }
                },
            }
        }
        // Rule 4: append new entries (truncating on conflict)
        let job = AppendJob {
            entries: req.entries,
            at: 0,
            stage: Stage::Check,
            leader_commit: req.leader_commit,
        };
        let step = self.next_append_step(job);
        AppendHandled { persist, step }
    }

    /// Go on with `job`, up to its next write or to the reply.
    pub fn next_append_step(&mut self, job: AppendJob) -> (step: AppendStep)
        requires
            job@.wf(),
            old(self)@.can_accept(job@.entries),
        ensures
            final(self).wf() == old(self).wf(),
            (final(self)@, step@) == old(self)@.next_step(job@),
            step matches AppendStep::Write { job, actions } ==> job@.wf(),
    {
        let ghost view = job@;
        let ghost all = job@.entries;
        match job.stage {
            Stage::Check => {},
            Stage::Cut => {
                assert(all[job.at as int] == job.entries@[job.at as int]@);
                assert(self@.log.can_append(all[job.at as int].data.len() as int));
                let actions = self.log.truncate_actions(job.entries[job.at].index);
                return AppendStep::Write { job, actions };
            },
            Stage::Append => {
                let e = &job.entries[job.at];
                assert(all[job.at as int] == e@);
                let actions = self.log.append_actions(e.term, e.data.as_slice());
                return AppendStep::Write { job, actions };
            },
        }
        let AppendJob { entries, at: from, stage: _, leader_commit } = job;
        let mut at: usize = from;
        while at < entries.len()
            invariant
                from <= at <= entries@.len(),
                view == job@,
                view == (JobView {
                    entries: all,
                    at: from as int,
                    stage: Stage::Check,
                    leader_commit,
                }),
                all == log::views(entries@),
                *self == *old(self),
                self@.can_accept(all),
                first_missing(self@.log.log, all, at as int) == first_missing(
                    self@.log.log,
                    all,
                    from as int,
                ),
            decreases entries@.len() - at,
        {
            let e = &entries[at];
            assert(all[at as int] == e@);
            match self.log.term_at(e.index) {
                Some(t) => {
                    if t != e.term {
                        // Conflict: trim our log, then append
                        assert(self@.log.can_append(all[at as int].data.len() as int));
                        let actions = self.log.truncate_actions(e.index);
                        let job = AppendJob { entries, at, stage: Stage::Cut, leader_commit };
                        return AppendStep::Write { job, actions };
                    }
                    // Already have a matching entry — no-op
                },
                None => {
                    let actions = self.log.append_actions(e.term, e.data.as_slice());
                    let job = AppendJob { entries, at, stage: Stage::Append, leader_commit };
                    return AppendStep::Write { job, actions };
                },
            }
            at = at + 1;
        }
        // Rule 5: advance commit index
        if leader_commit > self.commit_index {
            let last: u64 = self.log.last_index();
            self.commit_index = if leader_commit < last {
                leader_commit
            } else {
                last
            };
        }
        AppendStep::Reply(
            AppendEntriesResponse {
                term: self.ps.current_term,
                success: true,
                conflict_index: 0,
                conflict_term: 0,
            },
        )
    }

    /// Report the outcome of the write that `job` was waiting for. A write that
    /// failed is passed over: the leader finds out by a later request.
    pub fn append_written(&mut self, job: AppendJob, io: &Outcome) -> (next: AppendJob)
        requires
            job@.wf(),
            old(self)@.can_accept(job@.entries),
        ensures
            final(self).wf() == old(self).wf(),
            (final(self)@, next@) == old(self)@.write_reported(job@, io@),
            next@.wf(),
    {
        let mut job = job;
        match job.stage {
            Stage::Check => {},
            Stage::Cut => {
                let e = &job.entries[job.at];
                assert(job@.entries[job.at as int] == e@);
                assert(self@.log.can_append(e.data@.len() as int));
                let _ = self.log.truncate_from(e.index, io);
                job.stage = Stage::Append;
            },
            Stage::Append => {
                let e = &job.entries[job.at];
                assert(job@.entries[job.at as int] == e@);
                let _ = self.log.append(e.term, e.data.as_slice(), io);
                assert(job.at < job.entries.len());
                job.at = job.at + 1;
                job.stage = Stage::Check;
            },
        }
        job
    }

    fn ae_reject(&self, conflict_index: u64, conflict_term: u64) -> (response:
        AppendEntriesResponse)
        ensures
            response == NodeView::refusal(
                self@.state.current_term,
                conflict_index,
                conflict_term,
            ),
    {
        AppendEntriesResponse {
            term: self.ps.current_term,
            success: false,
            conflict_index,
            conflict_term,
        }
    }
}

// ─── RequestVote RPC (§5.2) ──────────────────────────────────────────────────

/// The candidate's log is at least as up to date as `l` (§5.4.1).
pub open spec fn up_to_date(l: LogView, req: VoteRequestView) -> bool {
    req.last_log_term > l.last_term() || (req.last_log_term == l.last_term()
        && req.last_log_index >= l.last_index())
}

impl NodeView {
    /// The node after it has seen the term of a vote request.
    pub open spec fn saw_term(self, term: u64) -> NodeView {
        if term > self.state.current_term {
            NodeView { state: self.state.in_term(term), role: Role::Follower, ..self }
        } else {
            self
        }
    }

    /// The request gets this node's vote: it is of the current term, the node has
    /// not voted for another candidate in it, and the candidate's log is not behind.
    pub open spec fn grants(self, req: VoteRequestView) -> bool {
        &&& req.term >= self.state.current_term
        &&& self.state.voted_for matches Some(v) ==> v == req.candidate_id
        &&& up_to_date(self.log.log, req)
    }

    /// The node after a vote request, and its answer.
    pub open spec fn vote_requested(self, req: VoteRequestView, now: Nanos) -> (
        NodeView,
        RequestVoteResponse,
    ) {
        let seen = self.saw_term(req.term);
        let term = seen.state.current_term;
        if seen.grants(req) {
            (
                NodeView {
                    state: seen.state.with_vote(req.candidate_id),
                    last_heartbeat: now,
                    ..seen
                },
                RequestVoteResponse { term, vote_granted: true },
            )
        } else {
            (seen, RequestVoteResponse { term, vote_granted: false })
        }
    }

    /// What has to be persisted at a vote request: the term, if it is new, and
    /// the vote, if it is granted.
    pub open spec fn vote_batches(self, req: VoteRequestView) -> Seq<Seq<FileOp>> {
        let seen = self.saw_term(req.term);
        let first = if req.term > self.state.current_term {
            seq![seen.state.persist_ops()]
        } else {
            Seq::empty()
        };
        if seen.grants(req) {
            first.push(seen.state.with_vote(req.candidate_id).persist_ops())
        } else {
            first
        }
    }
}

/// How a vote request was answered: the reply, and what has to be persisted
/// before it is sent, whether or not that succeeds.
pub struct VoteHandled {
    pub persist: Vec<Vec<FileAction>>,
    pub response: RequestVoteResponse,
}

/// Put one list of actions behind others.
fn push_batch(lists: &mut Vec<Vec<FileAction>>, list: Vec<FileAction>)
    ensures
        storage::batches(final(lists)@) == storage::batches(old(lists)@).push(storage::ops(list@)),
{
    let ghost start = storage::batches(lists@);
    let ghost added = storage::ops(list@);
    lists.push(list);
    assert(storage::batches(lists@) =~= start.push(added));
}

impl RaftNode {
    /// Answer a RequestVote request, at the time `now`.
    pub fn on_request_vote(&mut self, req: RequestVoteRequest, now: Nanos) -> (handled: VoteHandled)
        requires
            old(self)@.log.log.last_index() <= u64::MAX,
        ensures
            final(self).wf() == old(self).wf(),
            (final(self)@, handled.response) == old(self)@.vote_requested(req@, now),
            storage::batches(handled.persist@) == old(self)@.vote_batches(req@),
    {
        let mut persist: Vec<Vec<FileAction>> = Vec::new();
        assert(storage::batches(persist@) =~= Seq::<Seq<FileOp>>::empty());
        // Always update term if we see a higher one
        if req.term > self.ps.current_term {
            let list = self.ps.enter_term(req.term);
            push_batch(&mut persist, list);
            self.role = Role::Follower;
        }
        assert(self@ == old(self)@.saw_term(req.term));
        assert(req.term > old(self)@.state.current_term ==> storage::batches(persist@)
            =~= seq![self@.state.persist_ops()]);
        let term: u64 = self.ps.current_term;
        let refused = RequestVoteResponse { term, vote_granted: false };
        if req.term < term {
            return VoteHandled { persist, response: refused };
        }
        let already_voted_for_other = match &self.ps.voted_for {
            Some(v) => *v != req.candidate_id,
            None => false,
        };
        if already_voted_for_other {
            return VoteHandled { persist, response: refused };
        }
        // Log up-to-date check (§5.4.1)
        let log_ok = req.last_log_term > self.log.last_term() || (req.last_log_term
            == self.log.last_term() && req.last_log_index >= self.log.last_index());
        if !log_ok {
            return VoteHandled { persist, response: refused };
        }
        let list = self.ps.cast_vote(req.candidate_id.clone());
        push_batch(&mut persist, list);
        self.last_heartbeat = now; // reset timer on granting a vote
        VoteHandled { persist, response: RequestVoteResponse { term, vote_granted: true } }
    }
}

// ─── Leader election (§5.2) ──────────────────────────────────────────────────

/// The terms of the answers to a vote request; `None` where there is no answer.
pub open spec fn vote_terms(results: Seq<Option<RequestVoteResponse>>) -> Seq<Option<u64>> {
    Seq::new(
        results.len(),
        |i: int|
            match results[i] {
                Some(r) => Some(r.term),
                None => None,
            },
    )
}

/// The terms of the answers to an append request; `None` where there is no answer.
pub open spec fn append_terms(results: Seq<Option<AppendEntriesResponse>>) -> Seq<Option<u64>> {
    Seq::new(
        results.len(),
        |i: int|
            match results[i] {
                Some(r) => Some(r.term),
                None => None,
            },
    )
}

/// The first term above `term` among `terms`.
pub open spec fn higher_term(terms: Seq<Option<u64>>, term: u64) -> Option<u64>
    decreases terms.len(),
{
    if terms.len() == 0 {
        None
    } else {
        match higher_term(terms.drop_last(), term) {
            Some(t) => Some(t),
            None => match terms.last() {
                Some(t) => if t > term {
                    Some(t)
                } else {
                    None
                },
                None => None,
            },
        }
    }
}

/// How many of the answers grant the vote.
pub open spec fn granted(results: Seq<Option<RequestVoteResponse>>) -> int
    decreases results.len(),
{
    if results.len() == 0 {
        0
    } else {
        granted(results.drop_last()) + if results.last() matches Some(r) && r.vote_granted {
            1int
        } else {
            0int
        }
    }
}

/// `map` with `value` for each of `keys`.
pub open spec fn assigned(map: Map<Seq<char>, u64>, keys: Seq<Seq<char>>, value: u64) -> Map<
    Seq<char>,
    u64,
>
    decreases keys.len(),
{
    if keys.len() == 0 {
        map
    } else {
        assigned(map, keys.drop_last(), value).insert(keys.last(), value)
    }
}

impl NodeView {
    /// The node as a candidate in the next term, with its own vote.
    pub open spec fn campaigning(self, now: Nanos, timeout: Nanos) -> NodeView {
        NodeView {
            state: self.state.in_term((self.state.current_term + 1) as u64).with_vote(self.id),
            role: Role::Candidate,
            last_heartbeat: now,
            election_timeout: timeout,
            ..self
        }
    }

    /// What has to be persisted when an election starts: the term, then the vote.
    pub open spec fn election_batches(self) -> Seq<Seq<FileOp>> {
        let next = self.state.in_term((self.state.current_term + 1) as u64);
        seq![next.persist_ops(), next.with_vote(self.id).persist_ops()]
    }

    /// The vote request of this node.
    pub open spec fn vote_request(self) -> VoteRequestView {
        VoteRequestView {
            term: self.state.current_term,
            candidate_id: self.id,
            last_log_index: self.log.log.last_index() as u64,
            last_log_term: self.log.log.last_term(),
        }
    }

    /// The node as a leader: it assumes of every peer that its log is as long.
    pub open spec fn leading(self) -> NodeView {
        NodeView {
            role: Role::Leader,
            current_leader: Some(self.id),
            next_index: assigned(
                self.next_index,
                self.peers,
                (self.log.log.last_index() + 1) as u64,
            ),
            match_index: assigned(self.match_index, self.peers, 0),
            ..self
        }
    }

    /// The node after the answers to its vote request: a higher term makes it step
    /// down, a majority makes it the leader, and anything else a follower again.
    pub open spec fn election_closed(
        self,
        results: Seq<Option<RequestVoteResponse>>,
        now: Nanos,
        timeout: Nanos,
    ) -> NodeView {
        match higher_term(vote_terms(results), self.state.current_term) {
            Some(term) => self.stepped_down(term, now, timeout),
            None => if self.role != Role::Candidate {
                self
            } else if 1 + granted(results) >= self.quorum() {
                self.leading()
            } else {
                NodeView { role: Role::Follower, ..self }
            },
        }
    }

    /// What has to be persisted where the peers know of a higher term.
    pub open spec fn step_down_batches(self, term: Option<u64>) -> Seq<Seq<FileOp>> {
        match term {
            Some(term) => seq![self.state.in_term(term).persist_ops()],
            None => Seq::empty(),
        }
    }
}

/// An election that was started: what has to be persisted, whether or not that
/// succeeds, and the request to send to every peer.
pub struct ElectionStarted {
    pub persist: Vec<Vec<FileAction>>,
    pub request: RequestVoteRequest,
}

impl RaftNode {
    /// Start an election, at the time `now`. `election_timeout` is one drawn by
    /// [`config::random_election_timeout`].
    pub fn start_election(&mut self, now: Nanos, election_timeout: Nanos) -> (started:
        ElectionStarted)
        requires
            old(self)@.state.current_term < u64::MAX,
            old(self)@.log.log.last_index() <= u64::MAX,
        ensures
            final(self).wf() == old(self).wf(),
            final(self)@ == old(self)@.campaigning(now, election_timeout),
            started.request@ == final(self)@.vote_request(),
            storage::batches(started.persist@) == old(self)@.election_batches(),
    {
        let new_term: u64 = self.ps.current_term + 1;
        let mut persist: Vec<Vec<FileAction>> = Vec::new();
        let list = self.ps.enter_term(new_term);
        persist.push(list);
        let list = self.ps.cast_vote(self.id.clone());
        persist.push(list);
        assert(storage::batches(persist@) =~= old(self)@.election_batches());
        self.role = Role::Candidate;
        self.last_heartbeat = now;
        self.election_timeout = election_timeout;
        let request = RequestVoteRequest {
            term: new_term,
            candidate_id: self.id.clone(),
            last_log_index: self.log.last_index(),
            last_log_term: self.log.last_term(),
        };
        ElectionStarted { persist, request }
    }

    /// Close an election with the answers of the peers, in their order; `None`
    /// stands for one that could not be reached. Returns what has to be persisted,
    /// whether or not that succeeds.
    pub fn finish_election(
        &mut self,
        results: &Vec<Option<RequestVoteResponse>>,
        now: Nanos,
        election_timeout: Nanos,
    ) -> (persist: Vec<Vec<FileAction>>)
        requires
            old(self).wf(),
            results@.len() <= old(self)@.peers.len(),
            old(self)@.log.log.last_index() < u64::MAX,
        ensures
            final(self).wf(),
            final(self)@ == old(self)@.election_closed(results@, now, election_timeout),
            storage::batches(persist@) == old(self)@.step_down_batches(
                higher_term(vote_terms(results@), old(self)@.state.current_term),
            ),
    {
        let mut persist: Vec<Vec<FileAction>> = Vec::new();
        let term: u64 = self.ps.current_term;
        let mut votes: usize = 1; // self-vote
        let mut i: usize = 0;
        assert(storage::batches(persist@) =~= Seq::<Seq<FileOp>>::empty());
        let ghost terms = vote_terms(results@);
        assert(results@.take(0) =~= Seq::<Option<RequestVoteResponse>>::empty());
        assert(terms.take(0) =~= Seq::<Option<u64>>::empty());
        while i < results.len()
            invariant
                *self == *old(self),
                self.wf(),
                i <= results@.len() <= self.peers@.len(),
                term == self@.state.current_term,
                storage::batches(persist@) == Seq::<Seq<FileOp>>::empty(),
                terms == vote_terms(results@),
                higher_term(terms.take(i as int), term) is None,
                votes == 1 + granted(results@.take(i as int)),
                1 <= votes <= i + 1,
            decreases results@.len() - i,
        {
            proof {
                assert(results@.take(i + 1).drop_last() =~= results@.take(i as int));
                assert(results@.take(i + 1).last() == results@[i as int]);
                assert(terms.take(i + 1).drop_last() =~= terms.take(i as int));
                assert(terms.take(i + 1).last() == terms[i as int]);
            }
            match &results[i] {
                Some(resp) => {
                    if resp.term > term {
                        proof {
                            lemma_higher_term(terms, term, i + 1);
                        }
                        let list = self.step_down(resp.term, now, election_timeout);
                        push_batch(&mut persist, list);
                        assert(storage::batches(persist@) =~= old(self)@.step_down_batches(
                            Some(resp.term),
                        ));
                        return persist;
                    }
                    if resp.vote_granted {
                        votes = votes + 1;
                    }
                },
                None => {},
            }
            i = i + 1;
        }
        assert(terms.take(i as int) =~= terms);
        assert(results@.take(i as int) =~= results@);
        match self.role {
            Role::Candidate => {
                if votes >= self.config.quorum() {
                    self.become_leader();
                } else {
                    self.role = Role::Follower;
                }
            },
            _ => {}, // stepped down during election
        }
        persist
    }

    fn become_leader(&mut self)
        requires
            old(self)@.log.log.last_index() < u64::MAX,
        ensures
            final(self).wf() == old(self).wf(),
            final(self)@ == old(self)@.leading(),
    {
        self.role = Role::Leader;
        self.current_leader = Some(self.id.clone());
        // Initialize leader replication state
        let next: u64 = self.log.last_index() + 1;
        let ghost start = self@;
        let ghost ids = self@.peers;
        let mut i: usize = 0;
        assert(ids.take(0) =~= Seq::<Seq<char>>::empty());
        while i < self.peers.len()
            invariant
                i <= self.peers@.len(),
                ids == peer_ids(self.peers@),
                self.wf() == old(self).wf(),
                self@ == (NodeView {
                    next_index: assigned(start.next_index, ids.take(i as int), next),
                    match_index: assigned(start.match_index, ids.take(i as int), 0),
                    ..start
                }),
            decreases self.peers@.len() - i,
        {
            proof {
                assert(ids.take(i + 1).drop_last() =~= ids.take(i as int));
                assert(ids.take(i + 1).last() == self.peers@[i as int].id@);
            }
            self.next_index.insert(self.peers[i].id.clone(), next);
            self.match_index.insert(self.peers[i].id.clone(), 0);
            i = i + 1;
        }
        assert(ids.take(i as int) =~= ids);
    }
}

/// A higher term in the first answers is that of them all.
proof fn lemma_higher_term(terms: Seq<Option<u64>>, term: u64, n: int)
    requires
        0 <= n <= terms.len(),
        higher_term(terms.take(n), term) is Some,
    ensures
        higher_term(terms, term) == higher_term(terms.take(n), term),
    decreases terms.len(),
{
    if n == terms.len() {
        assert(terms.take(n) =~= terms);
    } else {
        assert(terms.drop_last().take(n) =~= terms.take(n));
        lemma_higher_term(terms.drop_last(), term, n);
    }
}

// ─── Client write (leader path) ──────────────────────────────────────────────

/// The entries up to index `index`.
pub open spec fn up_to(entries: Seq<LogEntryView>, index: u64) -> Seq<LogEntryView>
    decreases entries.len(),
{
    if entries.len() == 0 {
        Seq::empty()
    } else if entries.last().index <= index {
        up_to(entries.drop_last(), index).push(entries.last())
    } else {
        up_to(entries.drop_last(), index)
    }
}

/// What the answers of the peers to a replication come to: who has acknowledged,
/// where to go on with each peer, and whether one of them knows of a higher term,
/// at which the count stops.
pub struct Tally {
    pub acks: int,
    pub next_index: Map<Seq<char>, u64>,
    pub match_index: Map<Seq<char>, u64>,
    pub higher_term: Option<u64>,
}

impl NodeView {
    /// What a leader that has not sent anything to `peer` yet, or has heard of it
    /// last, goes on with.
    pub open spec fn next_for(self, peer: Seq<char>, up_to_index: u64) -> u64 {
        if self.next_index.contains_key(peer) {
            self.next_index[peer]
        } else {
            (up_to_index + 1) as u64
        }
    }

    /// The request that brings `peer` up to `up_to_index`.
    pub open spec fn request_for(self, peer: Seq<char>, up_to_index: u64) -> AppendRequestView {
        let next = self.next_for(peer, up_to_index);
        let prev = if next > 0 {
            (next - 1) as u64
        } else {
            0
        };
        AppendRequestView {
            term: self.state.current_term,
            leader_id: self.id,
            prev_log_index: prev,
            prev_log_term: match self.log.log.term_at(prev) {
                Some(t) => t,
                None => 0,
            },
            entries: up_to(self.log.log.from_index(next), up_to_index),
            leader_commit: self.commit_index,
        }
    }

    /// The tally of the answers `results`, the first one being that of the first
    /// peer. The node itself has acknowledged.
    pub open spec fn tally(
        self,
        results: Seq<Option<AppendEntriesResponse>>,
        up_to_index: u64,
    ) -> Tally
        decreases results.len(),
    {
        if results.len() == 0 {
            Tally {
                acks: 1,
                next_index: self.next_index,
                match_index: self.match_index,
                higher_term: None,
            }
        } else {
            let earlier = self.tally(results.drop_last(), up_to_index);
            let peer = self.peers[results.len() - 1];
            if earlier.higher_term is Some {
                earlier
            } else {
                match results.last() {
                    None => earlier,
                    Some(r) => if r.term > self.state.current_term {
                        Tally { higher_term: Some(r.term), ..earlier }
                    } else if r.success {
                        Tally {
                            acks: earlier.acks + 1,
                            next_index: earlier.next_index.insert(peer, (up_to_index + 1) as u64),
                            match_index: earlier.match_index.insert(peer, up_to_index),
                            higher_term: None,
                        }
                    } else if r.conflict_index > 0 {
                        Tally {
                            next_index: earlier.next_index.insert(peer, r.conflict_index),
                            ..earlier
                        }
                    } else {
                        earlier
                    },
                }
            }
        }
    }

    /// The node after the answers of the peers were counted.
    pub open spec fn counted(
        self,
        results: Seq<Option<AppendEntriesResponse>>,
        up_to_index: u64,
        now: Nanos,
        timeout: Nanos,
    ) -> NodeView {
        let tally = self.tally(results, up_to_index);
        let told = NodeView {
            next_index: tally.next_index,
            match_index: tally.match_index,
            ..self
        };
        match tally.higher_term {
            Some(term) => told.stepped_down(term, now, timeout),
            None => told,
        }
    }

    /// The result of a write at `index` that was acknowledged by the nodes that the
    /// answers tell of.
    pub open spec fn write_result(
        self,
        results: Seq<Option<AppendEntriesResponse>>,
        index: u64,
    ) -> Result<u64, RaftErrorView> {
        if self.tally(results, index).acks < self.quorum() {
            Err(RaftErrorView::QuorumNotReached)
        } else {
            Ok(index)
        }
    }

    /// The node after the write at `index` was closed: committed, if it was
    /// acknowledged by a majority.
    pub open spec fn write_closed(
        self,
        results: Seq<Option<AppendEntriesResponse>>,
        index: u64,
        now: Nanos,
        timeout: Nanos,
    ) -> NodeView {
        let counted = self.counted(results, index, now, timeout);
        if self.write_result(results, index) is Ok {
            NodeView { commit_index: index, ..counted }
        } else {
            counted
        }
    }

    /// The refusal of a write by a node that does not lead.
    pub open spec fn not_leader(self) -> RaftErrorView {
        RaftErrorView::NotLeader { hint: self.current_leader }
    }

    /// The result of putting a write of `len` bytes into the leader's own log.
    pub open spec fn begin_result(self, len: int, io: OutcomeView) -> Result<u64, RaftErrorView> {
        if self.role != Role::Leader {
            Err(self.not_leader())
        } else {
            self.log.append_result(len, io)
        }
    }

    /// The node after putting a write into its own log.
    pub open spec fn write_begun(self, data: Seq<u8>, io: OutcomeView) -> NodeView {
        if self.role != Role::Leader {
            self
        } else {
            NodeView { log: self.log.appended(self.state.current_term, data, io), ..self }
        }
    }
}

/// A write that was closed: its result, and what has to be persisted before that
/// is told, whether or not persisting succeeds.
pub struct WriteClosed {
    pub persist: Vec<Vec<FileAction>>,
    pub result: Result<u64, RaftError>,
}

/// Keep the entries up to index `index`.
fn take_up_to(entries: &Vec<LogEntry>, index: u64) -> (kept: Vec<LogEntry>)
    ensures
        log::views(kept@) == up_to(log::views(entries@), index),
{
    let ghost all = log::views(entries@);
    let mut kept: Vec<LogEntry> = Vec::new();
    let mut i: usize = 0;
    assert(log::views(kept@) =~= up_to(all.take(0), index));
    while i < entries.len()
        invariant
            i <= entries@.len(),
            all == log::views(entries@),
            log::views(kept@) == up_to(all.take(i as int), index),
        decreases entries@.len() - i,
    {
        let ghost before = log::views(kept@);
        proof {
            assert(all.take(i + 1).drop_last() =~= all.take(i as int));
            assert(all.take(i + 1).last() == entries@[i as int]@);
        }
        if entries[i].index <= index {
            kept.push(entries[i].clone());
            assert(log::views(kept@) =~= before.push(all[i as int]));
        }
        i = i + 1;
    }
    assert(all.take(i as int) =~= all);
    kept
}

impl RaftNode {
    fn not_leader(&self) -> (e: RaftError)
        ensures
            e@ == self@.not_leader(),
    {
        RaftError::NotLeader {
            hint: match &self.current_leader {
                Some(l) => Some(l.clone()),
                None => None,
            },
        }
    }

    /// What has to be done on disk to put a client's write into the log. A node
    /// that does not lead refuses, and names the leader that it knows of.
    pub fn client_write_actions(&self, data: &[u8]) -> (actions: Result<Vec<FileAction>, RaftError>)
        requires
            self@.role == Role::Leader ==> self@.log.can_append(data@.len() as int),
        ensures
            match actions {
                Ok(list) => {
                    &&& self@.role == Role::Leader
                    &&& storage::ops(list@) == self@.log.append_ops(
                        self@.state.current_term,
                        data@,
                    )
                },
                Err(e) => self@.role != Role::Leader && e@ == self@.not_leader(),
            },
    {
        match self.role {
            Role::Leader => Ok(self.log.append_actions(self.ps.current_term, data)),
            _ => Err(self.not_leader()),
        }
    }

    /// Put a client's write into the leader's own log, where `io` is the outcome of
    /// [`RaftNode::client_write_actions`]. Returns the index that it was given, up to
    /// which the peers have to be brought.
    pub fn begin_client_write(&mut self, data: &[u8], io: &Outcome) -> (index: Result<
        u64,
        RaftError,
    >)
        requires
            old(self)@.role == Role::Leader ==> old(self)@.log.can_append(data@.len() as int),
        ensures
            final(self).wf() == old(self).wf(),
            error::agrees(index, old(self)@.begin_result(data@.len() as int, io@)),
            final(self)@ == old(self)@.write_begun(data@, io@),
    {
        match self.role {
            Role::Leader => self.log.append(self.ps.current_term, data, io),
            _ => Err(self.not_leader()),
        }
    }

    /// The requests that bring the peers up to `up_to_index`, in the order of the
    /// peers.
    pub fn replication_requests(&self, up_to_index: u64) -> (requests: Vec<AppendEntriesRequest>)
        requires
            up_to_index < u64::MAX,
            self@.log.log.last_index() < u64::MAX,
        ensures
            requests@.len() == self@.peers.len(),
            forall|i: int|
                0 <= i < requests@.len() ==> (#[trigger] requests@[i])@ == self@.request_for(
                    self@.peers[i],
                    up_to_index,
                ),
    {
        let mut requests: Vec<AppendEntriesRequest> = Vec::new();
        let mut i: usize = 0;
        while i < self.peers.len()
            invariant
                i <= self.peers@.len(),
                up_to_index < u64::MAX,
                self@.log.log.last_index() < u64::MAX,
                requests@.len() == i,
                forall|j: int|
                    0 <= j < i ==> (#[trigger] requests@[j])@ == self@.request_for(
                        self@.peers[j],
                        up_to_index,
                    ),
            decreases self.peers@.len() - i,
        {
            requests.push(
                self.build_append_entries_for(self.peers[i].id.as_str(), up_to_index),
            );
            i = i + 1;
        }
        requests
    }

    fn build_append_entries_for(&self, peer_id: &str, up_to_index: u64) -> (request:
        AppendEntriesRequest)
        requires
            up_to_index < u64::MAX,
            self@.log.log.last_index() < u64::MAX,
        ensures
            request@ == self@.request_for(peer_id@, up_to_index),
    {
        let next: u64 = match self.next_index.get(peer_id) {
            Some(next) => *next,
            None => up_to_index + 1,
        };
        let prev_log_index: u64 = if next > 0 {
            next - 1
        } else {
            0
        };
        let prev_log_term: u64 = match self.log.term_at(prev_log_index) {
            Some(t) => t,
            None => 0,
        };
        let entries = take_up_to(&self.log.entries_from(next), up_to_index);
        AppendEntriesRequest {
            term: self.ps.current_term,
            leader_id: self.id.clone(),
            prev_log_index,
            prev_log_term,
            entries,
            leader_commit: self.commit_index,
        }
    }

    /// Count the answers of the peers to a replication up to `up_to_index`, in the
    /// order of the peers; `None` stands for one that could not be reached. Returns
    /// the acknowledgements, this node's among them, and what has to be persisted.
    fn count_acks(
        &mut self,
        results: &Vec<Option<AppendEntriesResponse>>,
        up_to_index: u64,
        now: Nanos,
        election_timeout: Nanos,
    ) -> (counted: (usize, Vec<Vec<FileAction>>))
        requires
            old(self).wf(),
            results@.len() <= old(self)@.peers.len(),
            up_to_index < u64::MAX,
        ensures
            final(self).wf(),
            final(self)@ == old(self)@.counted(results@, up_to_index, now, election_timeout),
            counted.0 == old(self)@.tally(results@, up_to_index).acks,
            storage::batches(counted.1@) == old(self)@.step_down_batches(
                old(self)@.tally(results@, up_to_index).higher_term,
            ),
    {
        let mut persist: Vec<Vec<FileAction>> = Vec::new();
        let mut acks: usize = 1; // self
        let mut i: usize = 0;
        let ghost start = self@;
        assert(storage::batches(persist@) =~= Seq::<Seq<FileOp>>::empty());
        assert(results@.take(0) =~= Seq::<Option<AppendEntriesResponse>>::empty());
        while i < results.len()
            invariant
                self.wf(),
                start == old(self)@,
                i <= results@.len() <= self.peers@.len(),
                up_to_index < u64::MAX,
                storage::batches(persist@) == Seq::<Seq<FileOp>>::empty(),
                ({
                    let tally = start.tally(results@.take(i as int), up_to_index);
                    &&& tally.higher_term is None
                    &&& acks == tally.acks
                    &&& self@ == (NodeView {
                        next_index: tally.next_index,
                        match_index: tally.match_index,
                        ..start
                    })
                }),
                1 <= acks <= i + 1,
            decreases results@.len() - i,
        {
            proof {
                assert(results@.take(i + 1).drop_last() =~= results@.take(i as int));
                assert(results@.take(i + 1).last() == results@[i as int]);
                assert(start.peers[i as int] == self.peers@[i as int].id@);
            }
            match &results[i] {
                Some(resp) => {
                    if resp.term > self.ps.current_term {
                        // Discovered a higher term: step down
                        proof {
                            lemma_tally_stops(start, results@, up_to_index, i + 1);
                        }
                        let list = self.step_down(resp.term, now, election_timeout);
                        push_batch(&mut persist, list);
                        assert(storage::batches(persist@) =~= start.step_down_batches(
                            Some(resp.term),
                        ));
                        return (acks, persist);
                    }
                    let id = self.peers[i].id.clone();
                    if resp.success {
                        acks = acks + 1;
                        self.match_index.insert(id.clone(), up_to_index);
                        self.next_index.insert(id, up_to_index + 1);
                    } else if resp.conflict_index > 0 {
                        self.next_index.insert(id, resp.conflict_index);
                    }
                },
                None => {},
            }
            i = i + 1;
        }
        assert(results@.take(i as int) =~= results@);
        (acks, persist)
    }

    /// Close a client's write at `index` with the answers of the peers to
    /// [`RaftNode::replication_requests`], in their order; `None` stands for one
    /// that could not be reached. `election_timeout` is one drawn by
    /// [`config::random_election_timeout`].
    pub fn finish_client_write(
        &mut self,
        index: u64,
        results: &Vec<Option<AppendEntriesResponse>>,
        now: Nanos,
        election_timeout: Nanos,
    ) -> (closed: WriteClosed)
        requires
            old(self).wf(),
            results@.len() <= old(self)@.peers.len(),
            index < u64::MAX,
        ensures
            final(self).wf(),
            final(self)@ == old(self)@.write_closed(results@, index, now, election_timeout),
            error::agrees(closed.result, old(self)@.write_result(results@, index)),
            storage::batches(closed.persist@) == old(self)@.step_down_batches(
                old(self)@.tally(results@, index).higher_term,
            ),
    {
        let quorum: usize = self.config.quorum();
        let (acks, persist) = self.count_acks(results, index, now, election_timeout);
        if acks < quorum {
            return WriteClosed { persist, result: Err(RaftError::QuorumNotReached) };
        }
        self.commit_index = index;
        WriteClosed { persist, result: Ok(index) }
    }
}

/// A tally that stopped at a higher term is the tally of all answers.
proof fn lemma_tally_stops(
    node: NodeView,
    results: Seq<Option<AppendEntriesResponse>>,
    up_to_index: u64,
    n: int,
)
    requires
        0 <= n <= results.len(),
        node.tally(results.take(n), up_to_index).higher_term is Some,
    ensures
        node.tally(results, up_to_index) == node.tally(results.take(n), up_to_index),
    decreases results.len(),
{
    if n == results.len() {
        assert(results.take(n) =~= results);
    } else {
        assert(results.drop_last().take(n) =~= results.take(n));
        lemma_tally_stops(node, results.drop_last(), up_to_index, n);
    }
}

// ─── Heartbeat (leader) ──────────────────────────────────────────────────────

impl NodeView {
    /// The heartbeat of this node.
    pub open spec fn heartbeat(self) -> AppendRequestView {
        AppendRequestView {
            term: self.state.current_term,
            leader_id: self.id,
            prev_log_index: self.log.log.last_index() as u64,
            prev_log_term: self.log.log.last_term(),
            entries: Seq::empty(),
            leader_commit: self.commit_index,
        }
    }

    /// The node after the answers to its heartbeats.
    pub open spec fn heartbeats_answered(
        self,
        results: Seq<Option<AppendEntriesResponse>>,
        now: Nanos,
        timeout: Nanos,
    ) -> NodeView {
        match higher_term(append_terms(results), self.state.current_term) {
            Some(term) => self.stepped_down(term, now, timeout),
            None => self,
        }
    }
}

impl RaftNode {
    /// The heartbeat to send to every peer.
    pub fn heartbeat_request(&self) -> (request: AppendEntriesRequest)
        requires
            self@.log.log.last_index() <= u64::MAX,
        ensures
            request@ == self@.heartbeat(),
    {
        let request = AppendEntriesRequest {
            term: self.ps.current_term,
            leader_id: self.id.clone(),
            prev_log_index: self.log.last_index(),
            prev_log_term: self.log.last_term(),
            entries: Vec::new(),
            leader_commit: self.commit_index,
        };
        assert(request@.entries =~= Seq::<LogEntryView>::empty());
        request
    }

    /// Take in the answers to heartbeats; `None` stands for a peer that could not be
    /// reached. Returns what has to be persisted, whether or not that succeeds.
    pub fn on_heartbeat_responses(
        &mut self,
        results: &Vec<Option<AppendEntriesResponse>>,
        now: Nanos,
        election_timeout: Nanos,
    ) -> (persist: Vec<Vec<FileAction>>)
        ensures
            final(self).wf() == old(self).wf(),
            final(self)@ == old(self)@.heartbeats_answered(results@, now, election_timeout),
            storage::batches(persist@) == old(self)@.step_down_batches(
                higher_term(append_terms(results@), old(self)@.state.current_term),
            ),
    {
        let mut persist: Vec<Vec<FileAction>> = Vec::new();
        let term: u64 = self.ps.current_term;
        let mut i: usize = 0;
        assert(storage::batches(persist@) =~= Seq::<Seq<FileOp>>::empty());
        let ghost terms = append_terms(results@);
        assert(terms.take(0) =~= Seq::<Option<u64>>::empty());
        while i < results.len()
            invariant
                *self == *old(self),
                i <= results@.len(),
                term == self@.state.current_term,
                storage::batches(persist@) == Seq::<Seq<FileOp>>::empty(),
                terms == append_terms(results@),
                higher_term(terms.take(i as int), term) is None,
            decreases results@.len() - i,
        {
            proof {
                assert(terms.take(i + 1).drop_last() =~= terms.take(i as int));
                assert(terms.take(i + 1).last() == terms[i as int]);
            }
            match &results[i] {
                Some(resp) => {
                    if resp.term > term {
                        proof {
                            lemma_higher_term(terms, term, i + 1);
                        }
                        let list = self.step_down(resp.term, now, election_timeout);
                        push_batch(&mut persist, list);
                        assert(storage::batches(persist@) =~= old(self)@.step_down_batches(
                            Some(resp.term),
                        ));
                        return persist;
                    }
                },
                None => {},
            }
            i = i + 1;
        }
        assert(terms.take(i as int) =~= terms);
        persist
    }

    // ─── Reading ─────────────────────────────────────────────────────────────

    /// Answer a client's read: the log from `from_index` on.
    pub fn on_client_read(&self, from_index: u64) -> (entries: Vec<LogEntry>)
        requires
            self@.log.log.last_index() < u64::MAX,
        ensures
            log::views(entries@) == self@.log.log.from_index(from_index),
    {
        self.log.entries_from(from_index)
    }

    pub fn id(&self) -> (id: &String)
        ensures
            id@ == self@.id,
    {
        &self.id
    }

    pub fn role(&self) -> (role: Role)
        ensures
            role == self@.role,
    {
        self.role
    }

    pub fn current_term(&self) -> (term: u64)
        ensures
            term == self@.state.current_term,
    {
        self.ps.current_term
    }

    pub fn commit_index(&self) -> (index: u64)
        ensures
            index == self@.commit_index,
    {
        self.commit_index
    }

    pub fn peers(&self) -> (peers: &Vec<PeerClient>)
        ensures
            peer_ids(peers@) == self@.peers,
            peer_addrs(peers@) == self@.addrs,
    {
        &self.peers
    }

    pub fn log(&self) -> (log: &RaftLog)
        ensures
            log@ == self@.log,
    {
        &self.log
    }
}

} // verus!
