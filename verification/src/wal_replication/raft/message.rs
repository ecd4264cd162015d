//! The messages that nodes and clients exchange.
use vstd::prelude::*;

use crate::wal_replication::raft::log;
use crate::wal_replication::raft::log::{LogEntry, LogEntryView};

verus! {

/// A leader's request to append entries, or its heartbeat where there are none.
#[derive(Debug)]
pub struct AppendEntriesRequest {
    pub term: u64,
    pub leader_id: String,
    /// Index of the entry right before the new ones.
    pub prev_log_index: u64,
    /// Term of that entry.
    pub prev_log_term: u64,
    pub entries: Vec<LogEntry>,
    /// The leader's commit index.
    pub leader_commit: u64,
}

/// An [`AppendEntriesRequest`] in terms of mathematical sequences.
pub struct AppendRequestView {
    pub term: u64,
    pub leader_id: Seq<char>,
    pub prev_log_index: u64,
    pub prev_log_term: u64,
    pub entries: Seq<LogEntryView>,
    pub leader_commit: u64,
}

impl View for AppendEntriesRequest {
    type V = AppendRequestView;

    open spec fn view(&self) -> AppendRequestView {
        AppendRequestView {
            term: self.term,
            leader_id: self.leader_id@,
            prev_log_index: self.prev_log_index,
            prev_log_term: self.prev_log_term,
            entries: log::views(self.entries@),
            leader_commit: self.leader_commit,
        }
    }
}

/// A follower's answer to an [`AppendEntriesRequest`].
#[derive(Debug, Clone, Copy, PartialEq, Eq)]
pub struct AppendEntriesResponse {
    pub term: u64,
    pub success: bool,
    /// Where the leader should go on from, 0 if there is nothing to say.
    pub conflict_index: u64,
    /// The term that conflicts, 0 if there is none.
    pub conflict_term: u64,
}

/// A candidate's request for a vote.
#[derive(Debug)]
pub struct RequestVoteRequest {
    pub term: u64,
    pub candidate_id: String,
    pub last_log_index: u64,
    pub last_log_term: u64,
}

/// A [`RequestVoteRequest`] in terms of mathematical sequences.
pub struct VoteRequestView {
    pub term: u64,
    pub candidate_id: Seq<char>,
    pub last_log_index: u64,
    pub last_log_term: u64,
}

impl View for RequestVoteRequest {
    type V = VoteRequestView;

    open spec fn view(&self) -> VoteRequestView {
        VoteRequestView {
            term: self.term,
            candidate_id: self.candidate_id@,
            last_log_index: self.last_log_index,
            last_log_term: self.last_log_term,
        }
    }
}

impl Clone for RequestVoteRequest {
    fn clone(&self) -> (copy: Self)
        ensures
            copy@ == self@,
    {
        RequestVoteRequest {
            term: self.term,
            candidate_id: self.candidate_id.clone(),
            last_log_index: self.last_log_index,
            last_log_term: self.last_log_term,
        }
    }
}

/// A node's answer to a [`RequestVoteRequest`].
#[derive(Debug, Clone, Copy, PartialEq, Eq)]
pub struct RequestVoteResponse {
    pub term: u64,
    pub vote_granted: bool,
}

} // verus!
