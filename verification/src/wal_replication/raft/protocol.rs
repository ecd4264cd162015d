//! What the messages between nodes mean, told by what the logs hold: which entry stands
//! at which index, how far a log reaches, which peers have answered what.
use vstd::prelude::*;

use crate::storage::OutcomeView;
use crate::wal_replication::config::Nanos;
use crate::wal_replication::error::RaftErrorView;
use crate::wal_replication::persistent_state::StateView;
use crate::wal_replication::raft::consensus;
use crate::wal_replication::raft::log;
use crate::wal_replication::raft::log::{LogEntryView, LogView};
use crate::wal_replication::raft::message::{
    AppendEntriesResponse, AppendRequestView, RequestVoteResponse, VoteRequestView,
};
use crate::wal_replication::raft::node;
use crate::wal_replication::raft::node::{JobView, NodeView, Role, Stage, StepView};

verus! {

// ─── What a log holds ────────────────────────────────────────────────────────

/// The index that `l` reaches to.
pub open spec fn reach(l: LogView) -> int {
    l.snapshot_index + l.entries.len()
}

/// `l` knows what stands at `index`: its snapshot ends there, or it has the entry.
pub open spec fn knows(l: LogView, index: int) -> bool {
    0 < index == l.snapshot_index || l.snapshot_index < index <= reach(l)
}

/// An entry of the term `term` stands at `index` of `l`.
pub open spec fn stands(l: LogView, index: int, term: u64) -> bool {
    ||| 0 < index == l.snapshot_index && l.snapshot_term == term
    ||| l.snapshot_index < index <= reach(l) && l.entries[index - l.snapshot_index - 1].term == term
}

/// The term of the newest entry of `l`, or of its snapshot where it has none.
pub open spec fn newest_term(l: LogView) -> u64 {
    if l.entries.len() == 0 {
        l.snapshot_term
    } else {
        l.entries[l.entries.len() - 1].term
    }
}

/// The index of a log that was asked for is where its entries stand: one behind the
/// other from the snapshot on.
pub proof fn log_is_read_by_position(l: LogView, index: u64)
    ensures
        l.last_index() == reach(l),
        l.last_term() == newest_term(l),
        l.term_at(index) is Some <==> knows(l, index as int),
        forall|t: u64| l.term_at(index) == Some(t) <==> #[trigger] stands(l, index as int, t),
        l.term_at(0) is None,
{
    assert forall|t: u64| l.term_at(index) == Some(t) <==> #[trigger] stands(
        l,
        index as int,
        t,
    ) by {}
}

/// The entries from an index on are all that stand there and behind it, in order, and
/// none where the log does not reach so far.
pub proof fn entries_are_read_from_an_index_on(l: LogView, from: u64)
    ensures
        ({
            let found = l.from_index(from);
            let first = if from > l.snapshot_index {
                from as int
            } else {
                l.snapshot_index + 1
            };
            &&& found.len() == if first <= reach(l) {
                reach(l) - first + 1
            } else {
                0
            }
            &&& forall|i: int|
                0 <= i < found.len() ==> #[trigger] found[i] == l.entries[first
                    - l.snapshot_index - 1 + i]
        }),
{
}

/// The first index of a term is where its first entry stands; a snapshot of that term
/// comes before every entry. There is none just if the log has no such entry.
pub proof fn first_index_of_a_term_is_the_first(l: LogView, term: u64)
    ensures
        match l.first_index_of_term(term) {
            Some(index) => {
                ||| l.snapshot_index > 0 && l.snapshot_term == term && index == l.snapshot_index
                ||| {
                    &&& !(l.snapshot_index > 0 && l.snapshot_term == term)
                    &&& exists|i: int|
                        0 <= i < l.entries.len() && (#[trigger] l.entries[i]).term == term
                            && l.entries[i].index == index && forall|j: int|
                            0 <= j < i ==> (#[trigger] l.entries[j]).term != term
                }
            },
            None => {
                &&& !(l.snapshot_index > 0 && l.snapshot_term == term)
                &&& forall|i: int|
                    0 <= i < l.entries.len() ==> (#[trigger] l.entries[i]).term != term
            },
        },
{
    if !(l.snapshot_index > 0 && l.snapshot_term == term) {
        let _ = lemma_first_of_term(l.entries, term);
    }
}

proof fn lemma_first_of_term(entries: Seq<LogEntryView>, term: u64) -> (at: int)
    ensures
        0 <= at <= entries.len(),
        forall|j: int| 0 <= j < at ==> (#[trigger] entries[j]).term != term,
        at < entries.len() ==> entries[at].term == term && log::first_of_term(entries, term)
            == Some(entries[at].index),
        at == entries.len() ==> log::first_of_term(entries, term) is None,
    decreases entries.len(),
{
    if entries.len() == 0 || entries[0].term == term {
        0
    } else {
        let rest = entries.drop_first();
        let at = lemma_first_of_term(rest, term);
        assert forall|j: int| 0 <= j < at + 1 implies (#[trigger] entries[j]).term != term by {
            if j > 0 {
                assert(rest[j - 1] == entries[j]);
            }
        }
        if at < rest.len() {
            assert(rest[at] == entries[at + 1]);
        }
        at + 1
    }
}

// ─── Appending as a follower ─────────────────────────────────────────────────

/// The entry that a request names as the one before its own stands in `l`, or it names
/// none.
pub open spec fn fits_onto(l: LogView, req: AppendRequestView) -> bool {
    req.prev_log_index == 0 || stands(l, req.prev_log_index as int, req.prev_log_term)
}

/// A request of a past term is refused with the current term, and nothing changes. Any
/// other makes the node a follower of its sender, in the sender's term: a vote counts
/// for its own term only, and the election timer starts anew. Its log, its name and its
/// peers stay as they are.
pub proof fn sender_of_a_request_is_followed(
    n: NodeView,
    req: AppendRequestView,
    now: Nanos,
    timeout: Nanos,
)
    ensures
        ({
            let (after, step) = n.append_requested(req, now, timeout);
            if req.term < n.state.current_term {
                &&& after == n
                &&& step == StepView::Reply(
                    AppendEntriesResponse {
                        term: n.state.current_term,
                        success: false,
                        conflict_index: 0,
                        conflict_term: 0,
                    },
                )
            } else {
                &&& after.state.current_term == req.term
                &&& after.state.voted_for == if req.term > n.state.current_term {
                    None
                } else {
                    n.state.voted_for
                }
                &&& after.state.dir == n.state.dir
                &&& after.role == Role::Follower
                &&& after.current_leader == Some(req.leader_id)
                &&& after.last_heartbeat == now
                &&& after.election_timeout == timeout
                &&& after.log == n.log
                &&& after.id == n.id
                &&& after.peers == n.peers
                &&& after.addrs == n.addrs
                &&& after.heartbeat_interval == n.heartbeat_interval
                &&& after.next_index == n.next_index
                &&& after.match_index == n.match_index
            }
        }),
{
}

/// A request is refused just if it is stale or does not fit onto the log: the node has
/// no entry, or one of another term, where the one before the new entries should stand.
/// A refusal leaves the log and the commit index as they were.
pub proof fn request_is_refused_unless_it_fits_onto_the_log(
    n: NodeView,
    req: AppendRequestView,
    now: Nanos,
    timeout: Nanos,
)
    ensures
        ({
            let (after, step) = n.append_requested(req, now, timeout);
            let refused = step matches StepView::Reply(r) && !r.success;
            &&& refused <==> req.term < n.state.current_term || !fits_onto(n.log.log, req)
            &&& refused ==> after.log == n.log && after.commit_index == n.commit_index
            &&& step matches StepView::Reply(r) ==> r.term == after.state.current_term
            &&& step matches StepView::Reply(r) ==> (r.success ==> r.conflict_index == 0
                && r.conflict_term == 0)
        }),
{
    log_is_read_by_position(n.log.log, req.prev_log_index);
    assert(stands(n.log.log, req.prev_log_index as int, req.prev_log_term) <==> n.log.log.term_at(
        req.prev_log_index,
    ) == Some(req.prev_log_term));
}

/// A refusal for want of a fitting entry says where to go on from: behind the end of
/// the log where the node knows of no such entry, and else at the first entry of the
/// term that stands there instead, with that term.
pub proof fn refusal_names_what_conflicts(
    n: NodeView,
    req: AppendRequestView,
    now: Nanos,
    timeout: Nanos,
)
    requires
        req.term >= n.state.current_term,
        req.prev_log_index > 0,
        reach(n.log.log) < u64::MAX,
    ensures
        ({
            let l = n.log.log;
            let step = n.append_requested(req, now, timeout).1;
            &&& !knows(l, req.prev_log_index as int) ==> step == StepView::Reply(
                AppendEntriesResponse {
                    term: req.term,
                    success: false,
                    conflict_index: (reach(l) + 1) as u64,
                    conflict_term: 0,
                },
            )
            &&& forall|t: u64|
                #[trigger] stands(l, req.prev_log_index as int, t) && t != req.prev_log_term ==> {
                    &&& step matches StepView::Reply(r)
                    &&& !r.success
                    &&& r.term == req.term
                    &&& r.conflict_term == t
                    &&& {
                        ||| l.snapshot_index > 0 && l.snapshot_term == t && r.conflict_index
                            == l.snapshot_index
                        ||| {
                            &&& !(l.snapshot_index > 0 && l.snapshot_term == t)
                            &&& exists|i: int|
                                0 <= i < l.entries.len() && (#[trigger] l.entries[i]).term == t
                                    && l.entries[i].index == r.conflict_index && forall|j: int|
                                    0 <= j < i ==> (#[trigger] l.entries[j]).term != t
                        }
                    }
                }
        }),
{
    let l = n.log.log;
    log_is_read_by_position(l, req.prev_log_index);
    assert forall|t: u64|
        #[trigger] stands(l, req.prev_log_index as int, t) && t != req.prev_log_term implies {
        let step = n.append_requested(req, now, timeout).1;
        &&& step matches StepView::Reply(r)
        &&& !r.success
        &&& r.term == req.term
        &&& r.conflict_term == t
        &&& {
            ||| l.snapshot_index > 0 && l.snapshot_term == t && r.conflict_index
                == l.snapshot_index
            ||| {
                &&& !(l.snapshot_index > 0 && l.snapshot_term == t)
                &&& exists|i: int|
                    0 <= i < l.entries.len() && (#[trigger] l.entries[i]).term == t
                        && l.entries[i].index == r.conflict_index && forall|j: int|
                        0 <= j < i ==> (#[trigger] l.entries[j]).term != t
            }
        }
    } by {
        first_index_of_a_term_is_the_first(l, t);
        if l.first_index_of_term(t) is None {
            let i = req.prev_log_index - l.snapshot_index - 1;
            assert(l.entries[i].term == t);
        }
    }
}

/// The entries of a request that stand in the log already are passed over, up to the
/// first that does not: where the log has another entry in its place, that one has to be
/// cut off, and else it has to be appended. Where all of them stand, the request is
/// accepted: nothing is written or cut, and the commit index follows the leader's as far
/// as the log reaches.
pub proof fn job_stops_at_the_first_missing_entry(n: NodeView, job: JobView, k: int)
    requires
        job.stage == Stage::Check,
        0 <= job.at <= k <= job.entries.len(),
        reach(n.log.log) <= u64::MAX,
        forall|i: int|
            job.at <= i < k ==> stands(
                n.log.log,
                (#[trigger] job.entries[i]).index as int,
                job.entries[i].term,
            ),
        k < job.entries.len() ==> !stands(
            n.log.log,
            job.entries[k].index as int,
            job.entries[k].term,
        ),
    ensures
        ({
            let (after, step) = n.next_step(job);
            if k < job.entries.len() {
                &&& after == n
                &&& step matches StepView::Write(next, ops)
                &&& ops == if knows(n.log.log, job.entries[k].index as int) {
                    n.log.truncate_ops(job.entries[k].index)
                } else {
                    n.log.append_ops(job.entries[k].term, job.entries[k].data)
                }
                &&& next == JobView {
                    entries: job.entries,
                    at: k,
                    stage: if knows(n.log.log, job.entries[k].index as int) {
                        Stage::Cut
                    } else {
                        Stage::Append
                    },
                    leader_commit: job.leader_commit,
                }
            } else {
                &&& step == StepView::Reply(
                    AppendEntriesResponse {
                        term: n.state.current_term,
                        success: true,
                        conflict_index: 0,
                        conflict_term: 0,
                    },
                )
                &&& after == NodeView { commit_index: after.commit_index, ..n }
                &&& after.commit_index == if job.leader_commit <= n.commit_index {
                    n.commit_index as int
                } else if job.leader_commit <= reach(n.log.log) {
                    job.leader_commit as int
                } else {
                    reach(n.log.log)
                }
            }
        }),
{
    let l = n.log.log;
    lemma_first_missing(l, job.entries, job.at, k);
    if k < job.entries.len() {
        log_is_read_by_position(l, job.entries[k].index);
    }
}

proof fn lemma_first_missing(l: LogView, entries: Seq<LogEntryView>, at: int, k: int)
    requires
        0 <= at <= k <= entries.len(),
        forall|i: int|
            at <= i < k ==> stands(l, (#[trigger] entries[i]).index as int, entries[i].term),
        k < entries.len() ==> !stands(l, entries[k].index as int, entries[k].term),
    ensures
        node::first_missing(l, entries, at) == k,
    decreases k - at,
{
    if at < entries.len() {
        log_is_read_by_position(l, entries[at].index);
        assert(stands(l, entries[at].index as int, entries[at].term) <==> l.term_at(
            entries[at].index,
        ) == Some(entries[at].term));
    }
    if at < k {
        lemma_first_missing(l, entries, at + 1, k);
    }
}

/// A request that fits onto the log is taken up like a job of all its entries.
pub proof fn fitting_request_is_a_job(
    n: NodeView,
    req: AppendRequestView,
    now: Nanos,
    timeout: Nanos,
)
    requires
        req.term >= n.state.current_term,
        fits_onto(n.log.log, req),
    ensures
        exists|m: NodeView| #[trigger]
            m.next_step(
                JobView {
                    entries: req.entries,
                    at: 0,
                    stage: Stage::Check,
                    leader_commit: req.leader_commit,
                },
            ) == n.append_requested(req, now, timeout) && m.log == n.log && m.commit_index
                == n.commit_index && m.state.current_term == req.term,
{
    log_is_read_by_position(n.log.log, req.prev_log_index);
    let m = n.heard(req, now, timeout);
    let job = JobView {
        entries: req.entries,
        at: 0,
        stage: Stage::Check,
        leader_commit: req.leader_commit,
    };
    assert(stands(n.log.log, req.prev_log_index as int, req.prev_log_term) <==> n.log.log.term_at(
        req.prev_log_index,
    ) == Some(req.prev_log_term));
    assert(m.next_step(job) == n.append_requested(req, now, timeout));
}

/// A job that is to cut writes the cut before its entry, and one that is to append writes
/// the entry itself, of the term that the entry has. The node waits for the outcome.
pub proof fn job_writes_what_it_is_to_write(n: NodeView, job: JobView)
    requires
        job.stage != Stage::Check,
    ensures
        ({
            let (after, step) = n.next_step(job);
            let e = job.entries[job.at];
            &&& after == n
            &&& job.stage == Stage::Cut ==> step == StepView::Write(
                job,
                n.log.truncate_ops(e.index),
            )
            &&& job.stage == Stage::Append ==> step == StepView::Write(
                job,
                n.log.append_ops(e.term, e.data),
            )
        }),
{
}

/// What a write of a job was for decides what is left of the job: after a cut the entry
/// still has to be appended, and after an append the next one comes. However the write
/// came out, the job goes on.
pub proof fn job_goes_on_after_a_write(n: NodeView, job: JobView, io: OutcomeView)
    requires
        job.stage != Stage::Check,
    ensures
        ({
            let (after, next) = n.write_reported(job, io);
            let e = job.entries[job.at];
            &&& next.entries == job.entries
            &&& next.leader_commit == job.leader_commit
            &&& job.stage == Stage::Cut ==> next.at == job.at && next.stage == Stage::Append
            &&& job.stage == Stage::Append ==> next.at == job.at + 1 && next.stage == Stage::Check
            &&& after == NodeView { log: after.log, ..n }
            &&& job.stage == Stage::Cut ==> after.log == n.log.truncated(e.index, io)
            &&& job.stage == Stage::Append ==> after.log == n.log.appended(e.term, e.data, io)
        }),
{
}

// ─── Voting ──────────────────────────────────────────────────────────────────

/// The log that a candidate tells of is at least as up to date as `l`: its last entry
/// is of a later term, or of the same term and at least as far on.
pub open spec fn not_behind(term: u64, index: u64, l: LogView) -> bool {
    term > newest_term(l) || (term == newest_term(l) && index >= reach(l))
}

/// A vote is granted just if the candidate's term is not past, no other candidate has
/// the node's vote in that term, and the candidate's last entry is of a later term than
/// the node's own, or of the same term and at least as far on. The node goes to the
/// candidate's term if that is higher, which ends whatever it was and any vote of its
/// old term; a vote that is granted is remembered and starts the election timer anew.
pub proof fn vote_goes_to_a_candidate_that_is_not_behind(
    n: NodeView,
    req: VoteRequestView,
    now: Nanos,
)
    ensures
        ({
            let (after, answer) = n.vote_requested(req, now);
            let newer = req.term > n.state.current_term;
            &&& answer.vote_granted <==> {
                &&& req.term >= n.state.current_term
                &&& newer || n.state.voted_for is None || n.state.voted_for == Some(
                    req.candidate_id,
                )
                &&& not_behind(req.last_log_term, req.last_log_index, n.log.log)
            }
            &&& answer.term == if newer {
                req.term
            } else {
                n.state.current_term
            }
            &&& after.state.current_term == answer.term
            &&& after.state.dir == n.state.dir
            &&& after.state.voted_for == if answer.vote_granted {
                Some(req.candidate_id)
            } else if newer {
                None
            } else {
                n.state.voted_for
            }
            &&& after.role == if newer {
                Role::Follower
            } else {
                n.role
            }
            &&& after.last_heartbeat == if answer.vote_granted {
                now
            } else {
                n.last_heartbeat
            }
            &&& after == NodeView {
                state: after.state,
                role: after.role,
                last_heartbeat: after.last_heartbeat,
                ..n
            }
        }),
{
    log_is_read_by_position(n.log.log, 0);
}

/// A node that asks for votes does so in the next term, in which its own vote is for
/// itself, and tells of the last entry of its log.
pub proof fn candidate_asks_in_the_next_term(n: NodeView, now: Nanos, timeout: Nanos)
    requires
        n.state.current_term < u64::MAX,
        reach(n.log.log) <= u64::MAX,
    ensures
        ({
            let after = n.campaigning(now, timeout);
            let req = after.vote_request();
            &&& after.state.current_term == n.state.current_term + 1
            &&& after.state.voted_for == Some(n.id)
            &&& after.state.dir == n.state.dir
            &&& after.role == Role::Candidate
            &&& after.last_heartbeat == now
            &&& after.election_timeout == timeout
            &&& after == NodeView {
                state: after.state,
                role: after.role,
                last_heartbeat: now,
                election_timeout: timeout,
                ..n
            }
            &&& req.term == n.state.current_term + 1
            &&& req.candidate_id == n.id
            &&& req.last_log_index == reach(n.log.log)
            &&& req.last_log_term == newest_term(n.log.log)
        }),
{
    log_is_read_by_position(n.log.log, 0);
}

/// A node whose log is behind another's by any entry of that one's last term, or by a
/// whole term, does not get its vote; one that is level with it does, where the term is
/// new.
pub proof fn candidate_level_with_the_voter_is_elected(
    voter: NodeView,
    candidate: NodeView,
    now: Nanos,
    timeout: Nanos,
)
    requires
        candidate.state.current_term < u64::MAX,
        reach(candidate.log.log) <= u64::MAX,
        voter.state.current_term <= candidate.state.current_term,
    ensures
        ({
            let req = candidate.campaigning(now, timeout).vote_request();
            let granted = voter.vote_requested(req, now).1.vote_granted;
            let mine = candidate.log.log;
            let yours = voter.log.log;
            &&& newest_term(mine) == newest_term(yours) ==> (granted <==> reach(mine) >= reach(
                yours,
            ))
            &&& newest_term(mine) > newest_term(yours) ==> granted
            &&& newest_term(mine) < newest_term(yours) ==> !granted
        }),
{
    let req = candidate.campaigning(now, timeout).vote_request();
    candidate_asks_in_the_next_term(candidate, now, timeout);
    vote_goes_to_a_candidate_that_is_not_behind(voter, req, now);
}

// ─── Counting answers ────────────────────────────────────────────────────────

/// The positions before `end` of the answers that grant a vote.
pub open spec fn grants(results: Seq<Option<RequestVoteResponse>>, end: int) -> Set<int> {
    Set::new(
        |i: int| 0 <= i < end && results[i] is Some && results[i]->Some_0.vote_granted,
    )
}

/// The positions before `end` of the answers that acknowledge.
pub open spec fn acknowledgements(
    results: Seq<Option<AppendEntriesResponse>>,
    end: int,
) -> Set<int> {
    Set::new(|i: int| 0 <= i < end && results[i] is Some && results[i]->Some_0.success)
}

/// The answer at `i` is of a term above `term`.
pub open spec fn votes_higher(
    results: Seq<Option<RequestVoteResponse>>,
    i: int,
    term: u64,
) -> bool {
    results[i] is Some && results[i]->Some_0.term > term
}

/// The answer at `i` is of a term above `term`.
pub open spec fn acks_higher(
    results: Seq<Option<AppendEntriesResponse>>,
    i: int,
    term: u64,
) -> bool {
    results[i] is Some && results[i]->Some_0.term > term
}

proof fn lemma_first_higher(terms: Seq<Option<u64>>, term: u64, f: int)
    requires
        0 <= f <= terms.len(),
        forall|i: int|
            0 <= i < f ==> (#[trigger] terms[i] is None || terms[i]->Some_0 <= term),
        f < terms.len() ==> terms[f] is Some && terms[f]->Some_0 > term,
    ensures
        node::higher_term(terms, term) == if f < terms.len() {
            terms[f]
        } else {
            None
        },
    decreases terms.len(),
{
    if terms.len() > 0 {
        let head = terms.drop_last();
        let g = if f < terms.len() {
            f
        } else {
            f - 1
        };
        assert forall|i: int| 0 <= i < g implies (#[trigger] head[i] is None || head[i]->Some_0
            <= term) by {
            assert(head[i] == terms[i]);
        }
        if f < head.len() {
            assert(head[f] == terms[f]);
        }
        lemma_first_higher(head, term, g);
        if f == terms.len() {
            assert(terms[f - 1] is None || terms[f - 1]->Some_0 <= term);
        }
    }
}

proof fn lemma_grants(results: Seq<Option<RequestVoteResponse>>)
    ensures
        grants(results, results.len() as int).finite(),
        node::granted(results) == grants(results, results.len() as int).len(),
    decreases results.len(),
{
    let all = grants(results, results.len() as int);
    if results.len() == 0 {
        assert(all =~= Set::<int>::empty());
    } else {
        let head = results.drop_last();
        let last = results.len() - 1;
        lemma_grants(head);
        let before = grants(head, head.len() as int);
        assert(!before.contains(last));
        if results[last] is Some && results[last]->Some_0.vote_granted {
            assert(all =~= before.insert(last));
        } else {
            assert(all =~= before);
        }
    }
}

/// A candidate becomes the leader just if no peer answers with a higher term and the
/// peers that granted their vote, with the node itself, are more than half of the
/// cluster. A new leader takes every peer to be level with it, and keeps its term and its
/// log. A candidate without a majority is a follower again, and nothing else changes.
pub proof fn candidate_needs_more_than_half_of_the_votes(
    n: NodeView,
    results: Seq<Option<RequestVoteResponse>>,
    now: Nanos,
    timeout: Nanos,
)
    requires
        n.role == Role::Candidate,
        reach(n.log.log) < u64::MAX,
        forall|i: int|
            0 <= i < results.len() ==> !#[trigger] votes_higher(
                results,
                i,
                n.state.current_term,
            ),
    ensures
        ({
            let after = n.election_closed(results, now, timeout);
            let votes = grants(results, results.len() as int);
            &&& votes.finite()
            &&& if 2 * (votes.len() + 1) > n.peers.len() + 1 {
                &&& after.role == Role::Leader
                &&& after.current_leader == Some(n.id)
                &&& after == NodeView {
                    role: after.role,
                    current_leader: after.current_leader,
                    next_index: after.next_index,
                    match_index: after.match_index,
                    ..n
                }
                &&& forall|p: Seq<char>|
                    #[trigger] n.peers.contains(p) ==> after.next_index.contains_key(p)
                        && after.next_index[p] == reach(n.log.log) + 1
                        && after.match_index.contains_key(p) && after.match_index[p] == 0
                &&& forall|p: Seq<char>|
                    !#[trigger] n.peers.contains(p) ==> after.next_index.contains_key(p)
                        == n.next_index.contains_key(p) && after.next_index[p]
                        == n.next_index[p]
            } else {
                after == NodeView { role: Role::Follower, ..n }
            }
        }),
{
    let terms = node::vote_terms(results);
    assert forall|i: int| 0 <= i < terms.len() implies (#[trigger] terms[i] is None
        || terms[i]->Some_0 <= n.state.current_term) by {
        assert(!votes_higher(results, i, n.state.current_term));
    }
    lemma_first_higher(terms, n.state.current_term, terms.len() as int);
    lemma_grants(results);
    lemma_assigned(n.next_index, n.peers, (reach(n.log.log) + 1) as u64);
    lemma_assigned(n.match_index, n.peers, 0);
}

proof fn lemma_assigned(map: Map<Seq<char>, u64>, keys: Seq<Seq<char>>, value: u64)
    ensures
        forall|p: Seq<char>|
            #[trigger] keys.contains(p) ==> node::assigned(map, keys, value).contains_key(p)
                && node::assigned(map, keys, value)[p] == value,
        forall|p: Seq<char>|
            !#[trigger] keys.contains(p) ==> node::assigned(map, keys, value).contains_key(p)
                == map.contains_key(p) && node::assigned(map, keys, value)[p] == map[p],
    decreases keys.len(),
{
    if keys.len() > 0 {
        let head = keys.drop_last();
        lemma_assigned(map, head, value);
        assert forall|p: Seq<char>| #[trigger] keys.contains(p) <==> head.contains(p) || p
            == keys.last() by {
            if keys.contains(p) {
                let i = choose|i: int| 0 <= i < keys.len() && keys[i] == p;
                if i < head.len() {
                    assert(head[i] == p);
                }
            }
            if head.contains(p) {
                let i = choose|i: int| 0 <= i < head.len() && head[i] == p;
                assert(keys[i] == p);
            }
            if p == keys.last() {
                assert(keys[keys.len() - 1] == p);
            }
        }
    }
}

/// The node has gone to the term `term`, of which it did not know: a follower without a
/// vote in it and with its election timer started anew, and as it was in all else.
pub open spec fn gone_to_term(
    before: NodeView,
    after: NodeView,
    term: u64,
    now: Nanos,
    timeout: Nanos,
) -> bool {
    &&& after.state.current_term == term
    &&& after.state.voted_for is None
    &&& after.state.dir == before.state.dir
    &&& after.role == Role::Follower
    &&& after.last_heartbeat == now
    &&& after.election_timeout == timeout
    &&& after == NodeView {
        state: after.state,
        role: after.role,
        last_heartbeat: now,
        election_timeout: timeout,
        next_index: after.next_index,
        match_index: after.match_index,
        commit_index: after.commit_index,
        ..before
    }
}

/// The first answer of a higher term, to whatever was asked, makes a node go to that
/// term and give up what it was. A node that asked for votes and is no candidate any
/// more is left as it is.
pub proof fn higher_term_ends_an_election(
    n: NodeView,
    results: Seq<Option<RequestVoteResponse>>,
    now: Nanos,
    timeout: Nanos,
    f: int,
)
    requires
        0 <= f <= results.len(),
        forall|i: int| 0 <= i < f ==> !#[trigger] votes_higher(results, i, n.state.current_term),
        f < results.len() ==> votes_higher(results, f, n.state.current_term),
    ensures
        ({
            let after = n.election_closed(results, now, timeout);
            &&& f < results.len() ==> {
                &&& gone_to_term(n, after, results[f]->Some_0.term, now, timeout)
                &&& after.next_index == n.next_index
                &&& after.match_index == n.match_index
                &&& after.commit_index == n.commit_index
            }
            &&& f == results.len() && n.role != Role::Candidate ==> after == n
        }),
{
    let terms = node::vote_terms(results);
    assert forall|i: int| 0 <= i < f implies (#[trigger] terms[i] is None || terms[i]->Some_0
        <= n.state.current_term) by {
        assert(!votes_higher(results, i, n.state.current_term));
    }
    lemma_first_higher(terms, n.state.current_term, f);
}

/// The answers to heartbeats matter only for their terms: the first higher one makes the
/// leader step down, and without one nothing changes.
pub proof fn higher_term_ends_a_leadership(
    n: NodeView,
    results: Seq<Option<AppendEntriesResponse>>,
    now: Nanos,
    timeout: Nanos,
    f: int,
)
    requires
        0 <= f <= results.len(),
        forall|i: int| 0 <= i < f ==> !#[trigger] acks_higher(results, i, n.state.current_term),
        f < results.len() ==> acks_higher(results, f, n.state.current_term),
    ensures
        ({
            let after = n.heartbeats_answered(results, now, timeout);
            &&& f < results.len() ==> {
                &&& gone_to_term(n, after, results[f]->Some_0.term, now, timeout)
                &&& after.next_index == n.next_index
                &&& after.match_index == n.match_index
                &&& after.commit_index == n.commit_index
            }
            &&& f == results.len() ==> after == n
        }),
{
    let terms = node::append_terms(results);
    assert forall|i: int| 0 <= i < f implies (#[trigger] terms[i] is None || terms[i]->Some_0
        <= n.state.current_term) by {
        assert(!acks_higher(results, i, n.state.current_term));
    }
    lemma_first_higher(terms, n.state.current_term, f);
}

// ─── Leading ─────────────────────────────────────────────────────────────────

/// `after` says of `p` what `before` says.
pub open spec fn same_for(
    before: Map<Seq<char>, u64>,
    after: Map<Seq<char>, u64>,
    p: Seq<char>,
) -> bool {
    before.contains_key(p) == after.contains_key(p) && before[p] == after[p]
}

/// What the answer `r` of the peer `p` to a write at `index` makes of where to go on with
/// that peer: behind the entry where it acknowledged, at the index that it named where it
/// refused and named one, and where it was otherwise.
pub open spec fn moved_by(
    n: NodeView,
    next_index: Map<Seq<char>, u64>,
    match_index: Map<Seq<char>, u64>,
    p: Seq<char>,
    r: Option<AppendEntriesResponse>,
    index: u64,
) -> bool {
    if r is Some && r->Some_0.success {
        &&& next_index.contains_key(p)
        &&& next_index[p] == index + 1
        &&& match_index.contains_key(p)
        &&& match_index[p] == index
    } else if r is Some && r->Some_0.conflict_index != 0 {
        &&& next_index.contains_key(p)
        &&& next_index[p] == r->Some_0.conflict_index
        &&& same_for(n.match_index, match_index, p)
    } else {
        same_for(n.next_index, next_index, p) && same_for(n.match_index, match_index, p)
    }
}

proof fn lemma_tally(
    n: NodeView,
    results: Seq<Option<AppendEntriesResponse>>,
    index: u64,
    f: int,
)
    requires
        results.len() <= n.peers.len(),
        index < u64::MAX,
        0 <= f <= results.len(),
        forall|i: int| 0 <= i < f ==> !#[trigger] acks_higher(results, i, n.state.current_term),
        f < results.len() ==> acks_higher(results, f, n.state.current_term),
    ensures
        ({
            let tally = n.tally(results, index);
            &&& acknowledgements(results, f).finite()
            &&& tally.acks == 1 + acknowledgements(results, f).len()
            &&& tally.higher_term == if f < results.len() {
                Some(results[f]->Some_0.term)
            } else {
                None
            }
            &&& forall|i: int|
                0 <= i < f && (forall|j: int|
                    0 <= j < f && j != i ==> n.peers[j] != n.peers[i]) ==> moved_by(
                    n,
                    tally.next_index,
                    tally.match_index,
                    #[trigger] n.peers[i],
                    results[i],
                    index,
                )
            &&& forall|p: Seq<char>|
                !#[trigger] n.peers.take(f).contains(p) ==> same_for(
                    n.next_index,
                    tally.next_index,
                    p,
                ) && same_for(n.match_index, tally.match_index, p)
        }),
    decreases results.len(),
{
    let all = acknowledgements(results, f);
    if results.len() == 0 {
        assert(all =~= Set::<int>::empty());
    } else {
        let head = results.drop_last();
        let last = results.len() - 1;
        let g = if f < results.len() {
            f
        } else {
            f - 1
        };
        assert forall|i: int| 0 <= i < g implies !#[trigger] acks_higher(
            head,
            i,
            n.state.current_term,
        ) by {
            assert(head[i] == results[i]);
            assert(!acks_higher(results, i, n.state.current_term));
        }
        if f < head.len() {
            assert(head[f] == results[f]);
        }
        lemma_tally(n, head, index, g);
        let before = acknowledgements(head, g);
        let tally = n.tally(results, index);
        let earlier = n.tally(head, index);
        assert forall|i: int| 0 <= i < g implies head[i] == results[i] by {}
        if f < results.len() {
            assert(all =~= before) by {
                assert forall|i: int| all.contains(i) == before.contains(i) by {
                    if 0 <= i < g {
                        assert(head[i] == results[i]);
                    }
                }
            }
            if f == last {
                assert(tally.next_index == earlier.next_index);
            }
        } else {
            assert(!acks_higher(results, last, n.state.current_term));
            let p = n.peers[last];
            let done = results[last] is Some && results[last]->Some_0.success;
            assert(!before.contains(last));
            assert forall|i: int| #[trigger] all.contains(i) == (before.contains(i) || (done && i
                == last)) by {
                if 0 <= i < g {
                    assert(head[i] == results[i]);
                }
            }
            if done {
                assert(all =~= before.insert(last));
            } else {
                assert(all =~= before);
            }
            assert forall|i: int|
                0 <= i < f && (forall|j: int|
                    0 <= j < f && j != i ==> n.peers[j] != n.peers[i]) implies moved_by(
                n,
                tally.next_index,
                tally.match_index,
                #[trigger] n.peers[i],
                results[i],
                index,
            ) by {
                if i < last {
                    assert(n.peers[last] != n.peers[i]);
                    assert(head[i] == results[i]);
                    assert(moved_by(
                        n,
                        earlier.next_index,
                        earlier.match_index,
                        n.peers[i],
                        head[i],
                        index,
                    ));
                } else {
                    assert(!n.peers.take(g).contains(p)) by {
                        if n.peers.take(g).contains(p) {
                            let j = choose|j: int|
                                0 <= j < n.peers.take(g).len() && n.peers.take(g)[j] == p;
                            assert(n.peers[j] == p);
                        }
                    }
                }
            }
            assert forall|q: Seq<char>| !#[trigger] n.peers.take(f).contains(q) implies same_for(
                n.next_index,
                tally.next_index,
                q,
            ) && same_for(n.match_index, tally.match_index, q) by {
                assert(n.peers.take(f)[last] == p);
                if n.peers.take(g).contains(q) {
                    let j = choose|j: int|
                        0 <= j < n.peers.take(g).len() && n.peers.take(g)[j] == q;
                    assert(n.peers.take(f)[j] == q);
                }
            }
        }
    }
}

/// A write is committed, and reported so, just if the peers that acknowledged it, with
/// the leader, are more than half of the cluster. The answers count up to the first of a
/// higher term, which makes the leader step down. The log stays as it is, and the commit
/// index where it was unless the write was committed.
pub proof fn write_needs_more_than_half_of_the_cluster(
    n: NodeView,
    results: Seq<Option<AppendEntriesResponse>>,
    index: u64,
    now: Nanos,
    timeout: Nanos,
    f: int,
)
    requires
        results.len() <= n.peers.len(),
        index < u64::MAX,
        0 <= f <= results.len(),
        forall|i: int| 0 <= i < f ==> !#[trigger] acks_higher(results, i, n.state.current_term),
        f < results.len() ==> acks_higher(results, f, n.state.current_term),
    ensures
        ({
            let after = n.write_closed(results, index, now, timeout);
            let acks = acknowledgements(results, f);
            let committed = 2 * (acks.len() + 1) > n.peers.len() + 1;
            &&& acks.finite()
            &&& n.write_result(results, index) == if committed {
                Ok::<u64, RaftErrorView>(index)
            } else {
                Err::<u64, RaftErrorView>(RaftErrorView::QuorumNotReached)
            }
            &&& after.commit_index == if committed {
                index
            } else {
                n.commit_index
            }
            &&& f < results.len() ==> gone_to_term(
                n,
                after,
                results[f]->Some_0.term,
                now,
                timeout,
            )
            &&& f == results.len() ==> after == NodeView {
                next_index: after.next_index,
                match_index: after.match_index,
                commit_index: after.commit_index,
                ..n
            }
        }),
{
    lemma_tally(n, results, index, f);
}

/// When a write is closed, each peer that answered before any higher term is gone on
/// with behind the entry where it acknowledged it, at the index that it named where it
/// refused and named one, whatever its term, and where it was otherwise. Nothing changes
/// for anyone else. (`i` is the place of the peer; its name is nobody else's.)
pub proof fn answer_moves_the_peer(
    n: NodeView,
    results: Seq<Option<AppendEntriesResponse>>,
    index: u64,
    now: Nanos,
    timeout: Nanos,
    f: int,
    i: int,
)
    requires
        results.len() <= n.peers.len(),
        index < u64::MAX,
        0 <= f <= results.len(),
        forall|j: int| 0 <= j < f ==> !#[trigger] acks_higher(results, j, n.state.current_term),
        f < results.len() ==> acks_higher(results, f, n.state.current_term),
        0 <= i < n.peers.len(),
        forall|j: int| 0 <= j < n.peers.len() && j != i ==> #[trigger] n.peers[j] != n.peers[i],
    ensures
        ({
            let after = n.write_closed(results, index, now, timeout);
            moved_by(
                n,
                after.next_index,
                after.match_index,
                n.peers[i],
                if i < f {
                    results[i]
                } else {
                    None
                },
                index,
            )
        }),
        forall|p: Seq<char>|
            !#[trigger] n.peers.contains(p) ==> same_for(
                n.next_index,
                n.write_closed(results, index, now, timeout).next_index,
                p,
            ),
{
    lemma_tally(n, results, index, f);
    let first = n.peers.take(f);
    if i >= f && first.contains(n.peers[i]) {
        let j = choose|j: int| 0 <= j < first.len() && first[j] == n.peers[i];
        assert(n.peers[j] == n.peers[i]);
    }
    assert forall|p: Seq<char>| !#[trigger] n.peers.contains(p) implies same_for(
        n.next_index,
        n.write_closed(results, index, now, timeout).next_index,
        p,
    ) by {
        if first.contains(p) {
            let j = choose|j: int| 0 <= j < first.len() && first[j] == p;
            assert(n.peers[j] == p);
        }
    }
}

/// Where a leader goes on with a peer, if that is known, and else behind `index`.
pub open spec fn next_of(n: NodeView, peer: Seq<char>, index: u64) -> int {
    if n.next_index.contains_key(peer) {
        n.next_index[peer] as int
    } else {
        index + 1
    }
}

/// The request for a peer goes on where the leader is with that peer: it holds, in
/// order, what the leader has from there on up to `index`, names the entry before that
/// with the term that stands there, and carries the leader's term, ID and commit index.
pub proof fn request_goes_on_where_the_peer_is(n: NodeView, peer: Seq<char>, index: u64)
    requires
        index < u64::MAX,
        reach(n.log.log) < u64::MAX,
    ensures
        ({
            let l = n.log.log;
            let next = next_of(n, peer, index);
            let r = n.request_for(peer, index);
            let first = if next > l.snapshot_index {
                next - l.snapshot_index - 1
            } else {
                0
            };
            &&& r.term == n.state.current_term
            &&& r.leader_id == n.id
            &&& r.leader_commit == n.commit_index
            &&& r.prev_log_index == if next > 0 {
                next - 1
            } else {
                0
            }
            &&& knows(l, r.prev_log_index as int) ==> stands(
                l,
                r.prev_log_index as int,
                r.prev_log_term,
            )
            &&& !knows(l, r.prev_log_index as int) ==> r.prev_log_term == 0
            &&& forall|e: LogEntryView|
                #[trigger] r.entries.contains(e) <==> e.index <= index && exists|i: int|
                    first <= i < l.entries.len() && #[trigger] l.entries[i] == e
            &&& r.entries == l.entries.skip(
                if first < l.entries.len() {
                    first
                } else {
                    l.entries.len() as int
                },
            ).filter(|e: LogEntryView| e.index <= index)
        }),
{
    let l = n.log.log;
    let next = next_of(n, peer, index);
    let r = n.request_for(peer, index);
    let first = if next > l.snapshot_index {
        next - l.snapshot_index - 1
    } else {
        0
    };
    log_is_read_by_position(l, r.prev_log_index);
    entries_are_read_from_an_index_on(l, next as u64);
    let tail = l.from_index(next as u64);
    let start = if first < l.entries.len() {
        first
    } else {
        l.entries.len() as int
    };
    assert(tail =~= l.entries.skip(start));
    lemma_up_to_is_a_filter(tail, index);
    lemma_up_to_contains(tail, index);
    assert forall|e: LogEntryView|
        #[trigger] r.entries.contains(e) <==> e.index <= index && exists|i: int|
            first <= i < l.entries.len() && #[trigger] l.entries[i] == e by {
        if tail.contains(e) {
            let i = choose|i: int| 0 <= i < tail.len() && tail[i] == e;
            assert(l.entries[start + i] == e);
        }
        if exists|i: int| first <= i < l.entries.len() && #[trigger] l.entries[i] == e {
            let i = choose|i: int| first <= i < l.entries.len() && #[trigger] l.entries[i] == e;
            assert(tail[i - start] == e);
        }
    }
}

proof fn lemma_up_to_is_a_filter(entries: Seq<LogEntryView>, index: u64)
    ensures
        node::up_to(entries, index) == entries.filter(|e: LogEntryView| e.index <= index),
    decreases entries.len(),
{
    reveal(Seq::filter);
    if entries.len() > 0 {
        lemma_up_to_is_a_filter(entries.drop_last(), index);
    }
}

proof fn lemma_up_to_contains(entries: Seq<LogEntryView>, index: u64)
    ensures
        forall|e: LogEntryView|
            #[trigger] node::up_to(entries, index).contains(e) <==> entries.contains(e) && e.index
                <= index,
    decreases entries.len(),
{
    let found = node::up_to(entries, index);
    if entries.len() > 0 {
        let head = entries.drop_last();
        let before = node::up_to(head, index);
        lemma_up_to_contains(head, index);
        assert forall|e: LogEntryView| #[trigger] found.contains(e) <==> entries.contains(e)
            && e.index <= index by {
            if found.contains(e) {
                let i = choose|i: int| 0 <= i < found.len() && found[i] == e;
                if i < before.len() {
                    assert(before[i] == e);
                    assert(before.contains(e));
                    let j = choose|j: int| 0 <= j < head.len() && head[j] == e;
                    assert(entries[j] == e);
                } else {
                    assert(entries[entries.len() - 1] == e);
                }
            }
            if entries.contains(e) && e.index <= index {
                let j = choose|j: int| 0 <= j < entries.len() && entries[j] == e;
                if j < head.len() {
                    assert(head[j] == e);
                    assert(before.contains(e));
                    let i = choose|i: int| 0 <= i < before.len() && before[i] == e;
                    assert(found[i] == e);
                } else {
                    assert(found[found.len() - 1] == e);
                }
            }
        }
    }
}

/// A peer that refused because the entry before the new ones did not fit is asked from
/// further back the next time, so that leader and peer come together.
pub proof fn refused_leader_asks_from_further_back(
    n: NodeView,
    peer: NodeView,
    results: Seq<Option<AppendEntriesResponse>>,
    index: u64,
    later: u64,
    now: Nanos,
    timeout: Nanos,
    i: int,
)
    requires
        results.len() <= n.peers.len(),
        index < u64::MAX,
        reach(n.log.log) < u64::MAX,
        0 <= i < results.len(),
        forall|j: int|
            0 <= j < results.len() ==> !#[trigger] acks_higher(results, j, n.state.current_term),
        forall|j: int| 0 <= j < n.peers.len() && j != i ==> #[trigger] n.peers[j] != n.peers[i],
        results[i] is Some,
        !results[i]->Some_0.success,
        peer.append_requested(n.request_for(n.peers[i], index), now, timeout).1 == StepView::Reply(
            results[i]->Some_0,
        ),
        // The peer's log is whole, and what it compacted the leader does not go behind.
        reach(peer.log.log) < u64::MAX,
        forall|j: int|
            0 <= j < peer.log.log.entries.len() ==> (#[trigger] peer.log.log.entries[j]).index
                == peer.log.log.snapshot_index + 1 + j,
        peer.log.log.snapshot_index <= n.request_for(n.peers[i], index).prev_log_index,
        later < u64::MAX,
    ensures
        ({
            let after = n.write_closed(results, index, now, timeout);
            let r = results[i]->Some_0;
            &&& 0 < r.conflict_index <= n.request_for(n.peers[i], index).prev_log_index
            &&& next_of(after, n.peers[i], later) == r.conflict_index
            &&& after.request_for(n.peers[i], later).prev_log_index < n.request_for(
                n.peers[i],
                index,
            ).prev_log_index
        }),
{
    let req = n.request_for(n.peers[i], index);
    let after = n.write_closed(results, index, now, timeout);
    let r = results[i]->Some_0;
    let l = peer.log.log;
    assert(!acks_higher(results, i, n.state.current_term));
    request_goes_on_where_the_peer_is(n, n.peers[i], index);
    sender_of_a_request_is_followed(peer, req, now, timeout);
    request_is_refused_unless_it_fits_onto_the_log(peer, req, now, timeout);
    assert(r.term <= n.state.current_term);
    assert(req.term >= peer.state.current_term);
    refusal_names_what_conflicts(peer, req, now, timeout);
    let at = req.prev_log_index as int;
    if knows(l, at) {
        let t = if at == l.snapshot_index {
            l.snapshot_term
        } else {
            l.entries[at - l.snapshot_index - 1].term
        };
        assert(stands(l, at, t));
        if !(l.snapshot_index > 0 && l.snapshot_term == t) {
            let p = choose|p: int|
                0 <= p < l.entries.len() && (#[trigger] l.entries[p]).term == t
                    && l.entries[p].index == r.conflict_index && forall|j: int|
                    0 <= j < p ==> (#[trigger] l.entries[j]).term != t;
            assert(l.entries[at - l.snapshot_index - 1].term == t);
            assert(p <= at - l.snapshot_index - 1);
        }
    }
    answer_moves_the_peer(
        n,
        results,
        index,
        now,
        timeout,
        results.len() as int,
        i,
    );
    write_needs_more_than_half_of_the_cluster(
        n,
        results,
        index,
        now,
        timeout,
        results.len() as int,
    );
    request_goes_on_where_the_peer_is(after, n.peers[i], later);
}

// ─── Heartbeats ──────────────────────────────────────────────────────────────

/// A heartbeat carries no entries. It names the last entry of the leader's log with its
/// term, and carries the leader's term, ID and commit index.
pub proof fn heartbeat_names_the_last_entry(n: NodeView)
    requires
        reach(n.log.log) <= u64::MAX,
    ensures
        n.heartbeat().term == n.state.current_term,
        n.heartbeat().leader_id == n.id,
        n.heartbeat().prev_log_index == reach(n.log.log),
        n.heartbeat().prev_log_term == newest_term(n.log.log),
        reach(n.log.log) > 0 ==> stands(
            n.log.log,
            n.heartbeat().prev_log_index as int,
            n.heartbeat().prev_log_term,
        ),
        n.heartbeat().entries.len() == 0,
        n.heartbeat().leader_commit == n.commit_index,
{
    log_is_read_by_position(n.log.log, 0);
}

/// A follower accepts a heartbeat only where the leader's last entry stands in its own
/// log. It then takes over the leader's commit index as far as its log reaches; where it
/// refuses, its commit index stays. Its log stays either way.
pub proof fn heartbeat_is_accepted_by_logs_in_line(
    leader: NodeView,
    follower: NodeView,
    now: Nanos,
    timeout: Nanos,
)
    requires
        reach(leader.log.log) <= u64::MAX,
        reach(follower.log.log) <= u64::MAX,
    ensures
        ({
            let beat = leader.heartbeat();
            let (after, step) = follower.append_requested(beat, now, timeout);
            let fits = reach(leader.log.log) == 0 || stands(
                follower.log.log,
                reach(leader.log.log),
                newest_term(leader.log.log),
            );
            &&& step matches StepView::Reply(r)
            &&& r.success <==> leader.state.current_term >= follower.state.current_term && fits
            &&& after.log == follower.log
            &&& !r.success ==> after.commit_index == follower.commit_index
            &&& r.success ==> after.commit_index == if leader.commit_index
                <= follower.commit_index {
                follower.commit_index as int
            } else if leader.commit_index <= reach(follower.log.log) {
                leader.commit_index as int
            } else {
                reach(follower.log.log)
            }
        }),
{
    let beat = leader.heartbeat();
    heartbeat_names_the_last_entry(leader);
    request_is_refused_unless_it_fits_onto_the_log(follower, beat, now, timeout);
    sender_of_a_request_is_followed(follower, beat, now, timeout);
    if beat.term >= follower.state.current_term && fits_onto(follower.log.log, beat) {
        fitting_request_is_a_job(follower, beat, now, timeout);
        let job = JobView {
            entries: beat.entries,
            at: 0,
            stage: Stage::Check,
            leader_commit: beat.leader_commit,
        };
        let m = choose|m: NodeView| #[trigger]
            m.next_step(job) == follower.append_requested(beat, now, timeout) && m.log
                == follower.log && m.commit_index == follower.commit_index
                && m.state.current_term == beat.term;
        job_stops_at_the_first_missing_entry(m, job, 0);
    }
}

// ─── Writing ─────────────────────────────────────────────────────────────────

/// A leader puts a write behind the last entry of its log, in its own term; that is the
/// index that the write gets. Where the log cannot be written, or the node does not lead,
/// the log stays as it is, and in the latter case the client learns who leads.
pub proof fn write_goes_behind_the_last_entry(n: NodeView, data: Seq<u8>, io: OutcomeView)
    requires
        reach(n.log.log) < u64::MAX,
    ensures
        ({
            let result = n.begin_result(data.len() as int, io);
            let after = n.write_begun(data, io);
            let l = n.log.log;
            &&& after == NodeView { log: after.log, ..n }
            &&& n.role != Role::Leader ==> after.log == n.log && result == Err::<
                u64,
                RaftErrorView,
            >(RaftErrorView::NotLeader { hint: n.current_leader })
            &&& result matches Ok(index) ==> {
                &&& n.role == Role::Leader
                &&& index == reach(l) + 1
                &&& after.log.log.entries == l.entries.push(
                    LogEntryView { term: n.state.current_term, index, data },
                )
                &&& after.log.log.snapshot_index == l.snapshot_index
                &&& after.log.log.snapshot_term == l.snapshot_term
            }
            &&& result is Err ==> after.log.log == l
        }),
{
    log_is_read_by_position(n.log.log, 0);
}

// ─── What is persisted ───────────────────────────────────────────────────────

/// A node stores its term and its vote whenever it has changed one of them, in the order
/// of the changes, and at no other time: on a request of a higher term the new term; on
/// a vote that it gives the vote, behind the new term where there is one; as a candidate
/// the next term, then the vote for itself; and on an answer of a higher term that term.
pub proof fn changed_state_is_persisted(
    n: NodeView,
    req: AppendRequestView,
    ballot: VoteRequestView,
    votes: Seq<Option<RequestVoteResponse>>,
    answers: Seq<Option<AppendEntriesResponse>>,
    index: u64,
    now: Nanos,
    timeout: Nanos,
)
    requires
        n.state.current_term < u64::MAX,
        votes.len() <= n.peers.len(),
        answers.len() <= n.peers.len(),
    ensures
        ({
            let after = n.append_requested(req, now, timeout).0.state;
            n.append_persist_ops(req) == if req.term > n.state.current_term {
                after.persist_ops()
            } else {
                Seq::empty()
            }
        }),
        ({
            let (after, reply) = n.vote_requested(ballot, now);
            let higher = ballot.term > n.state.current_term;
            let new_term = StateView {
                dir: n.state.dir,
                current_term: ballot.term,
                voted_for: None,
            };
            n.vote_batches(ballot) == match (higher, reply.vote_granted) {
                (true, true) => seq![new_term.persist_ops(), after.state.persist_ops()],
                (true, false) => seq![new_term.persist_ops()],
                (false, true) => seq![after.state.persist_ops()],
                (false, false) => Seq::empty(),
            }
        }),
        ({
            let next = (n.state.current_term + 1) as u64;
            let dir = n.state.dir;
            n.election_batches() == seq![
                StateView { dir, current_term: next, voted_for: None }.persist_ops(),
                StateView { dir, current_term: next, voted_for: Some(n.id) }.persist_ops(),
            ]
        }),
        ({
            let after = n.election_closed(votes, now, timeout).state;
            let higher = node::higher_term(node::vote_terms(votes), n.state.current_term);
            n.step_down_batches(higher) == if after.current_term > n.state.current_term {
                seq![after.persist_ops()]
            } else {
                Seq::empty()
            }
        }),
        ({
            let after = n.write_closed(answers, index, now, timeout).state;
            let higher = n.tally(answers, index).higher_term;
            n.step_down_batches(higher) == if after.current_term > n.state.current_term {
                seq![after.persist_ops()]
            } else {
                Seq::empty()
            }
        }),
        ({
            let after = n.heartbeats_answered(answers, now, timeout).state;
            let higher = node::higher_term(node::append_terms(answers), n.state.current_term);
            n.step_down_batches(higher) == if after.current_term > n.state.current_term {
                seq![after.persist_ops()]
            } else {
                Seq::empty()
            }
        }),
{
    consensus::lemma_higher_term_is_higher(node::vote_terms(votes), n.state.current_term);
    consensus::lemma_higher_term_is_higher(node::append_terms(answers), n.state.current_term);
    consensus::lemma_tally_term_is_higher(n, answers, index);
}

} // verus!
