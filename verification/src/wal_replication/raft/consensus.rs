//! What the nodes of a cluster promise each other: terms only grow, a vote is
//! given once, a leader and a commit take a majority, and an accepted request
//! leaves the follower's log in line with the leader's.
use vstd::prelude::*;

use crate::storage::{FileOp, OutcomeView};
use crate::wal_replication::config;
use crate::wal_replication::config::Nanos;
use crate::wal_replication::error::RaftErrorView;
use crate::wal_replication::raft::log;
use crate::wal_replication::raft::log::{
    LogEntryView, LogView, RaftLogView, APPEND_OVERHEAD, TRUNCATE_LEN,
};
use crate::wal_replication::raft::message::{
    AppendEntriesResponse, AppendRequestView, RequestVoteResponse, VoteRequestView,
};
use crate::wal_replication::raft::node;
use crate::wal_replication::raft::node::{JobView, NodeView, Role, Stage, StepView};
use crate::wal_replication::raft::recovery;

verus! {

// ─── Terms and votes ─────────────────────────────────────────────────────────

/// `after` is in a later term than `before`, or in the same one with the vote, if
/// there was one, as it was.
pub open spec fn term_kept_or_raised(before: NodeView, after: NodeView) -> bool {
    ||| after.state.current_term > before.state.current_term
    ||| {
        &&& after.state.current_term == before.state.current_term
        &&& before.state.voted_for is Some ==> after.state.voted_for == before.state.voted_for
    }
}

/// Whatever a node is asked or told, its term never falls, and within a term it
/// never takes back or changes a vote.
pub proof fn terms_grow_and_votes_stand(
    n: NodeView,
    append: AppendRequestView,
    vote: VoteRequestView,
    votes: Seq<Option<RequestVoteResponse>>,
    acks: Seq<Option<AppendEntriesResponse>>,
    index: u64,
    now: Nanos,
    timeout: Nanos,
)
    ensures
        term_kept_or_raised(n, n.append_requested(append, now, timeout).0),
        term_kept_or_raised(n, n.vote_requested(vote, now).0),
        term_kept_or_raised(n, n.election_closed(votes, now, timeout)),
        term_kept_or_raised(n, n.write_closed(acks, index, now, timeout)),
        term_kept_or_raised(n, n.heartbeats_answered(acks, now, timeout)),
        n.state.current_term < u64::MAX ==> term_kept_or_raised(n, n.campaigning(now, timeout)),
{
    lemma_higher_term_is_higher(node::vote_terms(votes), n.state.current_term);
    lemma_higher_term_is_higher(node::append_terms(acks), n.state.current_term);
    lemma_tally_term_is_higher(n, acks, index);
}

pub proof fn lemma_higher_term_is_higher(terms: Seq<Option<u64>>, term: u64)
    ensures
        node::higher_term(terms, term) matches Some(t) ==> t > term,
    decreases terms.len(),
{
    if terms.len() > 0 {
        lemma_higher_term_is_higher(terms.drop_last(), term);
    }
}

pub proof fn lemma_tally_term_is_higher(
    n: NodeView,
    results: Seq<Option<AppendEntriesResponse>>,
    index: u64,
)
    ensures
        n.tally(results, index).higher_term matches Some(t) ==> t > n.state.current_term,
    decreases results.len(),
{
    if results.len() > 0 {
        lemma_tally_term_is_higher(n, results.drop_last(), index);
    }
}

/// A granted vote is recorded, and from then on no other candidate gets one in
/// that term.
pub proof fn a_vote_is_given_once(
    n: NodeView,
    first: VoteRequestView,
    later: NodeView,
    second: VoteRequestView,
    now: Nanos,
)
    requires
        n.vote_requested(first, now).1.vote_granted,
        later.state.current_term == first.term,
        later.state.voted_for == n.vote_requested(first, now).0.state.voted_for,
        second.term == first.term,
    ensures
        n.vote_requested(first, now).0.state.current_term == first.term,
        n.vote_requested(first, now).0.state.voted_for == Some(first.candidate_id),
        later.vote_requested(second, now).1.vote_granted ==> second.candidate_id
            == first.candidate_id,
{
}

/// A vote is granted just if the request is of a term that is not past, no other
/// candidate has the vote of that term, and the candidate's log is not behind; the
/// answer carries the node's term.
pub proof fn votes_go_to_up_to_date_candidates(n: NodeView, req: VoteRequestView, now: Nanos)
    ensures
        ({
            let (after, answer) = n.vote_requested(req, now);
            &&& answer.term == after.state.current_term
            &&& answer.vote_granted <==> {
                &&& req.term >= n.state.current_term
                &&& req.term == n.state.current_term ==> (n.state.voted_for matches Some(v) ==> v
                    == req.candidate_id)
                &&& node::up_to_date(n.log.log, req)
            }
            &&& after.log == n.log
            &&& !answer.vote_granted && req.term <= n.state.current_term ==> after == n
        }),
{
}

/// What a node persists is what it goes on with: the last list of writes of every
/// event holds the term and the vote that the node has after it, and where there
/// is none, both are as they were.
pub proof fn the_persisted_state_is_the_current_one(
    n: NodeView,
    append: AppendRequestView,
    vote: VoteRequestView,
    votes: Seq<Option<RequestVoteResponse>>,
    acks: Seq<Option<AppendEntriesResponse>>,
    index: u64,
    now: Nanos,
    timeout: Nanos,
)
    ensures
        ({
            let after = n.append_requested(append, now, timeout).0.state;
            let list = n.append_persist_ops(append);
            if list.len() > 0 {
                list == after.persist_ops()
            } else {
                after == n.state
            }
        }),
        written_last(n.vote_batches(vote), n, n.vote_requested(vote, now).0),
        written_last(n.election_batches(), n, n.campaigning(now, timeout)),
        written_last(
            n.step_down_batches(node::higher_term(node::vote_terms(votes), n.state.current_term)),
            n,
            n.election_closed(votes, now, timeout),
        ),
        written_last(
            n.step_down_batches(n.tally(acks, index).higher_term),
            n,
            n.write_closed(acks, index, now, timeout),
        ),
        written_last(
            n.step_down_batches(node::higher_term(node::append_terms(acks), n.state.current_term)),
            n,
            n.heartbeats_answered(acks, now, timeout),
        ),
{
}

/// The last of `lists` stores the state of `after`; without any it is that of
/// `before`.
pub open spec fn written_last(
    lists: Seq<Seq<FileOp>>,
    before: NodeView,
    after: NodeView,
) -> bool {
    if lists.len() > 0 {
        lists.last() == after.state.persist_ops()
    } else {
        after.state == before.state
    }
}

/// A candidate becomes the leader just if no peer knows of a higher term and the
/// votes, its own among them, are a majority; its term is then still the one that
/// it asked the votes for.
pub proof fn a_leader_has_a_majority(
    n: NodeView,
    results: Seq<Option<RequestVoteResponse>>,
    now: Nanos,
    timeout: Nanos,
)
    requires
        n.role == Role::Candidate,
    ensures
        ({
            let after = n.election_closed(results, now, timeout);
            &&& after.role == Role::Leader <==> {
                &&& node::higher_term(node::vote_terms(results), n.state.current_term) is None
                &&& 1 + node::granted(results) >= n.quorum()
            }
            &&& after.role == Role::Leader ==> after.state == n.state
            &&& after.role != Role::Leader ==> after.role == Role::Follower
        }),
{
}

/// Where every member gives one vote in a term, two candidates that both have a
/// majority are the same: there is at most one leader per term.
pub proof fn one_leader_per_term<A>(
    members: Set<A>,
    votes: Map<A, Seq<char>>,
    a: Seq<char>,
    b: Seq<char>,
)
    requires
        members.finite(),
        members.filter(|m: A| votes.contains_key(m) && votes[m] == a).len() >= config::majority(
            members.len() as int,
        ),
        members.filter(|m: A| votes.contains_key(m) && votes[m] == b).len() >= config::majority(
            members.len() as int,
        ),
    ensures
        a == b,
{
    let for_a = members.filter(|m: A| votes.contains_key(m) && votes[m] == a);
    let for_b = members.filter(|m: A| votes.contains_key(m) && votes[m] == b);
    config::two_quorums_share_a_member(members, for_a, for_b);
    let m = choose|m: A| for_a.contains(m) && for_b.contains(m);
    assert(votes[m] == a && votes[m] == b);
}

/// A leader of a past term is refused, with the current term and nothing else to
/// go by, and leaves no trace.
pub proof fn stale_leader_is_refused(
    n: NodeView,
    req: AppendRequestView,
    now: Nanos,
    timeout: Nanos,
)
    requires
        req.term < n.state.current_term,
    ensures
        n.append_requested(req, now, timeout) == (
            n,
            StepView::Reply(
                AppendEntriesResponse {
                    term: n.state.current_term,
                    success: false,
                    conflict_index: 0,
                    conflict_term: 0,
                },
            ),
        ),
{
}

/// A request of a leader that is not stale makes any node a follower of that
/// leader, in the leader's term.
pub proof fn leader_is_followed(n: NodeView, req: AppendRequestView, now: Nanos, timeout: Nanos)
    requires
        req.term >= n.state.current_term,
    ensures
        ({
            let after = n.append_requested(req, now, timeout).0;
            &&& after.role == Role::Follower
            &&& after.current_leader == Some(req.leader_id)
            &&& after.state.current_term == req.term
            &&& after.last_heartbeat == now
        }),
{
}

// ─── Accepting entries ───────────────────────────────────────────────────────

/// `l` with one entry of a request, every write having succeeded: an entry that is
/// there already is passed over, another one in its place is cut off first.
pub open spec fn absorbed_one(l: RaftLogView, e: LogEntryView) -> RaftLogView {
    if l.log.term_at(e.index) == Some(e.term) {
        l
    } else if l.log.term_at(e.index) is Some {
        l.truncated(e.index, OutcomeView::Done).appended(e.term, e.data, OutcomeView::Done)
    } else {
        l.appended(e.term, e.data, OutcomeView::Done)
    }
}

/// `l` with the entries from position `at` on, every write having succeeded.
pub open spec fn absorbed(l: RaftLogView, entries: Seq<LogEntryView>, at: int) -> RaftLogView
    decreases entries.len() - at,
{
    if !(0 <= at < entries.len()) {
        l
    } else {
        absorbed(absorbed_one(l, entries[at]), entries, at + 1)
    }
}

/// The node at the end of `job`, if every write succeeds.
pub open spec fn outcome(n: NodeView, job: JobView) -> NodeView {
    let e = job.entries[job.at];
    let l = match job.stage {
        Stage::Check => absorbed(n.log, job.entries, job.at),
        Stage::Cut => absorbed(
            n.log.truncated(e.index, OutcomeView::Done).appended(
                e.term,
                e.data,
                OutcomeView::Done,
            ),
            job.entries,
            job.at + 1,
        ),
        Stage::Append => absorbed(
            n.log.appended(e.term, e.data, OutcomeView::Done),
            job.entries,
            job.at + 1,
        ),
    };
    NodeView { log: l, ..n }.caught_up(job.leader_commit)
}

/// How much of `job` is left to do.
pub open spec fn left_to_do(job: JobView) -> int {
    3 * (job.entries.len() - job.at) - match job.stage {
        Stage::Check => 0int,
        Stage::Cut => 1int,
        Stage::Append => 2int,
    }
}

proof fn lemma_absorbed_skips(l: RaftLogView, entries: Seq<LogEntryView>, at: int)
    requires
        0 <= at <= entries.len(),
    ensures
        at <= node::first_missing(l.log, entries, at) <= entries.len(),
        absorbed(l, entries, at) == absorbed(
            l,
            entries,
            node::first_missing(l.log, entries, at),
        ),
        node::first_missing(l.log, entries, at) < entries.len() ==> l.log.term_at(
            entries[node::first_missing(l.log, entries, at)].index,
        ) != Some(entries[node::first_missing(l.log, entries, at)].term),
    decreases entries.len() - at,
{
    if at < entries.len() && l.log.term_at(entries[at].index) == Some(entries[at].term) {
        lemma_absorbed_skips(l, entries, at + 1);
    }
}

/// However a request is cut into writes, every step leads to the same end: the
/// entries one after the other in the log, the commit index as far as the leader's,
/// and an acceptance. Every report of a success brings that end nearer.
pub proof fn steps_lead_to_the_outcome(n: NodeView, job: JobView)
    requires
        job.wf(),
    ensures
        match n.next_step(job) {
            (after, StepView::Reply(reply)) => {
                &&& after == outcome(n, job)
                &&& reply == n.acceptance()
            },
            (after, StepView::Write(next, _)) => {
                &&& after == n
                &&& next.wf()
                &&& next.stage != Stage::Check
                &&& outcome(n, next) == outcome(n, job)
                &&& left_to_do(next) <= left_to_do(job)
            },
        },
        job.stage != Stage::Check ==> {
            let (after, next) = n.write_reported(job, OutcomeView::Done);
            &&& next.wf()
            &&& outcome(after, next) == outcome(n, job)
            &&& left_to_do(next) < left_to_do(job)
        },
{
    if job.stage == Stage::Check {
        lemma_absorbed_skips(n.log, job.entries, job.at);
    }
}

/// The writes for `e` are not refused for want of space.
pub open spec fn has_space(l: RaftLogView, e: LogEntryView) -> bool {
    APPEND_OVERHEAD + e.data.len() <= l.wal.max_segment_bytes && TRUNCATE_LEN
        <= l.wal.max_segment_bytes
}

/// The entry at `index` of a contiguous log.
pub open spec fn entry_at(l: LogView, index: int) -> LogEntryView {
    l.entries[index - l.snapshot_index - 1]
}

/// `a` and `b` have the same entries up to `index`.
pub open spec fn same_up_to(a: LogView, b: LogView, index: int) -> bool {
    &&& a.snapshot_index == b.snapshot_index
    &&& a.snapshot_term == b.snapshot_term
    &&& index <= a.last_index()
    &&& index <= b.last_index()
    &&& forall|i: int|
        a.snapshot_index < i <= index ==> #[trigger] entry_at(a, i) == entry_at(b, i)
}

/// Cutting a contiguous log at one of its entries leaves those before it.
proof fn lemma_cut(l: RaftLogView, index: u64)
    requires
        recovery::contiguous(l.log),
        l.log.snapshot_index < index <= l.log.last_index(),
        TRUNCATE_LEN <= l.wal.max_segment_bytes,
    ensures
        l.truncated(index, OutcomeView::Done).log == (LogView {
            entries: l.log.entries.take(index - l.log.snapshot_index - 1),
            ..l.log
        }),
        l.truncated(index, OutcomeView::Done).wal.max_segment_bytes == l.wal.max_segment_bytes,
{
    assert(OutcomeView::Done.skip(2) == OutcomeView::Done);
}

proof fn lemma_absorbed_one(l: RaftLogView, e: LogEntryView)
    requires
        recovery::contiguous(l.log),
        l.log.snapshot_index < e.index <= l.log.last_index() + 1,
        has_space(l, e),
    ensures
        ({
            let after = absorbed_one(l, e);
            &&& recovery::contiguous(after.log)
            &&& same_up_to(after.log, l.log, e.index - 1)
            &&& e.index <= after.log.last_index()
            &&& entry_at(after.log, e.index as int) == e || (entry_at(after.log, e.index as int)
                == entry_at(l.log, e.index as int) && e.index <= l.log.last_index()
                && entry_at(l.log, e.index as int).term == e.term)
            &&& after.log.term_at(e.index) == Some(e.term)
            &&& after.wal.max_segment_bytes == l.wal.max_segment_bytes
            &&& l.log.term_at(e.index) == Some(e.term) ==> after == l
        }),
{
    let io = OutcomeView::Done;
    assert(io.skip(2) == io);
    if l.log.term_at(e.index) != Some(e.term) {
        let cut = if l.log.term_at(e.index) is Some {
            l.truncated(e.index, io)
        } else {
            l
        };
        if l.log.term_at(e.index) is Some {
            lemma_cut(l, e.index);
        }
        assert(cut.log.last_index() == e.index - 1);
        let done = cut.appended(e.term, e.data, io);
        assert(cut.append_result(e.data.len() as int, io) is Ok);
        assert(done.log.entries == cut.log.entries.push(cut.next_entry(e.term, e.data)));
        assert(cut.next_entry(e.term, e.data) == e);
        assert(recovery::contiguous(cut.log));
        assert(recovery::contiguous(done.log)) by {
            assert forall|i: int| 0 <= i < done.log.entries.len() implies (
            #[trigger] done.log.entries[i]).index == done.log.snapshot_index + 1 + i by {
                if i < cut.log.entries.len() {
                    assert(done.log.entries[i] == cut.log.entries[i]);
                }
            }
        }
        assert(entry_at(done.log, e.index as int) == e);
        assert forall|i: int| l.log.snapshot_index < i <= e.index - 1 implies #[trigger] entry_at(
            done.log,
            i,
        ) == entry_at(l.log, i) by {
            assert(done.log.entries[i - l.log.snapshot_index - 1] == cut.log.entries[i
                - l.log.snapshot_index - 1]);
        }
    }
}

/// An accepted request leaves its entries in the log: at each of their indices
/// stands the entry itself, or one of the same term that was there before. What
/// came before them is untouched, and the log has no gaps.
pub proof fn accepted_entries_are_in_the_log(
    l: RaftLogView,
    entries: Seq<LogEntryView>,
    prev: int,
)
    requires
        recovery::contiguous(l.log),
        l.log.snapshot_index <= prev <= l.log.last_index(),
        forall|i: int|
            0 <= i < entries.len() ==> {
                &&& (#[trigger] entries[i]).index == prev + 1 + i
                &&& has_space(l, entries[i])
            },
    ensures
        ({
            let after = absorbed(l, entries, 0).log;
            &&& recovery::contiguous(after)
            &&& same_up_to(after, l.log, prev)
            &&& prev + entries.len() <= after.last_index()
            &&& forall|i: int|
                0 <= i < entries.len() ==> {
                    let index = (#[trigger] entries[i]).index;
                    &&& after.term_at(index) == Some(entries[i].term)
                    &&& {
                        ||| entry_at(after, index as int) == entries[i]
                        ||| {
                            &&& index <= l.log.last_index()
                            &&& entry_at(after, index as int) == entry_at(l.log, index as int)
                        }
                    }
                }
        }),
{
    lemma_accepted(l, l, entries, prev, 0);
}

/// What holds in the middle of a request: `l` is the log before it, `m` the one
/// after the first `at` entries.
spec fn halfway(
    l: RaftLogView,
    m: RaftLogView,
    entries: Seq<LogEntryView>,
    prev: int,
    at: int,
) -> bool {
    &&& recovery::contiguous(m.log)
    &&& same_up_to(m.log, l.log, prev)
    &&& m.wal.max_segment_bytes == l.wal.max_segment_bytes
    &&& prev + at <= m.log.last_index()
    &&& forall|i: int|
        0 <= i < at ==> {
            let index = (#[trigger] entries[i]).index;
            &&& m.log.term_at(index) == Some(entries[i].term)
            &&& {
                ||| entry_at(m.log, index as int) == entries[i]
                ||| {
                    &&& index <= l.log.last_index()
                    &&& entry_at(m.log, index as int) == entry_at(l.log, index as int)
                }
            }
        }
    &&& tail_kept(l.log, m.log, prev + at)
}

/// Behind `index`, `b` is as `a` was, or it ends.
spec fn tail_kept(a: LogView, b: LogView, index: int) -> bool {
    &&& b.last_index() <= a.last_index() || b.last_index() <= index
    &&& forall|i: int|
        index < i <= b.last_index() ==> #[trigger] entry_at(b, i) == entry_at(a, i)
}

proof fn lemma_accepted(
    l: RaftLogView,
    m: RaftLogView,
    entries: Seq<LogEntryView>,
    prev: int,
    at: int,
)
    requires
        0 <= at <= entries.len(),
        recovery::contiguous(l.log),
        l.log.snapshot_index <= prev <= l.log.last_index(),
        forall|i: int|
            0 <= i < entries.len() ==> {
                &&& (#[trigger] entries[i]).index == prev + 1 + i
                &&& has_space(l, entries[i])
            },
        halfway(l, m, entries, prev, at),
    ensures
        halfway(l, absorbed(m, entries, at), entries, prev, entries.len() as int),
    decreases entries.len() - at,
{
    if at < entries.len() {
        let e = entries[at];
        lemma_absorbed_one(m, e);
        let after = absorbed_one(m, e);
        let index = e.index as int;
        assert(halfway(l, after, entries, prev, at + 1)) by {
            assert forall|i: int| 0 <= i < at + 1 implies {
                let index = (#[trigger] entries[i]).index;
                &&& after.log.term_at(index) == Some(entries[i].term)
                &&& {
                    ||| entry_at(after.log, index as int) == entries[i]
                    ||| {
                        &&& index <= l.log.last_index()
                        &&& entry_at(after.log, index as int) == entry_at(l.log, index as int)
                    }
                }
            } by {
                if i < at {
                    let j = entries[i].index;
                    assert(j == prev + 1 + i);
                    assert(entry_at(after.log, j as int) == entry_at(m.log, j as int));
                    assert(after.log.term_at(j) == Some(entry_at(after.log, j as int).term));
                    assert(m.log.term_at(j) == Some(entry_at(m.log, j as int).term));
                }
            }
            assert forall|i: int| l.log.snapshot_index < i <= prev implies #[trigger] entry_at(
                after.log,
                i,
            ) == entry_at(l.log, i) by {
                assert(entry_at(after.log, i) == entry_at(m.log, i));
            }
            // Only where the entry was there already does anything follow it.
            if after != m {
                lemma_absorbed_one_ends(m, e);
            }
            assert(tail_kept(l.log, after.log, prev + at + 1));
        }
        lemma_accepted(l, after, entries, prev, at + 1);
    }
}

/// An entry that had to be written is the last one of the log.
proof fn lemma_absorbed_one_ends(l: RaftLogView, e: LogEntryView)
    requires
        recovery::contiguous(l.log),
        l.log.snapshot_index < e.index <= l.log.last_index() + 1,
        has_space(l, e),
        absorbed_one(l, e) != l,
    ensures
        absorbed_one(l, e).log.last_index() == e.index,
{
    let io = OutcomeView::Done;
    assert(io.skip(2) == io);
    let cut = if l.log.term_at(e.index) is Some {
        l.truncated(e.index, io)
    } else {
        l
    };
    if l.log.term_at(e.index) is Some {
        lemma_cut(l, e.index);
    }
    assert(cut.log.last_index() == e.index - 1);
    assert(cut.append_result(e.data.len() as int, io) is Ok);
}

// ─── Replication ─────────────────────────────────────────────────────────────

/// Of a contiguous log, the entries up to an index are a prefix.
proof fn lemma_up_to(entries: Seq<LogEntryView>, base: int, index: u64)
    requires
        forall|i: int|
            0 <= i < entries.len() ==> (#[trigger] entries[i]).index == base + 1 + i,
        base <= index,
    ensures
        node::up_to(entries, index) == entries.take(
            if index >= base + entries.len() {
                entries.len() as int
            } else {
                index - base
            },
        ),
    decreases entries.len(),
{
    if entries.len() > 0 {
        let head = entries.drop_last();
        assert(entries[entries.len() - 1] == entries.last());
        assert forall|i: int| 0 <= i < head.len() implies (#[trigger] head[i]).index == base + 1
            + i by {
            assert(head[i] == entries[i]);
        }
        lemma_up_to(head, base, index);
        let keep = if index >= base + entries.len() {
            entries.len() as int
        } else {
            index - base
        };
        assert(node::up_to(entries, index) =~= entries.take(keep));
    } else {
        assert(entries.take(0) =~= Seq::<LogEntryView>::empty());
    }
}

/// The request that a leader builds for a peer holds the leader's own entries from
/// the peer's next index up to the one wanted, none where the peer is level already.
/// It names the entry before them with its term, and carries the leader's term, ID
/// and commit index.
pub proof fn request_holds_the_leaders_entries(n: NodeView, peer: Seq<char>, index: u64)
    requires
        recovery::contiguous(n.log.log),
        n.log.log.snapshot_index < n.next_for(peer, index) <= index + 1,
        index <= n.log.log.last_index(),
    ensures
        ({
            let next = n.next_for(peer, index);
            let r = n.request_for(peer, index);
            &&& r.prev_log_index == next - 1
            &&& r.prev_log_term == if next == 1 {
                0
            } else {
                n.log.log.term_at((next - 1) as u64)->Some_0
            }
            &&& next > 1 ==> n.log.log.term_at((next - 1) as u64) is Some
            &&& r.term == n.state.current_term
            &&& r.leader_id == n.id
            &&& r.leader_commit == n.commit_index
            &&& r.entries.len() == index - next + 1
            &&& forall|i: int|
                0 <= i < r.entries.len() ==> {
                    &&& #[trigger] r.entries[i] == entry_at(n.log.log, next + i)
                    &&& r.entries[i].index == next + i
                }
        }),
{
    let next = n.next_for(peer, index);
    let l = n.log.log;
    let tail = l.from_index(next);
    assert(tail =~= l.entries.skip(next - l.snapshot_index - 1));
    assert forall|i: int| 0 <= i < tail.len() implies (#[trigger] tail[i]).index == next - 1 + 1
        + i by {
        assert(tail[i] == l.entries[next - l.snapshot_index - 1 + i]);
    }
    lemma_up_to(tail, next - 1, index);
    let r = n.request_for(peer, index);
    assert(r.entries == tail.take(index - next + 1));
    assert forall|i: int| 0 <= i < r.entries.len() implies #[trigger] r.entries[i] == entry_at(
        l,
        next + i,
    ) && r.entries[i].index == next + i by {
        assert(r.entries[i] == tail[i]);
    }
}

/// A follower that has the entry before the new ones, and takes a leader's request
/// to its end, has the same terms as the leader at every index that was sent. Where
/// entries of one index and term are one and the same, as between logs of one
/// cluster they are, it has the same entries.
pub proof fn replication_brings_the_follower_in_line(
    leader: NodeView,
    peer: Seq<char>,
    index: u64,
    follower: RaftLogView,
)
    requires
        recovery::contiguous(leader.log.log),
        recovery::contiguous(follower.log),
        leader.log.log.snapshot_index < leader.next_for(peer, index) <= index + 1,
        index <= leader.log.log.last_index(),
        follower.log.snapshot_index < leader.next_for(peer, index),
        leader.next_for(peer, index) <= follower.log.last_index() + 1,
        forall|i: int|
            0 <= i < leader.request_for(peer, index).entries.len() ==> has_space(
                follower,
                #[trigger] leader.request_for(peer, index).entries[i],
            ),
    ensures
        ({
            let next = leader.next_for(peer, index);
            let after = absorbed(follower, leader.request_for(peer, index).entries, 0).log;
            &&& recovery::contiguous(after)
            &&& index <= after.last_index()
            &&& forall|i: u64|
                next <= i <= index ==> #[trigger] after.term_at(i) == leader.log.log.term_at(i)
            &&& (forall|i: int|
                next <= i <= index && i <= follower.log.last_index() && entry_at(
                    follower.log,
                    i,
                ).term == entry_at(leader.log.log, i).term ==> #[trigger] entry_at(
                    follower.log,
                    i,
                ) == entry_at(leader.log.log, i)) ==> forall|i: int|
                next <= i <= index ==> #[trigger] entry_at(after, i) == entry_at(
                    leader.log.log,
                    i,
                )
        }),
{
    let next = leader.next_for(peer, index);
    let l = leader.log.log;
    let entries = leader.request_for(peer, index).entries;
    request_holds_the_leaders_entries(leader, peer, index);
    accepted_entries_are_in_the_log(follower, entries, next - 1);
    let after = absorbed(follower, entries, 0).log;
    assert forall|i: u64| next <= i <= index implies #[trigger] after.term_at(i) == l.term_at(
        i,
    ) by {
        let e = entries[i - next];
        assert(e == entry_at(l, i as int));
        assert(e.index == i);
    }
    if forall|i: int|
        next <= i <= index && i <= follower.log.last_index() && entry_at(follower.log, i).term
            == entry_at(l, i).term ==> #[trigger] entry_at(follower.log, i) == entry_at(l, i) {
        assert forall|i: int| next <= i <= index implies #[trigger] entry_at(after, i) == entry_at(
            l,
            i,
        ) by {
            let e = entries[i - next];
            assert(e == entry_at(l, i));
            assert(e.index == i);
            if entry_at(after, i) != e {
                assert(entry_at(after, i) == entry_at(follower.log, i));
                assert(after.term_at(e.index) == Some(entry_at(after, i).term));
            }
        }
    }
}

/// A refusal for want of a matching entry tells the leader where to go on from: an
/// index that is not 0 and not beyond the one that did not match, so the leader
/// always moves back.
pub proof fn a_refusal_moves_the_leader_back(n: NodeView, req: AppendRequestView)
    requires
        recovery::contiguous(n.log.log),
        n.log.log.last_index() < u64::MAX,
        n.log.log.snapshot_index <= req.prev_log_index,
        n.mismatch(req) is Some,
    ensures
        0 < n.mismatch(req)->Some_0.conflict_index <= req.prev_log_index,
        !n.mismatch(req)->Some_0.success,
{
    let l = n.log.log;
    match l.term_at(req.prev_log_index) {
        None => {},
        Some(t) => {
            if !(t == l.snapshot_term && l.snapshot_index > 0) {
                let at = req.prev_log_index - l.snapshot_index - 1;
                lemma_first_of_term(l.entries, t, at, l.snapshot_index as int);
            }
        },
    }
}

proof fn lemma_first_of_term(entries: Seq<LogEntryView>, term: u64, at: int, base: int)
    requires
        0 <= at < entries.len(),
        entries[at].term == term,
        base >= 0,
        forall|i: int|
            0 <= i < entries.len() ==> (#[trigger] entries[i]).index == base + 1 + i,
    ensures
        log::first_of_term(entries, term) matches Some(index) && 0 < index <= entries[at].index,
    decreases entries.len(),
{
    if entries[0].term != term {
        let rest = entries.drop_first();
        assert forall|i: int| 0 <= i < rest.len() implies (#[trigger] rest[i]).index == base + 1
            + 1 + i by {
            assert(rest[i] == entries[i + 1]);
        }
        assert(rest[at - 1] == entries[at]);
        lemma_first_of_term(rest, term, at - 1, base + 1);
    }
}

// ─── Writing ─────────────────────────────────────────────────────────────────

/// A node that does not lead refuses a write, names the leader that it knows of,
/// and is left as it was.
pub proof fn followers_refuse_writes(n: NodeView, data: Seq<u8>, io: OutcomeView)
    requires
        n.role != Role::Leader,
    ensures
        n.begin_result(data.len() as int, io) == Err::<u64, RaftErrorView>(
            RaftErrorView::NotLeader { hint: n.current_leader },
        ),
        n.write_begun(data, io) == n,
{
}

/// A write that the leader took is the last entry of its log, in its own term.
pub proof fn a_write_is_in_the_leaders_log(n: NodeView, data: Seq<u8>, io: OutcomeView)
    requires
        n.role == Role::Leader,
        recovery::contiguous(n.log.log),
        n.log.log.last_index() < u64::MAX,
        n.begin_result(data.len() as int, io) is Ok,
    ensures
        ({
            let index = n.begin_result(data.len() as int, io)->Ok_0;
            let after = n.write_begun(data, io).log.log;
            &&& index == n.log.log.last_index() + 1
            &&& index == after.last_index()
            &&& entry_at(after, index as int) == (LogEntryView {
                term: n.state.current_term,
                index,
                data,
            })
            &&& same_up_to(after, n.log.log, index - 1)
        }),
{
    let after = n.write_begun(data, io).log.log;
    assert forall|i: int|
        n.log.log.snapshot_index < i <= n.log.log.last_index() implies #[trigger] entry_at(
        after,
        i,
    ) == entry_at(n.log.log, i) by {}
}

/// How many of the answers are acknowledgements.
pub open spec fn successes(results: Seq<Option<AppendEntriesResponse>>) -> int
    decreases results.len(),
{
    if results.len() == 0 {
        0
    } else {
        successes(results.drop_last()) + if results.last() matches Some(r) && r.success {
            1int
        } else {
            0int
        }
    }
}

proof fn lemma_acks(n: NodeView, results: Seq<Option<AppendEntriesResponse>>, index: u64)
    ensures
        1 <= n.tally(results, index).acks <= 1 + successes(results),
        n.tally(results, index).higher_term is None ==> n.tally(results, index).acks == 1
            + successes(results),
    decreases results.len(),
{
    if results.len() > 0 {
        lemma_acks(n, results.drop_last(), index);
    }
}

/// A write is committed just if a majority has it: it is reported as such only if
/// this node and the peers that acknowledged it are one, and, where no peer knows of
/// a higher term, always then. Otherwise the commit index stays.
pub proof fn a_commit_has_a_majority(
    n: NodeView,
    results: Seq<Option<AppendEntriesResponse>>,
    index: u64,
    now: Nanos,
    timeout: Nanos,
)
    ensures
        ({
            let after = n.write_closed(results, index, now, timeout);
            let result = n.write_result(results, index);
            &&& result == Ok::<u64, RaftErrorView>(index) ==> {
                &&& 1 + successes(results) >= n.quorum()
                &&& after.commit_index == index
            }
            &&& result != Ok::<u64, RaftErrorView>(index) ==> {
                &&& result == Err::<u64, RaftErrorView>(RaftErrorView::QuorumNotReached)
                &&& after.commit_index == n.commit_index
            }
            &&& n.tally(results, index).higher_term is None ==> (result is Ok <==> 1 + successes(
                results,
            ) >= n.quorum())
            &&& after.log == n.log
        }),
{
    lemma_acks(n, results, index);
}

/// A follower's commit index goes no further than its log and the leader's commit
/// index, and, as long as what was committed is in the log, never back.
pub proof fn commit_index_follows_the_leader(n: NodeView, leader_commit: u64)
    requires
        n.log.log.last_index() <= u64::MAX,
    ensures
        ({
            let after = n.caught_up(leader_commit);
            &&& after.commit_index == n.commit_index || (after.commit_index <= leader_commit
                && after.commit_index <= n.log.log.last_index())
            &&& n.commit_index <= n.log.log.last_index() ==> after.commit_index >= n.commit_index
            &&& leader_commit <= n.log.log.last_index() ==> after.commit_index >= leader_commit
        }),
{
}

} // verus!
