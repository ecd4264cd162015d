//! What holds of the votes of a [`RaftNode`](crate::wal_replication::raft::node::RaftNode)
//! over its whole life, whatever it is asked or told and however often it is started
//! again: in each term it votes for one candidate at most. With that no term has two
//! leaders. That a restart finds the term and the vote is stated in
//! [`persistent_state`](crate::wal_replication::persistent_state); where they could not
//! be written, a restart forgets them.
use vstd::prelude::*;

use crate::storage::OutcomeView;
use crate::wal_replication::config;
use crate::wal_replication::config::Nanos;
use crate::wal_replication::raft::consensus;
use crate::wal_replication::raft::log::RaftLogView;
use crate::wal_replication::raft::message::{
    AppendEntriesResponse, AppendRequestView, RequestVoteResponse, VoteRequestView,
};
use crate::wal_replication::raft::node::{JobView, NodeView, Role};

verus! {

// ─── Runs ────────────────────────────────────────────────────────────────────

/// Something that comes to a node. The times and timeouts are those that the node is
/// handed with it.
pub enum Event {
    /// A request of a leader.
    Append(AppendRequestView, Nanos, Nanos),
    /// The next step of such a request.
    Step(JobView),
    /// The outcome of a write that such a step asked for.
    Written(JobView, OutcomeView),
    /// A request for the node's vote.
    Vote(VoteRequestView, Nanos),
    /// The election timeout: the node asks for votes itself.
    Campaign(Nanos, Nanos),
    /// The answers to its own request.
    Votes(Seq<Option<RequestVoteResponse>>, Nanos, Nanos),
    /// A write of a client, and the outcome of putting it into the log.
    Write(Seq<u8>, OutcomeView),
    /// The answers of the peers to the entry at this index.
    Acks(Seq<Option<AppendEntriesResponse>>, u64, Nanos, Nanos),
    /// The answers of the peers to a heartbeat.
    Heartbeats(Seq<Option<AppendEntriesResponse>>, Nanos, Nanos),
    /// The node stops with its term and its vote persisted, and is started again with
    /// those and the log that it then finds.
    Restart(RaftLogView, Nanos, Nanos),
}

/// `event` can come to `n`: there is a term left for it.
pub open spec fn possible(n: NodeView, event: Event) -> bool {
    event is Campaign ==> n.state.current_term < u64::MAX
}

/// The node `n` after `event`.
#[verifier::opaque]
pub open spec fn stepped(n: NodeView, event: Event) -> NodeView {
    match event {
        Event::Append(req, now, timeout) => n.append_requested(req, now, timeout).0,
        Event::Step(job) => n.next_step(job).0,
        Event::Written(job, io) => n.write_reported(job, io).0,
        Event::Vote(req, now) => n.vote_requested(req, now).0,
        Event::Campaign(now, timeout) => n.campaigning(now, timeout),
        Event::Votes(results, now, timeout) => n.election_closed(results, now, timeout),
        Event::Write(data, io) => n.write_begun(data, io),
        Event::Acks(results, index, now, timeout) => n.write_closed(results, index, now, timeout),
        Event::Heartbeats(results, now, timeout) => n.heartbeats_answered(results, now, timeout),
        Event::Restart(log, now, timeout) => NodeView {
            log,
            role: Role::Follower,
            commit_index: 0,
            current_leader: None,
            next_index: Map::empty(),
            match_index: Map::empty(),
            last_heartbeat: now,
            election_timeout: timeout,
            ..n
        },
    }
}

/// The node after all of `events`, in order.
pub open spec fn run(n: NodeView, events: Seq<Event>) -> NodeView
    decreases events.len(),
{
    if events.len() == 0 {
        n
    } else {
        stepped(run(n, events.drop_last()), events.last())
    }
}

/// Each of `events` can come where the ones before it did.
pub open spec fn all_possible(n: NodeView, events: Seq<Event>) -> bool {
    forall|i: int|
        0 <= i < events.len() ==> possible(run(n, events.take(i)), #[trigger] events[i])
}

/// At position `i` of `events` the node gives its vote of the term `term` to
/// `candidate`: it is asked and grants it, or it asks for votes itself.
pub open spec fn votes_at(
    n: NodeView,
    events: Seq<Event>,
    i: int,
    term: u64,
    candidate: Seq<char>,
) -> bool {
    let before = run(n, events.take(i));
    &&& 0 <= i < events.len()
    &&& match events[i] {
        Event::Vote(req, now) => {
            &&& before.vote_requested(req, now).1.vote_granted
            &&& req.term == term
            &&& req.candidate_id == candidate
        },
        Event::Campaign(_, _) => {
            &&& before.state.current_term + 1 == term
            &&& before.id == candidate
        },
        _ => false,
    }
}

/// Somewhere in `events` the node gives its vote of the term `term` to `candidate`.
pub open spec fn voted(
    n: NodeView,
    events: Seq<Event>,
    term: u64,
    candidate: Seq<char>,
) -> bool {
    exists|i: int| #[trigger] votes_at(n, events, i, term, candidate)
}

// ─── Laws ────────────────────────────────────────────────────────────────────

proof fn lemma_next(n: NodeView, events: Seq<Event>, i: int)
    requires
        0 <= i < events.len(),
    ensures
        run(n, events.take(i + 1)) == stepped(run(n, events.take(i)), events[i]),
{
    assert(events.take(i + 1).drop_last() =~= events.take(i));
    assert(events.take(i + 1).last() == events[i]);
}

/// Whatever comes to a node, its term never falls, and within a term it never takes
/// back or changes a vote.
pub proof fn every_event_keeps_the_vote(n: NodeView, event: Event)
    requires
        possible(n, event),
    ensures
        consensus::term_kept_or_raised(n, stepped(n, event)),
{
    reveal(stepped);
    let none_voted = Seq::<Option<RequestVoteResponse>>::empty();
    let none_acked = Seq::<Option<AppendEntriesResponse>>::empty();
    let append = AppendRequestView {
        term: 0,
        leader_id: Seq::empty(),
        prev_log_index: 0,
        prev_log_term: 0,
        entries: Seq::empty(),
        leader_commit: 0,
    };
    let vote = n.vote_request();
    match event {
        Event::Append(req, now, timeout) => consensus::terms_grow_and_votes_stand(
            n,
            req,
            vote,
            none_voted,
            none_acked,
            0,
            now,
            timeout,
        ),
        Event::Vote(req, now) => consensus::terms_grow_and_votes_stand(
            n,
            append,
            req,
            none_voted,
            none_acked,
            0,
            now,
            0,
        ),
        Event::Campaign(now, timeout) => consensus::terms_grow_and_votes_stand(
            n,
            append,
            vote,
            none_voted,
            none_acked,
            0,
            now,
            timeout,
        ),
        Event::Votes(results, now, timeout) => consensus::terms_grow_and_votes_stand(
            n,
            append,
            vote,
            results,
            none_acked,
            0,
            now,
            timeout,
        ),
        Event::Acks(results, index, now, timeout) => consensus::terms_grow_and_votes_stand(
            n,
            append,
            vote,
            none_voted,
            results,
            index,
            now,
            timeout,
        ),
        Event::Heartbeats(results, now, timeout) => consensus::terms_grow_and_votes_stand(
            n,
            append,
            vote,
            none_voted,
            results,
            0,
            now,
            timeout,
        ),
        _ => {},
    }
}

/// A vote is recorded when it is given.
proof fn lemma_vote_is_recorded(
    n: NodeView,
    events: Seq<Event>,
    i: int,
    term: u64,
    candidate: Seq<char>,
)
    requires
        all_possible(n, events),
        votes_at(n, events, i, term, candidate),
    ensures
        run(n, events.take(i + 1)).state.current_term == term,
        run(n, events.take(i + 1)).state.voted_for == Some(candidate),
{
    reveal(stepped);
    lemma_next(n, events, i);
    assert(possible(run(n, events.take(i)), events[i]));
}

/// A vote that was given stands for the rest of its term.
proof fn lemma_vote_stands(
    n: NodeView,
    events: Seq<Event>,
    i: int,
    j: int,
    term: u64,
    candidate: Seq<char>,
)
    requires
        all_possible(n, events),
        votes_at(n, events, i, term, candidate),
        i < j <= events.len(),
    ensures
        ({
            let state = run(n, events.take(j)).state;
            ||| state.current_term > term
            ||| state.current_term == term && state.voted_for == Some(candidate)
        }),
    decreases j,
{
    if j > i + 1 {
        lemma_next(n, events, j - 1);
        lemma_vote_stands(n, events, i, j - 1, term, candidate);
        every_event_keeps_the_vote(run(n, events.take(j - 1)), events[j - 1]);
    } else {
        lemma_vote_is_recorded(n, events, i, term, candidate);
    }
}

/// In any run a node votes for one candidate at most in each term.
pub proof fn one_vote_per_term(
    n: NodeView,
    events: Seq<Event>,
    i: int,
    j: int,
    term: u64,
    a: Seq<char>,
    b: Seq<char>,
)
    requires
        all_possible(n, events),
        votes_at(n, events, i, term, a),
        votes_at(n, events, j, term, b),
    ensures
        a == b,
{
    if i < j {
        lemma_vote_stands(n, events, i, j, term, a);
    } else if j < i {
        lemma_vote_stands(n, events, j, i, term, b);
    }
}

/// In any run the term of a node never falls.
pub proof fn terms_never_fall(n: NodeView, events: Seq<Event>, i: int, j: int)
    requires
        all_possible(n, events),
        0 <= i <= j <= events.len(),
    ensures
        run(n, events.take(i)).state.current_term <= run(n, events.take(j)).state.current_term,
    decreases j,
{
    if i < j {
        terms_never_fall(n, events, i, j - 1);
        lemma_next(n, events, j - 1);
        every_event_keeps_the_vote(run(n, events.take(j - 1)), events[j - 1]);
    }
}

/// However the members of a cluster run, no two candidates get the votes of a majority
/// in the same term: there is at most one leader per term.
pub proof fn no_term_has_two_leaders<A>(
    members: Set<A>,
    nodes: Map<A, NodeView>,
    runs: Map<A, Seq<Event>>,
    term: u64,
    a: Seq<char>,
    b: Seq<char>,
)
    requires
        members.finite(),
        forall|m: A| members.contains(m) ==> all_possible(nodes[m], #[trigger] runs[m]),
        members.filter(|m: A| voted(nodes[m], runs[m], term, a)).len() >= config::majority(
            members.len() as int,
        ),
        members.filter(|m: A| voted(nodes[m], runs[m], term, b)).len() >= config::majority(
            members.len() as int,
        ),
    ensures
        a == b,
{
    let for_a = members.filter(|m: A| voted(nodes[m], runs[m], term, a));
    let for_b = members.filter(|m: A| voted(nodes[m], runs[m], term, b));
    config::two_quorums_share_a_member(members, for_a, for_b);
    let m = choose|m: A| for_a.contains(m) && for_b.contains(m);
    let i = choose|i: int| #[trigger] votes_at(nodes[m], runs[m], i, term, a);
    let j = choose|j: int| #[trigger] votes_at(nodes[m], runs[m], j, term, b);
    one_vote_per_term(nodes[m], runs[m], i, j, term, a, b);
}

} // verus!
