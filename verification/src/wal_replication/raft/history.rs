//! What holds of a [`RaftLog`](crate::wal_replication::raft::log::RaftLog) after any
//! number of calls, failures, crashes and restarts: every mutation that was reported as
//! done is in the records of its WAL, and a restart gives the log back as it is.
use vstd::prelude::*;

use crate::storage;
use crate::storage::{Disk, FaultView, FileOp, FilesView, OutcomeView};
use crate::wal_core::durability;
use crate::wal_core::entry::HEADER_SIZE;
use crate::wal_core::history;
use crate::wal_core::segment;
use crate::wal_core::wal;
use crate::wal_core::wal::WalView;
use crate::wal_replication::error::RaftErrorView;
use crate::wal_replication::raft::log;
use crate::wal_replication::raft::log::{
    LogEntryView, RaftLogView, APPEND_OVERHEAD, SNAPSHOT_LEN, TRUNCATE_LEN,
};
use crate::wal_replication::raft::recovery;

verus! {

// ─── Runs ────────────────────────────────────────────────────────────────────

/// Something that is done with an open log.
pub enum Work {
    /// Append an entry of this term.
    Append(u64, Seq<u8>),
    /// Remove the entries from this index on.
    Truncate(u64),
    /// Compact the log, or install a snapshot, up to this index and of this term,
    /// with these files as read from the disk.
    Snapshot(u64, u64, FilesView),
}

/// One step in the life of a log.
pub enum Step {
    /// All that the work asks of the disk succeeds.
    Do(Work),
    /// The record of the work fails to be written, at this position of what is asked
    /// of the disk and with this fault; that leaves this disk, and the process goes on.
    Fail(Work, int, FaultView, Disk),
    /// The process dies somewhere in the work and leaves this disk, from which the
    /// log is opened again; the files are what the directory holds before that, and
    /// after it.
    Crash(Work, Disk, FilesView, FilesView),
    /// The process stops, and the log is opened again.
    Reopen(FilesView, FilesView),
}

/// The work can be done: no counter runs over, its record fits into a segment, the
/// files it takes are those on the disk, and where it drops segments they are the ones
/// that are there.
pub open spec fn feasible(l: RaftLogView, disk: Disk, work: Work) -> bool {
    match work {
        Work::Append(_, data) => {
            &&& l.can_append(data.len() as int)
            &&& 17 + data.len() <= u32::MAX
            &&& APPEND_OVERHEAD + data.len() <= l.wal.max_segment_bytes
        },
        Work::Truncate(_) => {
            &&& l.log.last_index() <= u64::MAX
            &&& l.wal.can_append(TRUNCATE_LEN as int)
            &&& TRUNCATE_LEN <= l.wal.max_segment_bytes
        },
        Work::Snapshot(index, _, files) => index > l.log.snapshot_index ==> {
            &&& l.wal.can_append(SNAPSHOT_LEN as int)
            &&& SNAPSHOT_LEN <= l.wal.max_segment_bytes
            &&& storage::read_from_disk(files, disk)
            &&& durability::laid_out(l.wal, disk)
        },
    }
}

/// What the work asks of the disk.
pub open spec fn work_ops(l: RaftLogView, work: Work) -> Seq<FileOp> {
    match work {
        Work::Append(term, data) => l.append_ops(term, data),
        Work::Truncate(from) => l.truncate_ops(from),
        Work::Snapshot(index, term, files) => l.snapshot_ops(index, term, files),
    }
}

/// The record that the work writes, before anything else.
pub open spec fn record_of(l: RaftLogView, work: Work) -> Seq<u8> {
    match work {
        Work::Append(term, data) => log::append_record(l.next_entry(term, data)),
        Work::Truncate(from) => log::truncate_record(l.cut_point(from)),
        Work::Snapshot(index, term, _) => log::snapshot_record(index, term),
    }
}

/// The log after work with the outcome `io`.
pub open spec fn left_by(l: RaftLogView, work: Work, io: OutcomeView) -> RaftLogView {
    match work {
        Work::Append(term, data) => l.appended(term, data, io),
        Work::Truncate(from) => l.truncated(from, io),
        Work::Snapshot(index, term, files) => l.compacted(index, term, files, io),
    }
}

/// The log after work that succeeded.
pub open spec fn worked(l: RaftLogView, work: Work) -> RaftLogView {
    left_by(l, work, OutcomeView::Done)
}

/// What opening the log again gives, from what its directory holds before and after.
pub open spec fn reopened(l: RaftLogView, files: FilesView, reread: FilesView) -> Result<
    RaftLogView,
    RaftErrorView,
> {
    log::open_result(
        l.wal.dir,
        l.wal.max_segment_bytes,
        l.wal.sync_writes,
        files,
        OutcomeView::Done,
        reread,
    )
}

/// `files` and `reread` are what the directory of `l` holds before and after the log
/// is opened from `disk`.
pub open spec fn read_around_opening(
    l: RaftLogView,
    disk: Disk,
    files: FilesView,
    reread: FilesView,
) -> bool {
    &&& storage::read_from_disk(files, disk)
    &&& storage::read_from_disk(
        reread,
        storage::all_applied(disk, wal::open_ops(l.wal.dir, files)),
    )
}

/// `step` can be taken from `l` on `disk`. A snapshot that fails when its record is
/// written is another matter: see [`recovery::failed_snapshot_is_found_at_a_restart`].
/// So is a record that was written but could not be settled: see
/// [`history::unsettled_entry_is_on_disk`].
pub open spec fn possible(l: RaftLogView, disk: Disk, step: Step) -> bool {
    match step {
        Step::Do(work) => feasible(l, disk, work),
        Step::Fail(work, at, _, after) => {
            &&& feasible(l, disk, work)
            &&& storage::failed_at(disk, work_ops(l, work), at, after)
            &&& at < l.wal.append_ops(record_of(l, work)).len()
            &&& !history::settling(work_ops(l, work), at)
        },
        Step::Crash(work, after, files, reread) => {
            &&& feasible(l, disk, work)
            &&& storage::crashed(disk, work_ops(l, work), after)
            &&& read_around_opening(l, after, files, reread)
        },
        Step::Reopen(files, reread) => read_around_opening(l, disk, files, reread),
    }
}

/// The log and the disk after `step`.
pub open spec fn stepped(l: RaftLogView, disk: Disk, step: Step) -> (RaftLogView, Disk) {
    match step {
        Step::Do(work) => (worked(l, work), storage::all_applied(disk, work_ops(l, work))),
        Step::Fail(work, at, fault, after) => (
            left_by(l, work, OutcomeView::Failed(at, fault)),
            after,
        ),
        Step::Crash(_, after, files, reread) => (
            reopened(l, files, reread)->Ok_0,
            storage::all_applied(after, wal::open_ops(l.wal.dir, files)),
        ),
        Step::Reopen(files, reread) => (
            reopened(l, files, reread)->Ok_0,
            storage::all_applied(disk, wal::open_ops(l.wal.dir, files)),
        ),
    }
}

/// The log and the disk after all of `steps`, in order.
pub open spec fn run(l: RaftLogView, disk: Disk, steps: Seq<Step>) -> (RaftLogView, Disk)
    decreases steps.len(),
{
    if steps.len() == 0 {
        (l, disk)
    } else {
        let (before, left) = run(l, disk, steps.drop_last());
        stepped(before, left, steps.last())
    }
}

/// Each of `steps` can be taken where the ones before it were.
pub open spec fn all_possible(l: RaftLogView, disk: Disk, steps: Seq<Step>) -> bool
    decreases steps.len(),
{
    steps.len() > 0 ==> {
        let (before, left) = run(l, disk, steps.drop_last());
        &&& all_possible(l, disk, steps.drop_last())
        &&& possible(before, left, steps.last())
    }
}

// ─── Laws ────────────────────────────────────────────────────────────────────

/// Whatever is done with a log, what a restart would give is what it is, and every
/// entry stands at its index.
pub proof fn work_is_durable(l: RaftLogView, disk: Disk, work: Work)
    requires
        recovery::durable(l, disk),
        recovery::contiguous(l.log),
        feasible(l, disk, work),
    ensures
        recovery::durable(worked(l, work), storage::all_applied(disk, work_ops(l, work))),
        recovery::contiguous(worked(l, work).log),
{
    match work {
        Work::Append(term, data) => {
            recovery::appended_entry_is_durable(l, disk, term, data);
        },
        Work::Truncate(from) => {
            recovery::truncation_is_durable(l, disk, from);
        },
        Work::Snapshot(index, term, files) => {
            if index > l.log.snapshot_index {
                recovery::snapshot_is_durable(l, disk, index, term, files);
            }
            recovery::compacting_keeps_later_entries(l, index, term, files, OutcomeView::Done);
        },
    }
}

/// Wherever in the work the process dies, the log opens again as it was before the
/// work or as it is after it, and is durable.
pub proof fn crash_leaves_the_log_before_or_after(
    l: RaftLogView,
    disk: Disk,
    work: Work,
    after: Disk,
    files: FilesView,
    reread: FilesView,
)
    requires
        recovery::durable(l, disk),
        recovery::contiguous(l.log),
        possible(l, disk, Step::Crash(work, after, files, reread)),
    ensures
        recovery::recovered_as(l, after, files, reread, l.log, worked(l, work).log),
        recovery::contiguous(reopened(l, files, reread)->Ok_0.log),
{
    work_is_durable(l, disk, work);
    match work {
        Work::Append(term, data) => {
            recovery::log_survives_a_crash_in_append(l, disk, term, data, after, files, reread);
        },
        Work::Truncate(from) => {
            recovery::truncation_is_durable(l, disk, from);
            recovery::log_survives_a_crash_in_truncation(l, disk, from, after, files, reread);
        },
        Work::Snapshot(index, term, shown) => {
            lemma_crash_in_snapshot(l, disk, index, term, shown, after, files, reread);
        },
    }
}

proof fn lemma_crash_in_snapshot(
    l: RaftLogView,
    disk: Disk,
    index: u64,
    term: u64,
    shown: FilesView,
    after: Disk,
    files: FilesView,
    reread: FilesView,
)
    requires
        recovery::durable(l, disk),
        recovery::contiguous(l.log),
        feasible(l, disk, Work::Snapshot(index, term, shown)),
        storage::crashed(disk, l.snapshot_ops(index, term, shown), after),
        read_around_opening(l, after, files, reread),
    ensures
        recovery::recovered_as(
            l,
            after,
            files,
            reread,
            l.log,
            l.compacted(index, term, shown, OutcomeView::Done).log,
        ),
{
    if index > l.log.snapshot_index {
        recovery::snapshot_is_durable(l, disk, index, term, shown);
        recovery::log_survives_a_crash_in_snapshot(
            l,
            disk,
            index,
            term,
            shown,
            after,
            files,
            reread,
        );
    } else {
        assert(after == disk);
        recovery::reopening_restores_the_log(l, disk, files, reread);
    }
}

/// `disk` holds the WAL `again`, which is that of `l` but for the list of sealed
/// segments, and its records replay to the log.
pub open spec fn held(l: RaftLogView, disk: Disk, again: WalView) -> bool {
    &&& history::backed(l.wal, disk, again)
    &&& recovery::durable(RaftLogView { wal: again, ..l }, disk)
}

/// Work asks the same of a log and of what its disk holds, and does the same to both.
proof fn lemma_alike(l: RaftLogView, disk: Disk, again: WalView, work: Work)
    requires
        held(l, disk, again),
        feasible(l, disk, work),
    ensures
        ({
            let k = RaftLogView { wal: again, ..l };
            let done = worked(l, work);
            &&& feasible(k, disk, work)
            &&& work_ops(k, work) == work_ops(l, work)
            &&& worked(k, work).log == done.log
            &&& worked(k, work).wal == (WalView { sealed: worked(k, work).wal.sealed, ..done.wal })
        }),
{
    let k = RaftLogView { wal: again, ..l };
    match work {
        Work::Append(term, data) => {
            assert(k.next_entry(term, data) == l.next_entry(term, data));
        },
        Work::Truncate(from) => {
            assert(k.cut_point(from) == l.cut_point(from));
        },
        Work::Snapshot(index, _, _) => {
            if index > l.log.snapshot_index {
                durability::lemma_layout_is_unique(l.wal, again, disk);
            }
        },
    }
}

/// Work whose record could not be written is reported as failed and changes nothing:
/// the log is as it was, and so are the records on disk.
pub proof fn failed_record_changes_nothing(
    l: RaftLogView,
    disk: Disk,
    again: WalView,
    work: Work,
    at: int,
    fault: FaultView,
    after: Disk,
) -> (later: WalView)
    requires
        held(l, disk, again),
        possible(l, disk, Step::Fail(work, at, fault, after)),
    ensures
        left_by(l, work, OutcomeView::Failed(at, fault)).log == l.log,
        left_by(l, work, OutcomeView::Failed(at, fault)).wal.dir == l.wal.dir,
        held(left_by(l, work, OutcomeView::Failed(at, fault)), after, later),
{
    let io = OutcomeView::Failed(at, fault);
    let record = record_of(l, work);
    let list = work_ops(l, work);
    let first = l.wal.append_ops(record);
    let e = match work {
        Work::Append(term, data) => l.next_entry(term, data),
        _ => LogEntryView { term: 0, index: 0, data: Seq::empty() },
    };
    match work {
        Work::Snapshot(index, term, files) => {
            log::lemma_record_lens(e, index, term);
            let rest = if l.wal.append_result(SNAPSHOT_LEN as int, OutcomeView::Done) is Err {
                Seq::<FileOp>::empty()
            } else {
                let marked = l.wal.appended(SNAPSHOT_LEN as int, OutcomeView::Done);
                marked.checkpoint.advance_ops(l.wal.next_sequence) + marked.truncate_ops(
                    log::needed_from(l, index, files),
                    files,
                )
            };
            assert(list =~= first + rest);
            storage::lemma_failed_concat(disk, first, rest, at, after);
        },
        Work::Truncate(from) => {
            log::lemma_record_lens(e, l.cut_point(from), 0);
        },
        Work::Append(_, _) => {
            log::lemma_record_lens(e, 0, 0);
        },
    }
    assert(history::possible(
        l.wal,
        disk,
        history::Step::Fail(history::Work::Append(record), at, fault, after),
    )) by {
        assert(list[at] == first[at]);
        if at > 0 {
            assert(list[at - 1] == first[at - 1]);
        }
    }
    let later = history::failed_append_adds_nothing(l.wal, disk, again, record, at, fault, after);
    assert(left_by(l, work, io).wal == l.wal.appended(HEADER_SIZE + record.len(), io));
    later
}

/// What a run keeps.
proof fn lemma_run(l: RaftLogView, disk: Disk, steps: Seq<Step>) -> (later: WalView)
    requires
        recovery::durable(l, disk),
        recovery::contiguous(l.log),
        all_possible(l, disk, steps),
    ensures
        ({
            let (after, left) = run(l, disk, steps);
            &&& held(after, left, later)
            &&& after.wal.dir == l.wal.dir
            &&& recovery::contiguous(after.log)
            &&& none_fails(steps) ==> later == after.wal
        }),
    decreases steps.len(),
{
    if steps.len() == 0 {
        l.wal
    } else {
        let head = steps.drop_last();
        let again = lemma_run(l, disk, head);
        let (before, left) = run(l, disk, head);
        let k = RaftLogView { wal: again, ..before };
        assert(steps[steps.len() - 1] == steps.last());
        if none_fails(steps) {
            assert forall|i: int| 0 <= i < head.len() implies !(#[trigger] head[i] is Fail) by {
                assert(head[i] == steps[i]);
            }
        }
        match steps.last() {
            Step::Do(work) => {
                lemma_alike(before, left, again, work);
                work_is_durable(k, left, work);
                let done = worked(before, work);
                let kept = worked(k, work);
                assert(RaftLogView { wal: kept.wal, ..done } == kept);
                lemma_same_dir(k, work);
                kept.wal
            },
            Step::Fail(work, at, fault, after) => failed_record_changes_nothing(
                before,
                left,
                again,
                work,
                at,
                fault,
                after,
            ),
            Step::Crash(work, after, files, reread) => {
                lemma_alike(before, left, again, work);
                crash_leaves_the_log_before_or_after(k, left, work, after, files, reread);
                let opened = reopened(k, files, reread)->Ok_0;
                assert(RaftLogView { wal: opened.wal, ..opened } == opened);
                opened.wal
            },
            Step::Reopen(files, reread) => {
                recovery::reopening_restores_the_log(k, left, files, reread);
                let opened = reopened(k, files, reread)->Ok_0;
                assert(RaftLogView { wal: opened.wal, ..opened } == opened);
                opened.wal
            },
        }
    }
}

/// Work does not move the log to another directory.
proof fn lemma_same_dir(l: RaftLogView, work: Work)
    ensures
        worked(l, work).wal.dir == l.wal.dir,
{
}

/// None of `steps` is one that fails.
pub open spec fn none_fails(steps: Seq<Step>) -> bool {
    forall|i: int| 0 <= i < steps.len() ==> !(#[trigger] steps[i] is Fail)
}

/// A durable log is durable after any run of calls, failures, crashes and restarts,
/// and keeps every entry at its index: its disk holds records that replay to it. Where
/// none of them failed, its WAL agrees with the disk too.
pub proof fn every_run_keeps_the_log_durable(l: RaftLogView, disk: Disk, steps: Seq<Step>)
    requires
        recovery::durable(l, disk),
        recovery::contiguous(l.log),
        all_possible(l, disk, steps),
    ensures
        ({
            let (after, left) = run(l, disk, steps);
            &&& exists|again: WalView| #[trigger] held(after, left, again)
            &&& none_fails(steps) ==> recovery::durable(after, left)
            &&& recovery::contiguous(after.log)
        }),
{
    let later = lemma_run(l, disk, steps);
    let after = run(l, disk, steps).0;
    assert(RaftLogView { wal: after.wal, ..after } == after);
}

/// A log that was started in a directory without segments, whatever has been done
/// with it since, opens again with exactly the entries and the snapshot that it has,
/// and where nothing has failed as exactly the log it is.
pub proof fn reached_log_reopens_as_it_is(
    dir: Seq<char>,
    max_segment_bytes: u64,
    sync_writes: bool,
    disk: Disk,
    files: FilesView,
    reread: FilesView,
    steps: Seq<Step>,
    later: FilesView,
    last: FilesView,
)
    requires
        storage::read_from_disk(files, disk),
        storage::read_from_disk(reread, storage::all_applied(disk, wal::open_ops(dir, files))),
        forall|path: Seq<char>| #[trigger]
            disk.contains_key(path) ==> !segment::is_segment_file(path),
        ({
            let l = log::open_result(
                dir,
                max_segment_bytes,
                sync_writes,
                files,
                OutcomeView::Done,
                reread,
            )->Ok_0;
            let started = storage::all_applied(disk, wal::open_ops(dir, files));
            let (after, left) = run(l, started, steps);
            &&& all_possible(l, started, steps)
            &&& read_around_opening(after, left, later, last)
        }),
    ensures
        ({
            let l = log::open_result(
                dir,
                max_segment_bytes,
                sync_writes,
                files,
                OutcomeView::Done,
                reread,
            )->Ok_0;
            let started = storage::all_applied(disk, wal::open_ops(dir, files));
            let after = run(l, started, steps).0;
            &&& reopened(after, later, last) matches Ok(again)
            &&& again.log == after.log
            &&& none_fails(steps) ==> again == after
        }),
{
    let l = log::open_result(
        dir,
        max_segment_bytes,
        sync_writes,
        files,
        OutcomeView::Done,
        reread,
    )->Ok_0;
    let started = storage::all_applied(disk, wal::open_ops(dir, files));
    recovery::fresh_log_is_durable(dir, max_segment_bytes, sync_writes, disk, files, reread);
    let again = lemma_run(l, started, steps);
    let (after, left) = run(l, started, steps);
    let k = RaftLogView { wal: again, ..after };
    recovery::reopening_restores_the_log(k, left, later, last);
    assert(none_fails(steps) ==> k == after);
}

} // verus!
