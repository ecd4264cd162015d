//! What holds of a [`Wal`](crate::wal_core::wal::Wal) after any number of calls,
//! failures, crashes and restarts: however it came to be, its disk still has every
//! entry that was appended and not dropped, and a restart finds them all.
//!
//! As long as nothing failed, the WAL agrees with its disk and opens again as it is. A
//! rotation or a truncation that failed on the way leaves a list of sealed segments
//! that is not the one on disk; all else still agrees, and a restart puts it right.
use vstd::prelude::*;

use crate::storage;
use crate::storage::{Disk, FaultView, FileOp, FilesView, OutcomeView};
use crate::wal_core::durability;
use crate::wal_core::entry;
use crate::wal_core::entry::{EntryView, HEADER_SIZE};
use crate::wal_core::error::WalErrorView;
use crate::wal_core::segment;
use crate::wal_core::wal;
use crate::wal_core::wal::WalView;

verus! {

// ─── Runs ────────────────────────────────────────────────────────────────────

/// Something that is done with an open WAL.
pub enum Work {
    Append(Seq<u8>),
    Checkpoint(u64),
    /// Truncate before a sequence number, with these files as read from the disk.
    Truncate(u64, FilesView),
}

/// One step in the life of a WAL.
pub enum Step {
    /// All that the work asks of the disk succeeds.
    Do(Work),
    /// What the work asks of the disk fails at this position with this fault and
    /// leaves this disk, and the process goes on.
    Fail(Work, int, FaultView, Disk),
    /// The process dies somewhere in the work and leaves this disk, from which the
    /// WAL is opened again; the files are what its directory then holds.
    Crash(Work, Disk, FilesView),
    /// The process stops, and the WAL is opened again with this segment size and sync
    /// mode.
    Reopen(u64, bool, FilesView),
}

/// The work can be done: no counter runs over, the files it takes are those on the
/// disk, and where it drops segments they are the ones that are there.
pub open spec fn feasible(w: WalView, disk: Disk, work: Work) -> bool {
    match work {
        Work::Append(data) => data.len() <= u32::MAX && w.can_append(HEADER_SIZE + data.len()),
        Work::Checkpoint(_) => true,
        Work::Truncate(_, files) => {
            &&& durability::laid_out(w, disk)
            &&& durability::sealed_shown(w, disk, files)
        },
    }
}

/// What the work asks of the disk.
pub open spec fn work_ops(w: WalView, work: Work) -> Seq<FileOp> {
    match work {
        Work::Append(data) => w.append_ops(data),
        Work::Checkpoint(sequence) => w.checkpoint.advance_ops(sequence),
        Work::Truncate(before, files) => w.truncate_ops(before, files),
    }
}

/// The WAL after work with the outcome `io`.
pub open spec fn left_by(w: WalView, work: Work, io: OutcomeView) -> WalView {
    match work {
        Work::Append(data) => w.appended(HEADER_SIZE + data.len(), io),
        Work::Checkpoint(sequence) => WalView {
            checkpoint: w.checkpoint.advanced(sequence, io),
            ..w
        },
        Work::Truncate(before, files) => w.truncated(before, files, io),
    }
}

/// The WAL after work that succeeded.
pub open spec fn worked(w: WalView, work: Work) -> WalView {
    left_by(w, work, OutcomeView::Done)
}

/// The operation at position `at` settles an entry that was already written.
pub open spec fn settling(list: Seq<FileOp>, at: int) -> bool {
    at > 0 && storage::settles(list[at], list[at - 1])
}

/// `step` can be taken from `w` on `disk`. An entry that was written but could not be
/// settled is another matter: see [`unsettled_entry_is_on_disk`].
pub open spec fn possible(w: WalView, disk: Disk, step: Step) -> bool {
    match step {
        Step::Do(work) => feasible(w, disk, work),
        Step::Fail(work, at, _, after) => {
            &&& feasible(w, disk, work)
            &&& storage::failed_at(disk, work_ops(w, work), at, after)
            &&& !settling(work_ops(w, work), at)
        },
        Step::Crash(work, after, files) => {
            &&& feasible(w, disk, work)
            &&& storage::crashed(disk, work_ops(w, work), after)
            &&& storage::read_from_disk(files, after)
        },
        Step::Reopen(_, _, files) => storage::read_from_disk(files, disk),
    }
}

/// The WAL and the disk after `step`.
pub open spec fn stepped(w: WalView, disk: Disk, step: Step) -> (WalView, Disk) {
    match step {
        Step::Do(work) => (worked(w, work), storage::all_applied(disk, work_ops(w, work))),
        Step::Fail(work, at, fault, after) => (
            left_by(w, work, OutcomeView::Failed(at, fault)),
            after,
        ),
        Step::Crash(_, after, files) => (
            wal::open_result(
                w.dir,
                w.max_segment_bytes,
                w.sync_writes,
                files,
                OutcomeView::Done,
            )->Ok_0,
            storage::all_applied(after, wal::open_ops(w.dir, files)),
        ),
        Step::Reopen(max_segment_bytes, sync_writes, files) => (
            wal::open_result(
                w.dir,
                max_segment_bytes,
                sync_writes,
                files,
                OutcomeView::Done,
            )->Ok_0,
            storage::all_applied(disk, wal::open_ops(w.dir, files)),
        ),
    }
}

/// The WAL and the disk after all of `steps`, in order.
pub open spec fn run(w: WalView, disk: Disk, steps: Seq<Step>) -> (WalView, Disk)
    decreases steps.len(),
{
    if steps.len() == 0 {
        (w, disk)
    } else {
        let (before, left) = run(w, disk, steps.drop_last());
        stepped(before, left, steps.last())
    }
}

/// Each of `steps` can be taken where the ones before it were.
pub open spec fn all_possible(w: WalView, disk: Disk, steps: Seq<Step>) -> bool
    decreases steps.len(),
{
    steps.len() > 0 ==> {
        let (before, left) = run(w, disk, steps.drop_last());
        &&& all_possible(w, disk, steps.drop_last())
        &&& possible(before, left, steps.last())
    }
}

/// `step` asks for no entry from `sequence` on to be dropped.
pub open spec fn spares(step: Step, sequence: u64) -> bool {
    match step {
        Step::Do(Work::Truncate(before, _)) => before <= sequence,
        Step::Fail(Work::Truncate(before, _), _, _, _) => before <= sequence,
        Step::Crash(Work::Truncate(before, _), _, _) => before <= sequence,
        _ => true,
    }
}

/// Every entry of `old` from `sequence` on is among `new`.
pub open spec fn kept_from(old: Seq<EntryView>, new: Seq<EntryView>, sequence: u64) -> bool {
    forall|i: int|
        0 <= i < old.len() && (#[trigger] old[i]).sequence >= sequence ==> new.contains(old[i])
}

// ─── One step ────────────────────────────────────────────────────────────────

/// Entries that lost some from the front, all of them before `before`, and may have
/// got one behind, still have what comes from `before` on.
pub proof fn lemma_kept(
    old: Seq<EntryView>,
    new: Seq<EntryView>,
    k: int,
    before: u64,
    sequence: u64,
)
    requires
        0 <= k <= old.len(),
        before <= sequence,
        forall|i: int| 0 <= i < k ==> (#[trigger] old[i]).sequence < before,
        new == old.skip(k) || exists|e: EntryView| new == #[trigger] old.skip(k).push(e),
    ensures
        kept_from(old, new, sequence),
{
    assert forall|i: int| 0 <= i < old.len() && (#[trigger] old[i]).sequence
        >= sequence implies new.contains(old[i]) by {
        assert(old.skip(k)[i - k] == old[i]);
        assert(new[i - k] == old[i]);
    }
}

/// `disk` holds the WAL `again`, which is `w` but for the list of sealed segments.
pub open spec fn backed(w: WalView, disk: Disk, again: WalView) -> bool {
    &&& durability::intact(again, disk)
    &&& again == (WalView { sealed: again.sealed, ..w })
}

/// What one step keeps, where `again` is what the disk holds before it, and `later`
/// what the disk holds after it.
pub open spec fn upheld(
    w: WalView,
    disk: Disk,
    again: WalView,
    step: Step,
    later: WalView,
) -> bool {
    let (after, left) = stepped(w, disk, step);
    &&& backed(after, left, later)
    &&& after.dir == w.dir
    &&& after.next_sequence >= w.next_sequence
    &&& forall|sequence: u64| #[trigger]
        spares(step, sequence) ==> kept_from(
            durability::stored(again, disk),
            durability::stored(later, left),
            sequence,
        )
}

/// Work that succeeds keeps the WAL and its disk in agreement, and what it spares.
pub proof fn lemma_work(w: WalView, disk: Disk, work: Work)
    requires
        durability::intact(w, disk),
        feasible(w, disk, work),
    ensures
        upheld(w, disk, w, Step::Do(work), worked(w, work)),
{
    let step = Step::Do(work);
    let (after, left) = stepped(w, disk, step);
    let old = durability::stored(w, disk);
    let new = durability::stored(after, left);
    assert(old.skip(0) =~= old);
    match work {
        Work::Append(data) => {
            if HEADER_SIZE + data.len() <= w.max_segment_bytes {
                durability::append_adds_the_entry(w, disk, data);
                assert(new == old.skip(0).push(EntryView { sequence: w.next_sequence, data }));
            } else {
                durability::oversized_entry_is_refused(w, disk, data);
            }
            assert forall|sequence: u64| #[trigger] spares(step, sequence) implies kept_from(
                old,
                new,
                sequence,
            ) by {
                lemma_kept(old, new, 0, 0, sequence);
            }
        },
        Work::Checkpoint(sequence) => {
            durability::checkpoint_keeps_entries(w, disk, sequence);
            assert forall|sequence: u64| #[trigger] spares(step, sequence) implies kept_from(
                old,
                new,
                sequence,
            ) by {
                lemma_kept(old, new, 0, 0, sequence);
            }
        },
        Work::Truncate(before, files) => {
            durability::truncate_keeps_later_entries(w, disk, files, before);
            durability::sealed_entries_are_stored(w, disk, files);
            let k = choose|k: int|
                0 <= k <= durability::stored_sealed(w, disk).len() && new == #[trigger] old.skip(
                    k,
                ) && durability::at_bound(disk, w.dir, w.sealed, k) && forall|i: int|
                    0 <= i < k ==> (#[trigger] old[i]).sequence < before;
            assert forall|sequence: u64| #[trigger] spares(step, sequence) implies kept_from(
                old,
                new,
                sequence,
            ) by {
                lemma_kept(old, new, k, before, sequence);
            }
        },
    }
}

proof fn lemma_crash(w: WalView, disk: Disk, work: Work, after: Disk, files: FilesView)
    requires
        durability::intact(w, disk),
        possible(w, disk, Step::Crash(work, after, files)),
    ensures
        wal::openable(w.dir, files, OutcomeView::Done),
        wal::open_result(w.dir, w.max_segment_bytes, w.sync_writes, files, OutcomeView::Done) is Ok,
        upheld(
            w,
            disk,
            w,
            Step::Crash(work, after, files),
            stepped(w, disk, Step::Crash(work, after, files)).0,
        ),
{
    let step = Step::Crash(work, after, files);
    let (opened, left) = stepped(w, disk, step);
    let old = durability::stored(w, disk);
    let new = durability::stored(opened, left);
    let max = w.max_segment_bytes;
    assert(old.skip(0) =~= old);
    match work {
        Work::Append(data) => {
            durability::append_survives_a_crash(w, disk, data, after, files);
            let added = EntryView { sequence: w.next_sequence, data };
            assert(new == old.skip(0) || new == old.skip(0).push(added));
            assert forall|sequence: u64| #[trigger] spares(step, sequence) implies kept_from(
                old,
                new,
                sequence,
            ) by {
                lemma_kept(old, new, 0, 0, sequence);
            }
        },
        Work::Checkpoint(sequence) => {
            durability::checkpoint_crash_keeps_entries(w, disk, sequence, after);
            let done = worked(w, work);
            let again = if durability::intact(w, after) && durability::stored(w, after) == old {
                w
            } else {
                done
            };
            durability::reopening_restores_the_wal(again, after, files, max, w.sync_writes);
            assert forall|sequence: u64| #[trigger] spares(step, sequence) implies kept_from(
                old,
                new,
                sequence,
            ) by {
                lemma_kept(old, new, 0, 0, sequence);
            }
        },
        Work::Truncate(before, shown) => {
            durability::truncation_survives_a_crash(w, disk, shown, before, after);
            durability::sealed_entries_are_stored(w, disk, shown);
            let again = choose|again: WalView| #[trigger]
                durability::shortened(again, after, w, disk, before);
            durability::reopening_restores_the_wal(again, after, files, max, w.sync_writes);
            let k = choose|k: int|
                0 <= k <= durability::stored_sealed(w, disk).len() && durability::stored(
                    again,
                    after,
                ) == #[trigger] durability::stored(w, disk).skip(k) && durability::at_bound(
                    disk,
                    w.dir,
                    w.sealed,
                    k,
                ) && forall|i: int|
                    0 <= i < k ==> (#[trigger] durability::stored(w, disk)[i]).sequence < before;
            assert forall|sequence: u64| #[trigger] spares(step, sequence) implies kept_from(
                old,
                new,
                sequence,
            ) by {
                lemma_kept(old, new, k, before, sequence);
            }
        },
    }
}

/// Work asks the same of a WAL and of what its disk holds, and does the same to both.
proof fn lemma_alike(w: WalView, disk: Disk, again: WalView, work: Work, io: OutcomeView)
    requires
        backed(w, disk, again),
        feasible(w, disk, work),
    ensures
        feasible(again, disk, work),
        work_ops(again, work) == work_ops(w, work),
        left_by(again, work, io) == (WalView {
            sealed: left_by(again, work, io).sealed,
            ..left_by(w, work, io)
        }),
        work is Truncate ==> again == w,
{
    if work is Truncate {
        durability::lemma_layout_is_unique(w, again, disk);
    }
}

/// An append that fails before its entry is written adds nothing: what is on disk is
/// what was there, and where a rotation came before it the next segment is there too.
pub proof fn failed_append_adds_nothing(
    w: WalView,
    disk: Disk,
    again: WalView,
    data: Seq<u8>,
    at: int,
    fault: FaultView,
    after: Disk,
) -> (later: WalView)
    requires
        backed(w, disk, again),
        possible(w, disk, Step::Fail(Work::Append(data), at, fault, after)),
    ensures
        w.append_result(HEADER_SIZE + data.len(), OutcomeView::Failed(at, fault)) == Err::<
            u64,
            WalErrorView,
        >(WalErrorView::Io(fault)),
        backed(w.appended(HEADER_SIZE + data.len(), OutcomeView::Failed(at, fault)), after, later),
        later.next_sequence == w.next_sequence,
        durability::stored(later, after) == durability::stored(again, disk),
        storage::crashed(disk, w.append_ops(data), after),
{
    let io = OutcomeView::Failed(at, fault);
    let len = HEADER_SIZE + data.len();
    let list = w.append_ops(data);
    let bytes = entry::encoded(w.next_sequence, data);
    entry::lemma_encoded_len(w.next_sequence, data);
    assert(list.take(0) =~= Seq::<FileOp>::empty());
    let paths = again.segment_paths();
    assert(paths[paths.len() - 1] == w.active.path);
    if w.active.overflows(len) {
        let writes = w.rotated().write_ops(bytes);
        assert(list == w.rotate_ops() + writes);
        durability::lemma_rotate(again, disk);
        assert(list.take(2) =~= w.rotate_ops());
        assert(w.rotate_ops() == again.rotate_ops());
        if at == 1 {
            reveal_with_fuel(storage::all_applied, 2);
            assert(list.take(1).last() == FileOp::Sync(w.active.path));
            assert(list.take(1).drop_last() =~= Seq::<FileOp>::empty());
        }
        if at >= 2 {
            assert(list[at] == writes[at - 2]);
            assert(list[at - 1] == if at == 2 {
                w.rotate_ops()[1]
            } else {
                writes[at - 3]
            });
            assert(at == 2);
            assert(io.skip(2) == OutcomeView::Failed(0, fault));
        }
    } else {
        assert(list[0] == FileOp::Append(w.active.path, bytes));
        assert(at == 0);
    }
    storage::failure_leaves_what_a_crash_can(disk, list, at, after);
    if w.active.overflows(len) && at >= 2 {
        again.rotated()
    } else {
        again
    }
}

/// What is left by work of which an operation failed.
proof fn lemma_fail(
    w: WalView,
    disk: Disk,
    again: WalView,
    work: Work,
    at: int,
    fault: FaultView,
    after: Disk,
) -> (later: WalView)
    requires
        backed(w, disk, again),
        possible(w, disk, Step::Fail(work, at, fault, after)),
    ensures
        upheld(w, disk, again, Step::Fail(work, at, fault, after), later),
        storage::crashed(disk, work_ops(w, work), after),
{
    let step = Step::Fail(work, at, fault, after);
    let io = OutcomeView::Failed(at, fault);
    let list = work_ops(w, work);
    let old = durability::stored(again, disk);
    lemma_alike(w, disk, again, work, io);
    assert(old.skip(0) =~= old);
    match work {
        Work::Append(data) => {
            let later = failed_append_adds_nothing(w, disk, again, data, at, fault, after);
            assert forall|sequence: u64| #[trigger] spares(step, sequence) implies kept_from(
                old,
                old,
                sequence,
            ) by {
                lemma_kept(old, old, 0, 0, sequence);
            }
            later
        },
        Work::Checkpoint(sequence) => {
            durability::failed_checkpoint_changes_nothing(again, disk, sequence, at, after);
            storage::failure_leaves_what_a_crash_can(disk, list, at, after);
            assert forall|sequence: u64| #[trigger] spares(step, sequence) implies kept_from(
                old,
                old,
                sequence,
            ) by {
                lemma_kept(old, old, 0, 0, sequence);
            }
            again
        },
        Work::Truncate(before, files) => {
            assert(!(list[at] is Append)) by {
                durability::lemma_truncation_appends_nothing(w, files, before);
            }
            storage::failure_leaves_what_a_crash_can(disk, list, at, after);
            durability::truncation_survives_a_crash(w, disk, files, before, after);
            let later = choose|later: WalView| #[trigger]
                durability::shortened(later, after, w, disk, before);
            let new = durability::stored(later, after);
            let k = choose|k: int|
                0 <= k <= durability::stored_sealed(w, disk).len() && new
                    == #[trigger] durability::stored(w, disk).skip(k) && durability::at_bound(
                    disk,
                    w.dir,
                    w.sealed,
                    k,
                ) && forall|i: int|
                    0 <= i < k ==> (#[trigger] durability::stored(w, disk)[i]).sequence < before;
            durability::sealed_entries_are_stored(w, disk, files);
            assert forall|sequence: u64| #[trigger] spares(step, sequence) implies kept_from(
                old,
                new,
                sequence,
            ) by {
                lemma_kept(old, new, k, before, sequence);
            }
            later
        },
    }
}

proof fn lemma_step(w: WalView, disk: Disk, again: WalView, step: Step) -> (later: WalView)
    requires
        backed(w, disk, again),
        possible(w, disk, step),
    ensures
        upheld(w, disk, again, step, later),
        again == w && !(step is Fail) ==> later == stepped(w, disk, step).0,
        step is Crash || step is Reopen ==> later == stepped(w, disk, step).0,
{
    match step {
        Step::Do(work) => {
            lemma_alike(w, disk, again, work, OutcomeView::Done);
            lemma_work(again, disk, work);
            worked(again, work)
        },
        Step::Fail(work, at, fault, after) => lemma_fail(w, disk, again, work, at, fault, after),
        Step::Crash(work, after, files) => {
            lemma_alike(w, disk, again, work, OutcomeView::Done);
            lemma_crash(again, disk, work, after, files);
            stepped(w, disk, step).0
        },
        Step::Reopen(max_segment_bytes, sync_writes, files) => {
            durability::reopening_restores_the_wal(
                again,
                disk,
                files,
                max_segment_bytes,
                sync_writes,
            );
            let old = durability::stored(again, disk);
            assert(old.skip(0) =~= old);
            assert forall|sequence: u64| #[trigger] spares(step, sequence) implies kept_from(
                old,
                old,
                sequence,
            ) by {
                lemma_kept(old, old, 0, 0, sequence);
            }
            stepped(w, disk, step).0
        },
    }
}

/// What a run keeps.
proof fn lemma_run(w: WalView, disk: Disk, steps: Seq<Step>) -> (later: WalView)
    requires
        durability::intact(w, disk),
        all_possible(w, disk, steps),
    ensures
        ({
            let (after, left) = run(w, disk, steps);
            &&& backed(after, left, later)
            &&& after.dir == w.dir
            &&& after.next_sequence >= w.next_sequence
            &&& none_fails(steps) ==> later == after
            &&& forall|sequence: u64| #[trigger]
                all_spare(steps, sequence) ==> kept_from(
                    durability::stored(w, disk),
                    durability::stored(later, left),
                    sequence,
                )
        }),
    decreases steps.len(),
{
    let old = durability::stored(w, disk);
    if steps.len() == 0 {
        assert(old.skip(0) =~= old);
        assert forall|sequence: u64| #[trigger] all_spare(steps, sequence) implies kept_from(
            old,
            old,
            sequence,
        ) by {
            lemma_kept(old, old, 0, 0, sequence);
        }
        w
    } else {
        let head = steps.drop_last();
        let again = lemma_run(w, disk, head);
        let (before, left) = run(w, disk, head);
        let (after, last) = run(w, disk, steps);
        let later = lemma_step(before, left, again, steps.last());
        assert(steps[steps.len() - 1] == steps.last());
        if none_fails(steps) {
            assert forall|i: int| 0 <= i < head.len() implies !(#[trigger] head[i] is Fail) by {
                assert(head[i] == steps[i]);
            }
        }
        let mid = durability::stored(again, left);
        let new = durability::stored(later, last);
        assert forall|sequence: u64| #[trigger] all_spare(steps, sequence) implies kept_from(
            old,
            new,
            sequence,
        ) by {
            assert forall|i: int| 0 <= i < head.len() implies spares(
                #[trigger] head[i],
                sequence,
            ) by {
                assert(head[i] == steps[i]);
            }
            assert(all_spare(head, sequence));
            assert(spares(steps[steps.len() - 1], sequence));
            assert forall|i: int| 0 <= i < old.len() && (#[trigger] old[i]).sequence
                >= sequence implies new.contains(old[i]) by {
                assert(mid.contains(old[i]));
                let j = choose|j: int| 0 <= j < mid.len() && mid[j] == old[i];
                assert(mid[j].sequence >= sequence);
            }
        }
        later
    }
}

// ─── Laws ────────────────────────────────────────────────────────────────────

/// None of `steps` is one that fails.
pub open spec fn none_fails(steps: Seq<Step>) -> bool {
    forall|i: int| 0 <= i < steps.len() ==> !(#[trigger] steps[i] is Fail)
}

/// None of `steps` asks for an entry from `sequence` on to be dropped.
pub open spec fn all_spare(steps: Seq<Step>, sequence: u64) -> bool {
    forall|i: int| 0 <= i < steps.len() ==> spares(#[trigger] steps[i], sequence)
}

/// A WAL that agrees with its disk is still on it after any run of calls, failures,
/// crashes and restarts, all but the list of sealed segments as the WAL has it, and
/// agrees with it where none of them failed. Its next sequence number never goes
/// back, so that no number is given out twice, whatever entries were dropped.
pub proof fn every_run_keeps_the_wal_intact(w: WalView, disk: Disk, steps: Seq<Step>)
    requires
        durability::intact(w, disk),
        all_possible(w, disk, steps),
    ensures
        ({
            let (after, left) = run(w, disk, steps);
            &&& exists|again: WalView| #[trigger] backed(after, left, again)
            &&& none_fails(steps) ==> durability::intact(after, left)
            &&& after.dir == w.dir
            &&& after.next_sequence >= w.next_sequence
        }),
{
    let later = lemma_run(w, disk, steps);
}

/// An entry on disk is still there after any run of calls, failures, crashes and
/// restarts that does not ask for it to be dropped.
pub proof fn every_run_keeps_the_entries(w: WalView, disk: Disk, steps: Seq<Step>, sequence: u64)
    requires
        durability::intact(w, disk),
        all_possible(w, disk, steps),
        all_spare(steps, sequence),
    ensures
        exists|again: WalView| #[trigger]
            backed(run(w, disk, steps).0, run(w, disk, steps).1, again) && kept_from(
                durability::stored(w, disk),
                durability::stored(again, run(w, disk, steps).1),
                sequence,
            ),
{
    let later = lemma_run(w, disk, steps);
}

/// Wherever the process dies, the WAL opens again, and then agrees with its disk.
pub proof fn every_crash_is_recovered_from(
    w: WalView,
    disk: Disk,
    steps: Seq<Step>,
    work: Work,
    after: Disk,
    files: FilesView,
)
    requires
        durability::intact(w, disk),
        all_possible(w, disk, steps),
        possible(run(w, disk, steps).0, run(w, disk, steps).1, Step::Crash(work, after, files)),
    ensures
        ({
            let (before, left) = run(w, disk, steps);
            let (opened, mended) = stepped(before, left, Step::Crash(work, after, files));
            &&& wal::openable(w.dir, files, OutcomeView::Done)
            &&& wal::open_result(
                w.dir,
                before.max_segment_bytes,
                before.sync_writes,
                files,
                OutcomeView::Done,
            ) is Ok
            &&& durability::intact(opened, mended)
        }),
{
    let again = lemma_run(w, disk, steps);
    let (before, left) = run(w, disk, steps);
    lemma_alike(before, left, again, work, OutcomeView::Done);
    lemma_crash(again, left, work, after, files);
}

/// Where something failed, a restart is as good as after a crash: what the failure
/// leaves on disk, a crash at the same point could have left.
pub proof fn every_failure_is_recovered_from(
    w: WalView,
    disk: Disk,
    steps: Seq<Step>,
    work: Work,
    at: int,
    fault: FaultView,
    after: Disk,
    files: FilesView,
)
    requires
        durability::intact(w, disk),
        all_possible(w, disk, steps),
        possible(
            run(w, disk, steps).0,
            run(w, disk, steps).1,
            Step::Fail(work, at, fault, after),
        ),
        storage::read_from_disk(files, after),
    ensures
        possible(run(w, disk, steps).0, run(w, disk, steps).1, Step::Crash(work, after, files)),
{
    let again = lemma_run(w, disk, steps);
    let (before, left) = run(w, disk, steps);
    let later = lemma_fail(before, left, again, work, at, fault, after);
}

/// A WAL that was started in a directory without segments, whatever has been done
/// with it since, opens again with its next sequence number, its checkpoint and every
/// entry on its disk, and where nothing has failed since the last start as exactly
/// the WAL it is.
pub proof fn reached_wal_reopens_as_it_is(
    dir: Seq<char>,
    max_segment_bytes: u64,
    sync_writes: bool,
    disk: Disk,
    files: FilesView,
    steps: Seq<Step>,
    later: FilesView,
)
    requires
        storage::read_from_disk(files, disk),
        forall|path: Seq<char>| #[trigger]
            disk.contains_key(path) ==> !segment::is_segment_file(path),
        ({
            let w = wal::open_result(
                dir,
                max_segment_bytes,
                sync_writes,
                files,
                OutcomeView::Done,
            )->Ok_0;
            let started = storage::all_applied(disk, wal::open_ops(dir, files));
            &&& all_possible(w, started, steps)
            &&& storage::read_from_disk(later, run(w, started, steps).1)
        }),
    ensures
        ({
            let w = wal::open_result(
                dir,
                max_segment_bytes,
                sync_writes,
                files,
                OutcomeView::Done,
            )->Ok_0;
            let started = storage::all_applied(disk, wal::open_ops(dir, files));
            let (after, left) = run(w, started, steps);
            let opened = wal::open_result(
                dir,
                after.max_segment_bytes,
                after.sync_writes,
                later,
                OutcomeView::Done,
            );
            &&& wal::openable(dir, later, OutcomeView::Done)
            &&& opened matches Ok(again)
            &&& backed(after, left, again)
            &&& again.all_entries(later) == Ok::<Seq<EntryView>, WalErrorView>(
                durability::stored(again, left),
            )
            &&& none_fails(steps) || durability::laid_out(after, left) ==> again == after
        }),
{
    let w = wal::open_result(
        dir,
        max_segment_bytes,
        sync_writes,
        files,
        OutcomeView::Done,
    )->Ok_0;
    let started = storage::all_applied(disk, wal::open_ops(dir, files));
    durability::fresh_wal_is_intact(dir, max_segment_bytes, sync_writes, disk, files);
    let again = lemma_run(w, started, steps);
    let (after, left) = run(w, started, steps);
    durability::reopening_restores_the_wal(
        again,
        left,
        later,
        after.max_segment_bytes,
        after.sync_writes,
    );
    durability::read_returns_what_is_stored(again, left, later, 0);
    assert(durability::reconfigured(again, after.max_segment_bytes, after.sync_writes) == again);
    if durability::laid_out(after, left) {
        durability::lemma_layout_is_unique(after, again, left);
    }
}

/// Reading from 0 on gives everything.
proof fn lemma_since_start(entries: Seq<EntryView>)
    ensures
        wal::since(entries, 0) == entries,
    decreases entries.len(),
{
    if entries.len() > 0 {
        lemma_since_start(entries.drop_last());
    }
    assert(wal::since(entries, 0) =~= entries);
}

/// An append that succeeds returns the next sequence number and uses it up, leaves
/// the checkpoint alone, and from then on the whole WAL reads as it did before with
/// the new entry behind it.
pub proof fn appended_entry_is_read(
    w: WalView,
    disk: Disk,
    data: Seq<u8>,
    before: FilesView,
    after: FilesView,
)
    requires
        durability::intact(w, disk),
        feasible(w, disk, Work::Append(data)),
        HEADER_SIZE + data.len() <= w.max_segment_bytes,
        storage::read_from_disk(before, disk),
        storage::read_from_disk(after, storage::all_applied(disk, w.append_ops(data))),
    ensures
        ({
            let len = HEADER_SIZE + data.len();
            let grown = w.appended(len, OutcomeView::Done);
            &&& w.append_result(len, OutcomeView::Done) == Ok::<u64, WalErrorView>(w.next_sequence)
            &&& grown.next_sequence == w.next_sequence + 1
            &&& grown.checkpoint == w.checkpoint
            &&& w.read_result(0, before) is Ok
            &&& grown.read_result(0, after) == Ok::<Seq<EntryView>, WalErrorView>(
                w.read_result(0, before)->Ok_0.push(
                    EntryView { sequence: w.next_sequence, data },
                ),
            )
        }),
{
    let grown = w.appended(HEADER_SIZE + data.len(), OutcomeView::Done);
    let left = storage::all_applied(disk, w.append_ops(data));
    durability::append_adds_the_entry(w, disk, data);
    durability::read_returns_what_is_stored(w, disk, before, 0);
    durability::read_returns_what_is_stored(grown, left, after, 0);
    lemma_since_start(durability::stored(w, disk));
    lemma_since_start(durability::stored(grown, left));
}

/// An append that fails, for whatever reason, uses up no sequence number, and the
/// checkpoint stays.
pub proof fn failed_append_uses_no_number(w: WalView, len: int, io: OutcomeView)
    requires
        w.append_result(len, io) is Err,
    ensures
        w.appended(len, io).next_sequence == w.next_sequence,
        w.appended(len, io).checkpoint == w.checkpoint,
{
}

/// A rotation that fails is reported and costs no entry: where the old segment could
/// not be made durable nothing changes, and where the new one could not be created
/// the old one is listed as sealed and stays active.
pub proof fn failed_rotation_keeps_the_entries(
    w: WalView,
    disk: Disk,
    data: Seq<u8>,
    at: int,
    fault: FaultView,
    after: Disk,
)
    requires
        durability::intact(w, disk),
        feasible(w, disk, Work::Append(data)),
        w.active.overflows(HEADER_SIZE + data.len()),
        0 <= at < 2,
        storage::failed_at(disk, w.append_ops(data), at, after),
    ensures
        ({
            let len = HEADER_SIZE + data.len();
            let io = OutcomeView::Failed(at, fault);
            let left = w.appended(len, io);
            &&& w.append_result(len, io) == Err::<u64, WalErrorView>(WalErrorView::Io(fault))
            &&& after == disk
            &&& at == 0 ==> left == w
            &&& at == 1 ==> left == (WalView { sealed: w.sealed.push(w.active.id), ..w })
            &&& backed(left, after, w)
        }),
{
    let list = w.append_ops(data);
    entry::lemma_encoded_len(w.next_sequence, data);
    assert(list.take(0) =~= Seq::<FileOp>::empty());
    if at == 1 {
        reveal_with_fuel(storage::all_applied, 2);
        assert(list.take(1).last() == FileOp::Sync(w.active.path));
        assert(list.take(1).drop_last() =~= Seq::<FileOp>::empty());
    }
}

/// A truncation that fails is reported and leaves the WAL as it is. The disk may have
/// lost some of the segments that were to go, and no entry from `before` on: a
/// restart finds the WAL without them.
pub proof fn failed_truncation_keeps_later_entries(
    w: WalView,
    disk: Disk,
    before: u64,
    files: FilesView,
    at: int,
    fault: FaultView,
    after: Disk,
    later: FilesView,
)
    requires
        durability::intact(w, disk),
        possible(w, disk, Step::Fail(Work::Truncate(before, files), at, fault, after)),
        storage::read_from_disk(later, after),
    ensures
        ({
            let io = OutcomeView::Failed(at, fault);
            let opened = wal::open_result(
                w.dir,
                w.max_segment_bytes,
                w.sync_writes,
                later,
                OutcomeView::Done,
            );
            &&& w.truncate_result(before, files, io) == Err::<(), WalErrorView>(
                WalErrorView::Io(fault),
            )
            &&& w.truncated(before, files, io) == w
            &&& wal::openable(w.dir, later, OutcomeView::Done)
            &&& opened matches Ok(again)
            &&& durability::shortened(again, after, w, disk, before)
        }),
{
    let again = lemma_fail(w, disk, w, Work::Truncate(before, files), at, fault, after);
    durability::truncation_survives_a_crash(w, disk, files, before, after);
    let found = choose|found: WalView| #[trigger]
        durability::shortened(found, after, w, disk, before);
    durability::reopening_restores_the_wal(
        found,
        after,
        later,
        w.max_segment_bytes,
        w.sync_writes,
    );
    assert(durability::reconfigured(found, w.max_segment_bytes, w.sync_writes) == found);
}

/// An entry that was written but could not be settled is reported as failed and uses
/// up no number, and yet it is in its segment: a restart finds it there, under the
/// number that was not given out.
pub proof fn unsettled_entry_is_on_disk(
    w: WalView,
    disk: Disk,
    data: Seq<u8>,
    at: int,
    fault: FaultView,
    after: Disk,
    files: FilesView,
)
    requires
        durability::intact(w, disk),
        feasible(w, disk, Work::Append(data)),
        storage::failed_at(disk, w.append_ops(data), at, after),
        settling(w.append_ops(data), at),
        storage::read_from_disk(files, after),
    ensures
        ({
            let len = HEADER_SIZE + data.len();
            let io = OutcomeView::Failed(at, fault);
            let left = w.appended(len, io);
            let opened = wal::open_result(
                w.dir,
                w.max_segment_bytes,
                w.sync_writes,
                files,
                OutcomeView::Done,
            );
            &&& w.append_result(len, io) == Err::<u64, WalErrorView>(WalErrorView::Io(fault))
            &&& left.next_sequence == w.next_sequence
            &&& wal::openable(w.dir, files, OutcomeView::Done)
            &&& opened matches Ok(again)
            &&& again == (WalView { next_sequence: (w.next_sequence + 1) as u64, ..left })
            &&& durability::intact(again, after)
            &&& durability::stored(again, after) == durability::stored(w, disk).push(
                EntryView { sequence: w.next_sequence, data },
            )
        }),
{
    let len = HEADER_SIZE + data.len();
    let io = OutcomeView::Failed(at, fault);
    let bytes = entry::encoded(w.next_sequence, data);
    let list = w.append_ops(data);
    entry::lemma_encoded_len(w.next_sequence, data);
    if w.active.overflows(len) {
        let writes = w.rotated().write_ops(bytes);
        assert(list == w.rotate_ops() + writes);
        if at < 2 {
            assert(list[0] == w.rotate_ops()[0]);
            assert(list[1] == w.rotate_ops()[1]);
        } else {
            assert(list[at] == writes[at - 2]);
            assert(list[at - 1] == if at == 2 {
                w.rotate_ops()[1]
            } else {
                writes[at - 3]
            });
        }
        assert(at == 3);
        assert(io.skip(2) == OutcomeView::Failed(1, fault));
        assert(OutcomeView::Done.skip(2) == OutcomeView::Done);
    } else {
        assert(at == 1);
    }
    assert(list[at] == if w.active.overflows(len) {
        w.rotated().settle_op()
    } else {
        w.settle_op()
    });
    assert(list.drop_last() =~= list.take(at));
    assert(list.last() == list[at]);
    assert(storage::all_applied(disk, list) == after);
    durability::append_adds_the_entry(w, disk, data);
    let grown = w.appended(len, OutcomeView::Done);
    durability::reopening_restores_the_wal(
        grown,
        after,
        files,
        w.max_segment_bytes,
        w.sync_writes,
    );
    assert(durability::reconfigured(grown, w.max_segment_bytes, w.sync_writes) == grown);
}

} // verus!
