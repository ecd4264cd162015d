//! What the calls of a [`RaftLog`](crate::wal_replication::raft::log::RaftLog) come to,
//! told by its entries and by the bytes of the records that it writes.
use vstd::prelude::*;

use crate::bytes;
use crate::storage::{FilesView, OutcomeView};
use crate::wal_core::calls;
use crate::wal_core::entry::EntryView;
use crate::wal_core::wal;
use crate::wal_core::wal::WalView;
use crate::wal_replication::error::RaftErrorView;
use crate::wal_replication::raft::log;
use crate::wal_replication::raft::log::{LogEntryView, LogView, RaftLogView};
use crate::wal_replication::raft::protocol::reach;

verus! {

// ─── Records ─────────────────────────────────────────────────────────────────

/// A record starts with its kind: 1 for an entry, with its index, its term and its data
/// behind it; 2 for a truncation, with the index; 3 for a snapshot, with index and term.
/// Numbers take eight bytes.
pub proof fn records_start_with_their_kind(e: LogEntryView, index: u64, term: u64)
    ensures
        log::append_record(e) == seq![1u8] + bytes::le_bytes(e.index as nat, 8) + bytes::le_bytes(
            e.term as nat,
            8,
        ) + e.data,
        log::truncate_record(index) == seq![2u8] + bytes::le_bytes(index as nat, 8),
        log::snapshot_record(index, term) == seq![3u8] + bytes::le_bytes(index as nat, 8)
            + bytes::le_bytes(term as nat, 8),
{
}

/// The number in the eight bytes of `raw` from `at` on.
pub open spec fn number(raw: Seq<u8>, at: int) -> u64 {
    bytes::le_value(raw.subrange(at, at + 8)) as u64
}

/// What the record `raw` makes of the log `l`: an entry behind the snapshot takes the
/// place of the one at its index, or comes behind them all; a truncation takes the
/// entries from its index on; a snapshot takes what it covers and becomes the log's own.
/// A record that is too short, or of another kind, does nothing.
pub proof fn record_is_replayed_by_its_kind(l: LogView, raw: Seq<u8>)
    ensures
        ({
            let after = l.replayed(raw);
            let base = l.snapshot_index as int;
            let n = l.entries.len();
            if raw.len() >= 17 && raw[0] == 1 {
                let e = LogEntryView {
                    index: number(raw, 1),
                    term: number(raw, 9),
                    data: raw.skip(17),
                };
                let at = e.index - base - 1;
                &&& after.snapshot_index == l.snapshot_index
                &&& after.snapshot_term == l.snapshot_term
                &&& at < 0 ==> after.entries == l.entries
                &&& 0 <= at < n ==> after.entries == l.entries.update(at, e)
                &&& at >= n ==> after.entries == l.entries.push(e)
            } else if raw.len() >= 9 && raw[0] == 2 {
                let keep = number(raw, 1) - base - 1;
                &&& after.snapshot_index == l.snapshot_index
                &&& after.snapshot_term == l.snapshot_term
                &&& after.entries == if 0 <= keep < n {
                    l.entries.take(keep)
                } else {
                    l.entries
                }
            } else if raw.len() >= 17 && raw[0] == 3 {
                &&& after.snapshot_index == number(raw, 1)
                &&& after.snapshot_term == number(raw, 9)
                &&& after.entries == l.entries.filter(
                    |e: LogEntryView| e.index > number(raw, 1),
                )
            } else {
                after == l
            }
        }),
{
    if raw.len() > 0 && raw[0] == 1 {
        let rest = raw.skip(1);
        if raw.len() >= 17 {
            assert(rest.subrange(0, 8) =~= raw.subrange(1, 9));
            assert(rest.subrange(8, 16) =~= raw.subrange(9, 17));
            assert(rest.skip(16) =~= raw.skip(17));
        }
    }
    if raw.len() >= 17 && raw[0] == 3 {
        entries_behind_an_index_are_kept(l.entries, number(raw, 1));
    }
}

/// What is kept behind an index are the entries of a higher one, in order.
pub proof fn entries_behind_an_index_are_kept(entries: Seq<LogEntryView>, index: u64)
    ensures
        log::after(entries, index) == entries.filter(|e: LogEntryView| e.index > index),
    decreases entries.len(),
{
    reveal(Seq::filter);
    if entries.len() > 0 {
        entries_behind_an_index_are_kept(entries.drop_last(), index);
    } else {
        assert(log::after(entries, index) =~= entries.filter(|e: LogEntryView| e.index > index));
    }
}

/// A log is what its records make of an empty one, one after the other.
pub proof fn records_are_replayed_in_order(records: Seq<EntryView>, next: EntryView)
    ensures
        log::replay(Seq::empty()).entries.len() == 0,
        log::replay(Seq::empty()).snapshot_index == 0,
        log::replay(Seq::empty()).snapshot_term == 0,
        log::replay(records.push(next)) == log::replay(records).replayed(next.data),
{
    assert(records.push(next).drop_last() =~= records);
}

// ─── Changing a log ──────────────────────────────────────────────────────────

/// An entry is appended behind the last one, with the next index, and its record is what
/// goes to the WAL. Where the WAL does not take it the log stays as it is, and the WAL
/// says why.
pub proof fn entry_is_appended_behind_the_last(
    l: RaftLogView,
    term: u64,
    data: Seq<u8>,
    io: OutcomeView,
)
    requires
        reach(l.log) < u64::MAX,
    ensures
        ({
            let index = (reach(l.log) + 1) as u64;
            let e = LogEntryView { term, index, data };
            let record = seq![1u8] + bytes::le_bytes(index as nat, 8) + bytes::le_bytes(
                term as nat,
                8,
            ) + data;
            let after = l.appended(term, data, io);
            let written = l.wal.append_result(33 + data.len() as int, io);
            &&& l.append_ops(term, data) == l.wal.append_ops(record)
            &&& record.len() == 17 + data.len()
            &&& after.wal == l.wal.appended(33 + data.len() as int, io)
            &&& match written {
                Ok(_) => {
                    &&& l.append_result(data.len() as int, io) == Ok::<u64, RaftErrorView>(index)
                    &&& after.log == LogView { entries: l.log.entries.push(e), ..l.log }
                },
                Err(why) => {
                    &&& l.append_result(data.len() as int, io) == Err::<u64, RaftErrorView>(
                        RaftErrorView::Wal(why),
                    )
                    &&& after.log == l.log
                },
            }
        }),
{
    let e = l.next_entry(term, data);
    log::lemma_record_lens(e, 0, 0);
}

/// A truncation removes the entries from its index on, all of them where it reaches into
/// the snapshot, and leaves those before. Where there are none it does nothing, not even
/// on disk; where the WAL does not take its record the log stays as it is.
pub proof fn truncation_removes_from_an_index_on(l: RaftLogView, from: u64, io: OutcomeView)
    requires
        reach(l.log) <= u64::MAX,
    ensures
        ({
            let after = l.truncated(from, io);
            let base = l.log.snapshot_index;
            let first = if from > base {
                from as int
            } else {
                base + 1
            };
            let written = l.wal.append_result(25, io);
            if l.log.entries.len() == 0 || first > reach(l.log) {
                &&& l.truncate_result(from, io) is Ok
                &&& after == l
                &&& l.truncate_ops(from).len() == 0
            } else {
                &&& l.truncate_ops(from) == l.wal.append_ops(
                    seq![2u8] + bytes::le_bytes(first as nat, 8),
                )
                &&& after.wal == l.wal.appended(25, io)
                &&& match written {
                    Ok(_) => {
                        &&& l.truncate_result(from, io) is Ok
                        &&& after.log.entries.len() == first - base - 1
                        &&& forall|i: int|
                            0 <= i < after.log.entries.len() ==> #[trigger] after.log.entries[i]
                                == l.log.entries[i]
                        &&& after.log.snapshot_index == l.log.snapshot_index
                        &&& after.log.snapshot_term == l.log.snapshot_term
                    },
                    Err(why) => {
                        &&& l.truncate_result(from, io) == Err::<(), RaftErrorView>(
                            RaftErrorView::Wal(why),
                        )
                        &&& after.log == l.log
                    },
                }
            }
        }),
{
}

/// A snapshot that the log has already, or a newer one, is no work: nothing changes and
/// nothing is written. Any other becomes the log's own where all succeeds: its index and
/// its term are the log's base, a compaction drops what stands up to its index, and an
/// installation what has no higher index. Where anything fails the entries stay.
pub proof fn snapshot_becomes_the_base_of_the_log(
    l: RaftLogView,
    index: u64,
    term: u64,
    files: FilesView,
    io: OutcomeView,
)
    requires
        reach(l.log) <= u64::MAX,
    ensures
        ({
            let result = l.snapshot_result(index, term, files, io);
            let compacted = l.compacted(index, term, files, io);
            let installed = l.installed(index, term, files, io);
            if index <= l.log.snapshot_index {
                &&& result is Ok
                &&& compacted == l
                &&& installed == l
                &&& l.snapshot_ops(index, term, files).len() == 0
            } else {
                &&& compacted.wal == l.snapshot_outcome(index, term, files, io).1
                &&& installed.wal == compacted.wal
                &&& result is Ok ==> {
                    &&& compacted.log.snapshot_index == index
                    &&& compacted.log.snapshot_term == term
                    &&& compacted.log.entries == if index >= reach(l.log) {
                        Seq::empty()
                    } else {
                        l.log.entries.skip(index - l.log.snapshot_index)
                    }
                    &&& installed.log.snapshot_index == index
                    &&& installed.log.snapshot_term == term
                    &&& installed.log.entries == l.log.entries.filter(
                        |e: LogEntryView| e.index > index,
                    )
                }
                &&& result is Err ==> compacted.log == l.log && installed.log == l.log
            }
        }),
{
    if index > l.log.snapshot_index {
        entries_behind_an_index_are_kept(l.log.entries, index);
        if index >= reach(l.log) {
            assert(l.log.entries.skip(l.log.entries.len() as int) =~= Seq::<
                LogEntryView,
            >::empty());
        }
    }
}

/// Recording a snapshot writes its record, makes the record's number the checkpoint, and
/// truncates the WAL before the first number that is still needed; the first of these
/// that fails decides the result. A WAL without room for the record fails at that.
pub proof fn snapshot_is_recorded_checkpointed_truncated(
    l: RaftLogView,
    index: u64,
    term: u64,
    files: FilesView,
    io: OutcomeView,
)
    requires
        index > l.log.snapshot_index,
    ensures
        ({
            let record = seq![3u8] + bytes::le_bytes(index as nat, 8) + bytes::le_bytes(
                term as nat,
                8,
            );
            let a = l.wal.append_ops(record);
            let marked = l.wal.appended(33, io);
            let number = l.wal.next_sequence;
            let b = marked.checkpoint.advance_ops(number);
            let io2 = io.skip(a.len() as int);
            let checked = WalView {
                checkpoint: marked.checkpoint.advanced(number, io2),
                ..marked
            };
            let io3 = io2.skip(b.len() as int);
            let before = log::needed_from(l, index, files);
            let (result, wal) = l.snapshot_outcome(index, term, files, io);
            &&& l.snapshot_result(index, term, files, io) == result
            &&& match l.wal.append_result(33, io) {
                Err(e) => {
                    &&& result == Err::<(), RaftErrorView>(RaftErrorView::Wal(e))
                    &&& wal == marked
                },
                Ok(s) => s == number && match marked.checkpoint.advance_result(number, io2) {
                    Err(e) => {
                        &&& result == Err::<(), RaftErrorView>(RaftErrorView::Wal(e))
                        &&& wal == checked
                    },
                    Ok(_) => {
                        &&& wal == checked.truncated(before, files, io3)
                        &&& result == match checked.truncate_result(before, files, io3) {
                            Ok(_) => Ok::<(), RaftErrorView>(()),
                            Err(e) => Err::<(), RaftErrorView>(RaftErrorView::Wal(e)),
                        }
                    },
                },
            }
            &&& ({
                let sure = l.wal.appended(33, OutcomeView::Done);
                l.snapshot_ops(index, term, files) == if l.wal.append_result(
                    33,
                    OutcomeView::Done,
                ) is Ok {
                    a + sure.checkpoint.advance_ops(number) + sure.truncate_ops(before, files)
                } else {
                    a
                }
            })
        }),
{
}

/// How much of the WAL a snapshot frees: of the records, in front of each segment in
/// turn, so many can be dropped as leave, when the rest is replayed, the very entries
/// behind the snapshot, and not one segment less than that. (`m` is the place among
/// `bounds` of what can be dropped.)
pub proof fn snapshot_frees_all_that_is_not_needed(
    records: Seq<EntryView>,
    bounds: Seq<int>,
    index: u64,
    left: Seq<LogEntryView>,
) -> (m: int)
    requires
        bounds.len() > 0,
        0 <= bounds[0] <= records.len(),
        log::replay(records.skip(bounds[0])).entries.filter(
            |e: LogEntryView| e.index > index,
        ) == left,
    ensures
        0 <= m < bounds.len(),
        log::droppable(records, bounds, index, left) == bounds[m],
        forall|j: int|
            0 <= j <= m ==> (#[trigger] bounds[j]) <= records.len() && log::replay(
                records.skip(bounds[j]),
            ).entries.filter(|e: LogEntryView| e.index > index) == left,
        m + 1 < bounds.len() ==> bounds[m + 1] > records.len() || log::replay(
            records.skip(bounds[m + 1]),
        ).entries.filter(|e: LogEntryView| e.index > index) != left,
{
    assert forall|j: int| 0 <= j < bounds.len() implies (log::is_safe(
        records,
        #[trigger] bounds[j],
        index,
        left,
    ) <==> bounds[j] <= records.len() && log::replay(records.skip(bounds[j])).entries.filter(
        |e: LogEntryView| e.index > index,
    ) == left) by {
        entries_behind_an_index_are_kept(log::replay(records.skip(bounds[j])).entries, index);
    }
    assert(log::is_safe(records, bounds[0], index, left));
    lemma_droppable(records, bounds, index, left)
}

proof fn lemma_droppable(
    records: Seq<EntryView>,
    bounds: Seq<int>,
    index: u64,
    left: Seq<LogEntryView>,
) -> (m: int)
    requires
        bounds.len() > 0,
        log::is_safe(records, bounds[0], index, left),
    ensures
        0 <= m < bounds.len(),
        bounds[m] == log::droppable(records, bounds, index, left),
        forall|j: int| 0 <= j <= m ==> log::is_safe(records, #[trigger] bounds[j], index, left),
        m + 1 < bounds.len() ==> !log::is_safe(records, bounds[m + 1], index, left),
    decreases bounds.len(),
{
    if log::all_safe(records, bounds, index, left) {
        bounds.len() - 1
    } else {
        let head = bounds.drop_last();
        if bounds.len() == 1 {
            assert(log::all_safe(records, bounds, index, left));
        }
        assert(head[0] == bounds[0]);
        let m = lemma_droppable(records, head, index, left);
        assert forall|j: int| 0 <= j <= m implies log::is_safe(
            records,
            #[trigger] bounds[j],
            index,
            left,
        ) by {
            assert(head[j] == bounds[j]);
        }
        assert(bounds[m] == head[m]);
        if m + 1 < head.len() {
            assert(head[m + 1] == bounds[m + 1]);
        } else {
            assert forall|j: int| 0 <= j < head.len() implies log::is_safe(
                records,
                #[trigger] head[j],
                index,
                left,
            ) by {
                assert(bounds[j] == head[j]);
            }
            if log::is_safe(records, bounds[m + 1], index, left) {
                assert forall|j: int| 0 <= j < bounds.len() implies log::is_safe(
                    records,
                    #[trigger] bounds[j],
                    index,
                    left,
                ) by {
                    if j < head.len() {
                        assert(head[j] == bounds[j]);
                    }
                }
            }
        }
        m
    }
}

/// The number before which the WAL is truncated at a snapshot is that of the first record
/// that cannot be dropped, or the marker's own where all can. Where the segments cannot be
/// read, nothing is dropped.
pub proof fn wal_is_truncated_before_the_first_needed_record(
    l: RaftLogView,
    index: u64,
    files: FilesView,
)
    ensures
        ({
            let marked = l.wal.appended(33, OutcomeView::Done);
            let paths = wal::paths_of(marked.dir, marked.sealed);
            match (wal::entries_of(files, l.wal.segment_paths()), wal::entries_of(files, paths)) {
                (Ok(records), Ok(_)) => {
                    let bounds = Seq::new(
                        paths.len() + 1,
                        |j: int| wal::entries_of(files, paths.take(j))->Ok_0.len() as int,
                    );
                    let k = log::droppable(
                        records,
                        bounds,
                        index,
                        l.log.entries.filter(|e: LogEntryView| e.index > index),
                    );
                    &&& 0 <= k < records.len() ==> log::needed_from(l, index, files)
                        == records[k].sequence
                    &&& k >= records.len() ==> log::needed_from(l, index, files)
                        == l.wal.next_sequence
                },
                _ => log::needed_from(l, index, files) == 0,
            }
        }),
{
    entries_behind_an_index_are_kept(l.log.entries, index);
    let marked = l.wal.appended(33, OutcomeView::Done);
    let paths = wal::paths_of(marked.dir, marked.sealed);
    assert(wal::bounds_of(files, paths) =~= Seq::new(
        paths.len() + 1,
        |j: int| wal::entries_of(files, paths.take(j))->Ok_0.len() as int,
    ));
}

/// A log is opened where its WAL is and every record of it can be read, and is then what
/// all these records make, in the order in which they were written. Anything else is the
/// error of the WAL.
pub proof fn log_opens_from_all_records(
    dir: Seq<char>,
    max: u64,
    sync: bool,
    files: FilesView,
    io: OutcomeView,
    reread: FilesView,
)
    ensures
        ({
            let opened = log::open_result(dir, max, sync, files, io, reread);
            match wal::open_result(dir, max, sync, files, io) {
                Err(e) => opened == Err::<RaftLogView, RaftErrorView>(RaftErrorView::Wal(e)),
                Ok(w) => match wal::entries_of(reread, w.segment_paths()) {
                    Err(e) => opened == Err::<RaftLogView, RaftErrorView>(RaftErrorView::Wal(e)),
                    Ok(records) => {
                        &&& opened is Ok
                        &&& opened->Ok_0.wal == w
                        &&& opened->Ok_0.log == log::replay(
                            records.filter(|r: EntryView| r.sequence >= 1),
                        )
                    },
                },
            }
        }),
{
    match wal::open_result(dir, max, sync, files, io) {
        Err(_) => {},
        Ok(w) => {
            match wal::entries_of(reread, w.segment_paths()) {
                Err(_) => {},
                Ok(records) => {
                    calls::entries_are_picked_by_number(records, 1);
                },
            }
        },
    }
}

} // verus!
