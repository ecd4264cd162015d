//! What a [`RaftLog`](crate::wal_replication::raft::log::RaftLog) and the disk
//! it lives on promise together: a restart gives the log back as it was.
use vstd::prelude::*;

use crate::bytes;
use crate::storage;
use crate::storage::{Disk, FaultView, FilesView, OutcomeView};
use crate::wal_core::durability;
use crate::wal_core::entry::{EntryView, HEADER_SIZE};
use crate::wal_core::error::WalErrorView;
use crate::wal_core::power;
use crate::wal_core::power::Device;
use crate::wal_core::segment;
use crate::wal_core::wal;
use crate::wal_core::wal::WalView;
use crate::wal_replication::error::RaftErrorView;
use crate::wal_replication::raft::log;
use crate::wal_replication::raft::log::{
    LogEntryView, LogView, RaftLogView, APPEND_OVERHEAD, SNAPSHOT_LEN, TRUNCATE_LEN,
};

verus! {

/// The WAL agrees with the disk, and its records replay to the log.
pub open spec fn durable(l: RaftLogView, disk: Disk) -> bool {
    durability::intact(l.wal, disk) && log::replay(durability::stored(l.wal, disk)) == l.log
}

/// Every entry stands at its index.
pub open spec fn contiguous(l: LogView) -> bool {
    &&& l.last_index() <= u64::MAX
    &&& forall|i: int|
        0 <= i < l.entries.len() ==> (#[trigger] l.entries[i]).index == l.snapshot_index + 1 + i
}

// ─── Records ─────────────────────────────────────────────────────────────────

proof fn lemma_number_at(head: Seq<u8>, x: u64, rest: Seq<u8>)
    ensures
        log::number_at(head + bytes::le_bytes(x as nat, 8) + rest, head.len() as int) == x,
{
    let raw = head + bytes::le_bytes(x as nat, 8) + rest;
    bytes::lemma_le_bytes_len(x as nat, 8);
    bytes::lemma_byte_range_values();
    bytes::lemma_le_roundtrip(x as nat, 8);
    assert(raw.subrange(head.len() as int, head.len() as int + 8) =~= bytes::le_bytes(x as nat, 8));
}

/// Replaying the record of an operation is that operation.
pub proof fn records_replay_as_written(l: LogView, e: LogEntryView, index: u64, term: u64)
    ensures
        l.replayed(log::append_record(e)) == l.with_entry(e),
        l.replayed(log::truncate_record(index)) == l.cut_at(index),
        l.replayed(log::snapshot_record(index, term)) == l.with_snapshot(index, term),
{
    log::lemma_record_lens(e, index, term);
    let none = Seq::<u8>::empty();
    // APPEND
    let raw = log::append_record(e);
    let a = bytes::le_bytes(e.index as nat, 8);
    let b = bytes::le_bytes(e.term as nat, 8);
    bytes::lemma_le_bytes_len(e.index as nat, 8);
    bytes::lemma_le_bytes_len(e.term as nat, 8);
    assert(raw.skip(1) =~= none + a + (b + e.data));
    assert(raw.skip(1) =~= a + b + e.data);
    lemma_number_at(none, e.index, b + e.data);
    lemma_number_at(a, e.term, e.data);
    assert(raw.skip(1).skip(16) =~= e.data);
    assert(raw[0] == log::KIND_APPEND);
    assert(log::decoded_append(raw.skip(1)) == Some(e));
    // TRUNCATE
    let cut = log::truncate_record(index);
    assert(cut =~= seq![log::KIND_TRUNCATE] + bytes::le_bytes(index as nat, 8) + none);
    lemma_number_at(seq![log::KIND_TRUNCATE], index, none);
    assert(cut[0] == log::KIND_TRUNCATE);
    // SNAPSHOT
    let mark = log::snapshot_record(index, term);
    let c = bytes::le_bytes(index as nat, 8);
    let d = bytes::le_bytes(term as nat, 8);
    bytes::lemma_le_bytes_len(index as nat, 8);
    assert(mark =~= seq![log::KIND_SNAPSHOT] + c + d);
    assert(mark =~= (seq![log::KIND_SNAPSHOT] + c) + d + none);
    lemma_number_at(seq![log::KIND_SNAPSHOT], index, d);
    lemma_number_at(seq![log::KIND_SNAPSHOT] + c, term, none);
    assert(mark[0] == log::KIND_SNAPSHOT);
}

proof fn lemma_replay_push(records: Seq<EntryView>, r: EntryView)
    ensures
        log::replay(records.push(r)) == log::replay(records).replayed(r.data),
{
    assert(records.push(r).drop_last() =~= records);
}

// ─── Appending and truncating ────────────────────────────────────────────────

/// An appended entry is in the log, under the index that is returned, and it is
/// in the records that a restart replays.
pub proof fn appended_entry_is_durable(l: RaftLogView, disk: Disk, term: u64, data: Seq<u8>)
    requires
        durable(l, disk),
        l.can_append(data.len() as int),
        17 + data.len() <= u32::MAX,
        APPEND_OVERHEAD + data.len() <= l.wal.max_segment_bytes,
    ensures
        ({
            let after = l.appended(term, data, OutcomeView::Done);
            let disk2 = storage::all_applied(disk, l.append_ops(term, data));
            &&& l.append_result(data.len() as int, OutcomeView::Done) == Ok::<u64, RaftErrorView>(
                (l.log.last_index() + 1) as u64,
            )
            &&& after.log.entries == l.log.entries.push(l.next_entry(term, data))
            &&& durable(after, disk2)
            &&& contiguous(l.log) ==> contiguous(after.log)
        }),
{
    let e = l.next_entry(term, data);
    let record = log::append_record(e);
    log::lemma_record_lens(e, 0, 0);
    durability::append_adds_the_entry(l.wal, disk, record);
    let r = EntryView { sequence: l.wal.next_sequence, data: record };
    lemma_replay_push(durability::stored(l.wal, disk), r);
    records_replay_as_written(l.log, e, 0, 0);
    assert(l.log.with_entry(e).entries == l.log.entries.push(e));
}

/// A truncation removes the entries from its index on, every one behind the snapshot
/// where it reaches into that, and a restart finds them removed.
pub proof fn truncation_is_durable(l: RaftLogView, disk: Disk, from: u64)
    requires
        durable(l, disk),
        l.log.last_index() <= u64::MAX,
        l.wal.can_append(TRUNCATE_LEN as int),
        TRUNCATE_LEN <= l.wal.max_segment_bytes,
    ensures
        ({
            let after = l.truncated(from, OutcomeView::Done);
            let disk2 = storage::all_applied(disk, l.truncate_ops(from));
            &&& l.truncate_result(from, OutcomeView::Done) is Ok
            &&& after.log == without(l.log, from)
            &&& durable(after, disk2)
            &&& contiguous(l.log) ==> contiguous(after.log)
            &&& contiguous(l.log) ==> forall|i: int|
                0 <= i < after.log.entries.len() ==> (#[trigger] after.log.entries[i]).index < from
        }),
{
    if l.can_cut(from) {
        let at = l.cut_point(from);
        let record = log::truncate_record(at);
        let e = LogEntryView { term: 0, index: 0, data: Seq::empty() };
        log::lemma_record_lens(e, at, 0);
        durability::append_adds_the_entry(l.wal, disk, record);
        let r = EntryView { sequence: l.wal.next_sequence, data: record };
        lemma_replay_push(durability::stored(l.wal, disk), r);
        records_replay_as_written(l.log, e, at, 0);
        assert(l.log.cut_at(at) == without(l.log, from));
    } else {
        assert(storage::all_applied(disk, l.truncate_ops(from)) == disk);
        assert(l.log.entries.take(l.log.entries.len() as int) =~= l.log.entries);
    }
}

/// `l` without its entries from index `from` on.
pub open spec fn without(l: LogView, from: u64) -> LogView {
    LogView {
        entries: l.entries.take(
            if from <= l.snapshot_index {
                0
            } else if from > l.last_index() {
                l.entries.len() as int
            } else {
                from - l.snapshot_index - 1
            },
        ),
        ..l
    }
}

// ─── Reopening ───────────────────────────────────────────────────────────────

proof fn lemma_read_all(w: WalView, disk: Disk, files: FilesView)
    requires
        durability::intact(w, disk),
        storage::read_from_disk(files, disk),
    ensures
        w.read_result(1, files) == Ok::<Seq<EntryView>, WalErrorView>(durability::stored(w, disk)),
{
    let all = durability::stored(w, disk);
    durability::read_returns_what_is_stored(w, disk, files, 1);
    durability::since_is_a_suffix(all, w.next_sequence, 1);
    assert(all.skip(0) =~= all);
}

/// A restart gives the log back as it was left.
pub proof fn reopening_restores_the_log(
    l: RaftLogView,
    disk: Disk,
    files: FilesView,
    reread: FilesView,
)
    requires
        durable(l, disk),
        storage::read_from_disk(files, disk),
        storage::read_from_disk(
            reread,
            storage::all_applied(disk, wal::open_ops(l.wal.dir, files)),
        ),
    ensures
        log::open_result(
            l.wal.dir,
            l.wal.max_segment_bytes,
            l.wal.sync_writes,
            files,
            OutcomeView::Done,
            reread,
        ) == Ok::<RaftLogView, RaftErrorView>(l),
        wal::openable(l.wal.dir, files, OutcomeView::Done),
        storage::all_applied(disk, wal::open_ops(l.wal.dir, files)) == disk,
{
    let w = l.wal;
    durability::reopening_restores_the_wal(w, disk, files, w.max_segment_bytes, w.sync_writes);
    assert(durability::reconfigured(w, w.max_segment_bytes, w.sync_writes) == w);
    lemma_read_all(w, disk, reread);
}

/// A directory without segments opens as an empty log.
pub proof fn fresh_log_is_durable(
    dir: Seq<char>,
    max_segment_bytes: u64,
    sync_writes: bool,
    disk: Disk,
    files: FilesView,
    reread: FilesView,
)
    requires
        storage::read_from_disk(files, disk),
        storage::read_from_disk(reread, storage::all_applied(disk, wal::open_ops(dir, files))),
        forall|path: Seq<char>| #[trigger]
            disk.contains_key(path) ==> !segment::is_segment_file(path),
    ensures
        ({
            let opened = log::open_result(
                dir,
                max_segment_bytes,
                sync_writes,
                files,
                OutcomeView::Done,
                reread,
            );
            let disk2 = storage::all_applied(disk, wal::open_ops(dir, files));
            &&& opened is Ok
            &&& opened->Ok_0.log == log::empty_log()
            &&& contiguous(opened->Ok_0.log)
            &&& durable(opened->Ok_0, disk2)
        }),
{
    let disk2 = storage::all_applied(disk, wal::open_ops(dir, files));
    durability::fresh_wal_is_intact(dir, max_segment_bytes, sync_writes, disk, files);
    let w = wal::open_result(dir, max_segment_bytes, sync_writes, files, OutcomeView::Done)->Ok_0;
    lemma_read_all(w, disk2, reread);
}

/// After a crash that left `after`, the log opens from `files`, is durable on the disk
/// that opening it leaves, and is one of `before` and `done`.
pub open spec fn recovered_as(
    l: RaftLogView,
    after: Disk,
    files: FilesView,
    reread: FilesView,
    before: LogView,
    done: LogView,
) -> bool {
    let disk2 = storage::all_applied(after, wal::open_ops(l.wal.dir, files));
    &&& wal::openable(l.wal.dir, files, OutcomeView::Done)
    &&& log::open_result(
        l.wal.dir,
        l.wal.max_segment_bytes,
        l.wal.sync_writes,
        files,
        OutcomeView::Done,
        reread,
    ) matches Ok(again)
    &&& durable(again, disk2)
    &&& again.log == before || again.log == done
}

/// A crash while the record `record` is appended leaves the log without it or with
/// it.
proof fn lemma_crash_in_record(
    l: RaftLogView,
    disk: Disk,
    record: Seq<u8>,
    after: Disk,
    files: FilesView,
    reread: FilesView,
)
    requires
        durable(l, disk),
        record.len() <= u32::MAX,
        HEADER_SIZE + record.len() <= l.wal.max_segment_bytes,
        l.wal.can_append(HEADER_SIZE + record.len()),
        storage::crashed(disk, l.wal.append_ops(record), after),
        storage::read_from_disk(files, after),
        storage::read_from_disk(
            reread,
            storage::all_applied(after, wal::open_ops(l.wal.dir, files)),
        ),
    ensures
        recovered_as(l, after, files, reread, l.log, l.log.replayed(record)),
{
    durability::append_survives_a_crash(l.wal, disk, record, after, files);
    let disk2 = storage::all_applied(after, wal::open_ops(l.wal.dir, files));
    let again = wal::open_result(
        l.wal.dir,
        l.wal.max_segment_bytes,
        l.wal.sync_writes,
        files,
        OutcomeView::Done,
    )->Ok_0;
    lemma_read_all(again, disk2, reread);
    let r = EntryView { sequence: l.wal.next_sequence, data: record };
    let records = durability::stored(l.wal, disk);
    lemma_replay_push(records, r);
}

/// A log whose segments are on the device opens as it was after a loss of power.
pub proof fn log_outlives_a_power_loss(
    l: RaftLogView,
    disk: Disk,
    device: Device,
    after: Disk,
    files: FilesView,
    reread: FilesView,
)
    requires
        durable(l, disk),
        power::settled(l.wal.dir, disk, device),
        power::power_lost(disk, device, after),
        storage::read_from_disk(files, after),
        storage::read_from_disk(
            reread,
            storage::all_applied(after, wal::open_ops(l.wal.dir, files)),
        ),
    ensures
        recovered_as(l, after, files, reread, l.log, l.log),
{
    power::power_loss_keeps_what_is_on_the_device(l.wal, disk, device, after, files);
    let disk2 = storage::all_applied(after, wal::open_ops(l.wal.dir, files));
    let again = wal::open_result(
        l.wal.dir,
        l.wal.max_segment_bytes,
        l.wal.sync_writes,
        files,
        OutcomeView::Done,
    )->Ok_0;
    lemma_read_all(again, disk2, reread);
}

/// A loss of power while the record `record` is appended leaves the log without it or
/// with it.
pub proof fn record_outlives_a_power_loss(
    l: RaftLogView,
    disk: Disk,
    device: Device,
    record: Seq<u8>,
    after: Disk,
    files: FilesView,
    reread: FilesView,
)
    requires
        durable(l, disk),
        power::settled(l.wal.dir, disk, device),
        record.len() <= u32::MAX,
        l.wal.can_append(HEADER_SIZE + record.len()),
        power::cut_off(disk, device, l.wal.append_ops(record), after),
        storage::read_from_disk(files, after),
        storage::read_from_disk(
            reread,
            storage::all_applied(after, wal::open_ops(l.wal.dir, files)),
        ),
    ensures
        recovered_as(l, after, files, reread, l.log, l.log.replayed(record)),
{
    power::append_outlives_a_power_loss(l.wal, disk, device, record, after, files);
    let disk2 = storage::all_applied(after, wal::open_ops(l.wal.dir, files));
    let again = wal::open_result(
        l.wal.dir,
        l.wal.max_segment_bytes,
        l.wal.sync_writes,
        files,
        OutcomeView::Done,
    )->Ok_0;
    lemma_read_all(again, disk2, reread);
    let r = EntryView { sequence: l.wal.next_sequence, data: record };
    lemma_replay_push(durability::stored(l.wal, disk), r);
}

/// A crash in the middle of an append leaves a log that opens as it was, or with
/// the new entry.
pub proof fn log_survives_a_crash_in_append(
    l: RaftLogView,
    disk: Disk,
    term: u64,
    data: Seq<u8>,
    after: Disk,
    files: FilesView,
    reread: FilesView,
)
    requires
        durable(l, disk),
        l.can_append(data.len() as int),
        17 + data.len() <= u32::MAX,
        APPEND_OVERHEAD + data.len() <= l.wal.max_segment_bytes,
        storage::crashed(disk, l.append_ops(term, data), after),
        storage::read_from_disk(files, after),
        storage::read_from_disk(
            reread,
            storage::all_applied(after, wal::open_ops(l.wal.dir, files)),
        ),
    ensures
        recovered_as(
            l,
            after,
            files,
            reread,
            l.log,
            l.appended(term, data, OutcomeView::Done).log,
        ),
{
    let e = l.next_entry(term, data);
    let record = log::append_record(e);
    log::lemma_record_lens(e, 0, 0);
    records_replay_as_written(l.log, e, 0, 0);
    assert(l.log.with_entry(e).entries == l.log.entries.push(e));
    lemma_crash_in_record(l, disk, record, after, files, reread);
    durability::append_adds_the_entry(l.wal, disk, record);
}

/// A crash in the middle of a truncation leaves a log that opens as it was, or with
/// the entries removed.
pub proof fn log_survives_a_crash_in_truncation(
    l: RaftLogView,
    disk: Disk,
    from: u64,
    after: Disk,
    files: FilesView,
    reread: FilesView,
)
    requires
        durable(l, disk),
        l.log.last_index() <= u64::MAX,
        l.wal.can_append(TRUNCATE_LEN as int),
        TRUNCATE_LEN <= l.wal.max_segment_bytes,
        storage::crashed(disk, l.truncate_ops(from), after),
        storage::read_from_disk(files, after),
        storage::read_from_disk(
            reread,
            storage::all_applied(after, wal::open_ops(l.wal.dir, files)),
        ),
    ensures
        recovered_as(l, after, files, reread, l.log, without(l.log, from)),
{
    let at = l.cut_point(from);
    let record = log::truncate_record(at);
    let e = LogEntryView { term: 0, index: 0, data: Seq::empty() };
    log::lemma_record_lens(e, at, 0);
    records_replay_as_written(l.log, e, at, 0);
    assert(l.can_cut(from) ==> l.log.cut_at(at) == without(l.log, from));
    if l.can_cut(from) {
        lemma_crash_in_record(l, disk, record, after, files, reread);
    } else {
        assert(after == disk);
        reopening_restores_the_log(l, disk, files, reread);
    }
}

// ─── Snapshots ───────────────────────────────────────────────────────────────

/// Of a contiguous log, the entries behind an index are a suffix.
proof fn lemma_after(entries: Seq<LogEntryView>, base: int, index: u64)
    requires
        forall|i: int|
            0 <= i < entries.len() ==> (#[trigger] entries[i]).index == base + 1 + i,
    ensures
        log::after(entries, index) == entries.skip(
            if index <= base {
                0
            } else if index >= base + entries.len() {
                entries.len() as int
            } else {
                index - base
            },
        ),
    decreases entries.len(),
{
    if entries.len() > 0 {
        let head = entries.drop_last();
        assert(entries[entries.len() - 1] == entries.last());
        assert forall|i: int| 0 <= i < head.len() implies (#[trigger] head[i]).index == base + 1
            + i by {
            assert(head[i] == entries[i]);
        }
        lemma_after(head, base, index);
        let cut = if index <= base {
            0
        } else if index >= base + entries.len() {
            entries.len() as int
        } else {
            index - base
        };
        assert(log::after(entries, index) =~= entries.skip(cut));
    } else {
        assert(entries.skip(0) =~= Seq::<LogEntryView>::empty());
    }
}

/// Compacting a contiguous log and installing a snapshot in it come to the same,
/// and leave exactly the entries behind the snapshot, each at its index.
pub proof fn compacting_keeps_later_entries(
    l: RaftLogView,
    index: u64,
    term: u64,
    files: FilesView,
    io: OutcomeView,
)
    requires
        contiguous(l.log),
    ensures
        l.compacted(index, term, files, io) == l.installed(index, term, files, io),
        contiguous(l.compacted(index, term, files, io).log),
        forall|i: u64|
            index < i <= l.log.last_index() ==> #[trigger] l.compacted(
                index,
                term,
                files,
                io,
            ).log.term_at(i) == l.log.term_at(i),
{
    lemma_after(l.log.entries, l.log.snapshot_index as int, index);
    let done = l.compacted(index, term, files, io).log;
    if index > l.log.snapshot_index && l.snapshot_result(index, term, files, io) is Ok {
        let upto = if index < l.log.last_index() {
            index as int
        } else {
            l.log.last_index()
        };
        let cut = upto - l.log.snapshot_index;
        assert(done.entries == l.log.entries.skip(cut));
        assert forall|i: int| 0 <= i < done.entries.len() implies (
        #[trigger] done.entries[i]).index == index + 1 + i by {
            assert(done.entries[i] == l.log.entries[cut + i]);
        }
    }
}

/// What was read of the sealed segments before a snapshot is still so when the
/// snapshot's marker and the checkpoint have been written.
proof fn lemma_marked_wal_is_shown(
    l: RaftLogView,
    disk: Disk,
    index: u64,
    term: u64,
    files: FilesView,
)
    requires
        durability::intact(l.wal, disk),
        l.wal.can_append(SNAPSHOT_LEN as int),
        SNAPSHOT_LEN <= l.wal.max_segment_bytes,
        storage::read_from_disk(files, disk),
    ensures
        ({
            let record = log::snapshot_record(index, term);
            let sequence = l.wal.next_sequence;
            let marked = l.wal.appended(SNAPSHOT_LEN as int, OutcomeView::Done);
            let checked = WalView {
                checkpoint: marked.checkpoint.advanced(sequence, OutcomeView::Done),
                ..marked
            };
            let disk_a = storage::all_applied(disk, l.wal.append_ops(record));
            let disk_b = storage::all_applied(disk_a, marked.checkpoint.advance_ops(sequence));
            durability::sealed_shown(checked, disk_b, files)
        }),
{
    let record = log::snapshot_record(index, term);
    let e = LogEntryView { term: 0, index: 0, data: Seq::empty() };
    log::lemma_record_lens(e, index, term);
    let sequence = l.wal.next_sequence;
    assert(HEADER_SIZE + record.len() == SNAPSHOT_LEN);
    durability::append_spares_sealed_segments(l.wal, disk, record);
    let marked = l.wal.appended(SNAPSHOT_LEN as int, OutcomeView::Done);
    let disk_a = storage::all_applied(disk, l.wal.append_ops(record));
    let disk_b = storage::all_applied(disk_a, marked.checkpoint.advance_ops(sequence));
    assert forall|i: int| 0 <= i < marked.sealed.len() implies storage::shows(
        files,
        disk_b,
        segment::path_of(marked.dir, #[trigger] marked.sealed[i]),
    ) by {
        let path = segment::path_of(marked.dir, marked.sealed[i]);
        storage::lemma_lookup_on_disk(files, disk, path);
        assert(marked.dir == l.wal.dir);
        assert(storage::same_file(disk_a, disk, path));
        durability::checkpoint_spares_segments(marked, disk_a, sequence, marked.sealed[i]);
    }
}

/// The WAL while a snapshot is recorded, once its marker and the checkpoint are
/// written.
spec fn checked_wal(l: RaftLogView) -> WalView {
    let marked = l.wal.appended(SNAPSHOT_LEN as int, OutcomeView::Done);
    WalView {
        checkpoint: marked.checkpoint.advanced(l.wal.next_sequence, OutcomeView::Done),
        ..marked
    }
}

/// The steps of recording a snapshot: the marker, the checkpoint, and the segments
/// that the snapshot covers.
proof fn lemma_snapshot_steps(
    l: RaftLogView,
    disk: Disk,
    index: u64,
    term: u64,
    files: FilesView,
)
    requires
        durable(l, disk),
        index > l.log.snapshot_index,
        l.wal.can_append(SNAPSHOT_LEN as int),
        SNAPSHOT_LEN <= l.wal.max_segment_bytes,
        storage::read_from_disk(files, disk),
    ensures
        ({
            let record = log::snapshot_record(index, term);
            let sequence = l.wal.next_sequence;
            let r = EntryView { sequence, data: record };
            let marked = l.wal.appended(SNAPSHOT_LEN as int, OutcomeView::Done);
            let checked = checked_wal(l);
            let before = log::needed_from(l, index, files);
            let a = l.wal.append_ops(record);
            let b = marked.checkpoint.advance_ops(sequence);
            let c = checked.truncate_ops(before, files);
            let disk_a = storage::all_applied(disk, a);
            let disk_b = storage::all_applied(disk_a, b);
            let all = durability::stored(l.wal, disk).push(r);
            &&& record.len() == 17
            &&& durability::intact(marked, disk_a)
            &&& durability::stored(marked, disk_a) == all
            &&& durability::intact(checked, disk_b)
            &&& durability::stored(checked, disk_b) == all
            &&& durability::sealed_shown(checked, disk_b, files)
            &&& l.snapshot_ops(index, term, files) == a + b + c
            &&& l.snapshot_outcome(index, term, files, OutcomeView::Done) == (
                crate::wal_replication::error::lifted(
                    checked.truncate_result(before, files, OutcomeView::Done),
                ),
                checked.truncated(before, files, OutcomeView::Done),
            )
            &&& forall|k: int|
                0 <= k <= durability::stored_sealed(checked, disk_b).len() && durability::at_bound(
                    disk_b,
                    checked.dir,
                    checked.sealed,
                    k,
                ) && (forall|i: int| 0 <= i < k ==> (#[trigger] all[i]).sequence < before)
                    ==> replays_to_snapshot(#[trigger] all.skip(k), l.log, index, term)
        }),
{
    let io = OutcomeView::Done;
    let record = log::snapshot_record(index, term);
    let sequence = l.wal.next_sequence;
    let r = EntryView { sequence, data: record };
    let e = LogEntryView { term: 0, index: 0, data: Seq::empty() };
    log::lemma_record_lens(e, index, term);
    durability::append_adds_the_entry(l.wal, disk, record);
    let marked = l.wal.appended(SNAPSHOT_LEN as int, io);
    let checked = checked_wal(l);
    let a = l.wal.append_ops(record);
    let disk_a = storage::all_applied(disk, a);
    let b = marked.checkpoint.advance_ops(sequence);
    let disk_b = storage::all_applied(disk_a, b);
    let records = durability::stored(l.wal, disk);
    let all = records.push(r);
    durability::checkpoint_keeps_entries(marked, disk_a, sequence);
    lemma_marked_wal_is_shown(l, disk, index, term, files);
    durability::sealed_entries_are_stored(checked, disk_b, files);
    durability::read_returns_what_is_stored(l.wal, disk, files, 0);
    assert(marked.sealed_entries(files) == checked.sealed_entries(files));
    let before = log::needed_from(l, index, files);
    assert(marked.truncate_ops(before, files) == checked.truncate_ops(before, files));
    assert(io.skip(a.len() as int) == io);
    assert(io.skip(b.len() as int) == io);
    let left = log::after(l.log.entries, index);
    let bounds = wal::bounds_of(files, wal::paths_of(marked.dir, marked.sealed));
    assert forall|j: int| 0 <= j <= marked.sealed.len() implies #[trigger] bounds[j]
        == durability::stored_in(
        disk_b,
        wal::paths_of(marked.dir, marked.sealed.take(j)),
    ).len() by {
        durability::lemma_bound(checked, disk_b, files, j);
    }
    assert(records.skip(0) =~= records);
    assert(wal::paths_of(marked.dir, marked.sealed.take(0)) =~= Seq::<Seq<char>>::empty());
    assert(bounds[0] == 0);
    let m = log::lemma_droppable_is_safe(records, bounds, index, left);
    let sealed = durability::stored_sealed(checked, disk_b);
    assert(checked.active.size > 0);
    assert forall|k: int|
        0 <= k <= sealed.len() && durability::at_bound(
            disk_b,
            checked.dir,
            checked.sealed,
            k,
        ) && (forall|i: int|
            0 <= i < k ==> (#[trigger] all[i]).sequence < before) implies replays_to_snapshot(
        #[trigger] all.skip(k),
        l.log,
        index,
        term,
    ) by {
        let j = choose|j: int|
            0 <= j <= checked.sealed.len() && k == durability::stored_in(
                disk_b,
                wal::paths_of(checked.dir, #[trigger] checked.sealed.take(j)),
            ).len();
        assert(k == bounds[j]);
        if k > bounds[m] {
            assert(records[bounds[m]] == all[bounds[m]]);
            assert(all[bounds[m]].sequence < before);
            assert(false);
        }
        if j > m {
            durability::lemma_bounds_grow(disk_b, checked.dir, checked.sealed, m, j);
            assert(k == bounds[m]);
        }
        assert(log::is_safe(records, k, index, left));
        let rest = records.skip(k);
        assert(all.skip(k) =~= rest.push(r));
        lemma_replay_push(rest, r);
        records_replay_as_written(log::replay(rest), e, index, term);
    }
}

/// The records replay to `before` with a snapshot up to `index` in it.
spec fn replays_to_snapshot(
    records: Seq<EntryView>,
    before: LogView,
    index: u64,
    term: u64,
) -> bool {
    log::replay(records) == before.with_snapshot(index, term)
}

/// A snapshot is durable: whatever segments it let go, a restart finds the snapshot,
/// and every entry behind it.
pub proof fn snapshot_is_durable(
    l: RaftLogView,
    disk: Disk,
    index: u64,
    term: u64,
    files: FilesView,
)
    requires
        durable(l, disk),
        index > l.log.snapshot_index,
        l.wal.can_append(SNAPSHOT_LEN as int),
        SNAPSHOT_LEN <= l.wal.max_segment_bytes,
        storage::read_from_disk(files, disk),
    ensures
        ({
            let done = l.installed(index, term, files, OutcomeView::Done);
            let disk2 = storage::all_applied(disk, l.snapshot_ops(index, term, files));
            &&& l.snapshot_result(index, term, files, OutcomeView::Done) is Ok
            &&& done.log == l.log.with_snapshot(index, term)
            &&& durable(done, disk2)
            &&& contiguous(l.log) ==> l.compacted(index, term, files, OutcomeView::Done) == done
        }),
{
    let io = OutcomeView::Done;
    lemma_snapshot_steps(l, disk, index, term, files);
    let record = log::snapshot_record(index, term);
    let sequence = l.wal.next_sequence;
    let marked = l.wal.appended(SNAPSHOT_LEN as int, io);
    let checked = checked_wal(l);
    let before = log::needed_from(l, index, files);
    let a = l.wal.append_ops(record);
    let b = marked.checkpoint.advance_ops(sequence);
    let c = checked.truncate_ops(before, files);
    let disk_b = storage::all_applied(storage::all_applied(disk, a), b);
    durability::truncate_keeps_later_entries(checked, disk_b, files, before);
    storage::lemma_all_applied_concat(disk, a, b);
    storage::lemma_all_applied_concat(disk, a + b, c);
    let all = durability::stored(checked, disk_b);
    let k = choose|k: int|
        0 <= k <= durability::stored_sealed(checked, disk_b).len() && durability::stored(
            checked.truncated(before, files, io),
            storage::all_applied(disk_b, c),
        ) == #[trigger] all.skip(k) && durability::at_bound(
            disk_b,
            checked.dir,
            checked.sealed,
            k,
        ) && forall|i: int|
            0 <= i < k ==> (#[trigger] all[i]).sequence < before;
    assert(replays_to_snapshot(all.skip(k), l.log, index, term));
    if contiguous(l.log) {
        compacting_keeps_later_entries(l, index, term, files, io);
    }
}

/// A crash in the middle of a compaction, or while a snapshot is installed, leaves a
/// log that opens as it was, or with the snapshot in it and every entry behind the
/// snapshot.
pub proof fn log_survives_a_crash_in_snapshot(
    l: RaftLogView,
    disk: Disk,
    index: u64,
    term: u64,
    files: FilesView,
    after: Disk,
    later: FilesView,
    reread: FilesView,
)
    requires
        durable(l, disk),
        index > l.log.snapshot_index,
        l.wal.can_append(SNAPSHOT_LEN as int),
        SNAPSHOT_LEN <= l.wal.max_segment_bytes,
        storage::read_from_disk(files, disk),
        storage::crashed(disk, l.snapshot_ops(index, term, files), after),
        storage::read_from_disk(later, after),
        storage::read_from_disk(
            reread,
            storage::all_applied(after, wal::open_ops(l.wal.dir, later)),
        ),
    ensures
        recovered_as(l, after, later, reread, l.log, l.log.with_snapshot(index, term)),
{
    let io = OutcomeView::Done;
    lemma_snapshot_steps(l, disk, index, term, files);
    let w = l.wal;
    let record = log::snapshot_record(index, term);
    let sequence = w.next_sequence;
    let marked = w.appended(SNAPSHOT_LEN as int, io);
    let checked = checked_wal(l);
    let before = log::needed_from(l, index, files);
    let a = w.append_ops(record);
    let b = marked.checkpoint.advance_ops(sequence);
    let c = checked.truncate_ops(before, files);
    let disk_a = storage::all_applied(disk, a);
    let disk_b = storage::all_applied(disk_a, b);
    let all = durability::stored(checked, disk_b);
    assert(all.skip(0) =~= all);
    assert(wal::paths_of(checked.dir, checked.sealed.take(0)) =~= Seq::<Seq<char>>::empty());
    assert(durability::at_bound(disk_b, checked.dir, checked.sealed, 0));
    assert(replays_to_snapshot(all.skip(0), l.log, index, term));
    storage::lemma_all_applied_concat(disk, a, b);
    storage::lemma_crashed_concat(disk, a + b, c, after);
    if storage::crashed(disk_b, c, after) {
        durability::truncation_survives_a_crash(checked, disk_b, files, before, after);
        let again = choose|again: WalView| #[trigger]
            durability::shortened(again, after, checked, disk_b, before);
        let k = choose|k: int|
            0 <= k <= durability::stored_sealed(checked, disk_b).len() && durability::stored(
                again,
                after,
            ) == #[trigger] durability::stored(checked, disk_b).skip(k) && durability::at_bound(
                disk_b,
                checked.dir,
                checked.sealed,
                k,
            ) && forall|i: int|
                0 <= i < k ==> (#[trigger] durability::stored(checked, disk_b)[i]).sequence
                    < before;
        assert(replays_to_snapshot(all.skip(k), l.log, index, term));
        lemma_opens_with_snapshot(l, again, after, index, term, later, reread);
    } else {
        storage::lemma_crashed_concat(disk, a, b, after);
        if storage::crashed(disk_a, b, after) {
            durability::checkpoint_crash_keeps_entries(marked, disk_a, sequence, after);
            let again = if durability::intact(marked, after) && durability::stored(marked, after)
                == all {
                marked
            } else {
                checked
            };
            lemma_opens_with_snapshot(l, again, after, index, term, later, reread);
        } else {
            let e = LogEntryView { term: 0, index: 0, data: Seq::empty() };
            records_replay_as_written(l.log, e, index, term);
            lemma_crash_in_record(l, disk, record, after, later, reread);
        }
    }
}

/// What a snapshot comes to whose marker was written and that then failed.
proof fn lemma_failed_behind_marker(
    l: RaftLogView,
    index: u64,
    term: u64,
    files: FilesView,
    at: int,
    fault: FaultView,
)
    requires
        index > l.log.snapshot_index,
        l.wal.append_result(SNAPSHOT_LEN as int, OutcomeView::Done) is Ok,
        l.wal.append_ops(log::snapshot_record(index, term)).len() <= at < l.snapshot_ops(
            index,
            term,
            files,
        ).len(),
    ensures
        l.snapshot_outcome(index, term, files, OutcomeView::Failed(at, fault)).0 == Err::<
            (),
            RaftErrorView,
        >(RaftErrorView::Wal(WalErrorView::Io(fault))),
{
    let io = OutcomeView::Failed(at, fault);
    let w = l.wal;
    let record = log::snapshot_record(index, term);
    let a = w.append_ops(record);
    let e = LogEntryView { term: 0, index: 0, data: Seq::empty() };
    log::lemma_record_lens(e, index, term);
    crate::wal_core::entry::lemma_encoded_len(w.next_sequence, record);
    let marked = w.appended(SNAPSHOT_LEN as int, OutcomeView::Done);
    assert(OutcomeView::Done.skip(2) == OutcomeView::Done);
    assert(w.append_result(SNAPSHOT_LEN as int, io) == w.append_result(
        SNAPSHOT_LEN as int,
        OutcomeView::Done,
    ));
    assert(w.appended(SNAPSHOT_LEN as int, io) == marked);
    let b = marked.checkpoint.advance_ops(w.next_sequence);
    let before = log::needed_from(l, index, files);
    let io2 = io.skip(a.len() as int);
    let checked = WalView {
        checkpoint: marked.checkpoint.advanced(w.next_sequence, io2),
        ..marked
    };
    assert(checked.truncate_ops(before, files) == marked.truncate_ops(before, files));
}

/// A snapshot whose marker was written, and whose checkpoint or truncation then
/// failed, is reported as failed and leaves the log as it is; a restart finds the log
/// with the snapshot in it and every entry behind the snapshot.
pub proof fn failed_snapshot_is_found_at_a_restart(
    l: RaftLogView,
    disk: Disk,
    index: u64,
    term: u64,
    files: FilesView,
    at: int,
    fault: FaultView,
    after: Disk,
    later: FilesView,
    reread: FilesView,
)
    requires
        durable(l, disk),
        index > l.log.snapshot_index,
        l.wal.can_append(SNAPSHOT_LEN as int),
        SNAPSHOT_LEN <= l.wal.max_segment_bytes,
        storage::read_from_disk(files, disk),
        storage::failed_at(disk, l.snapshot_ops(index, term, files), at, after),
        at >= l.wal.append_ops(log::snapshot_record(index, term)).len(),
        storage::read_from_disk(later, after),
        storage::read_from_disk(
            reread,
            storage::all_applied(after, wal::open_ops(l.wal.dir, later)),
        ),
    ensures
        ({
            let io = OutcomeView::Failed(at, fault);
            let with = l.log.with_snapshot(index, term);
            &&& l.snapshot_result(index, term, files, io) == Err::<(), RaftErrorView>(
                RaftErrorView::Wal(WalErrorView::Io(fault)),
            )
            &&& l.compacted(index, term, files, io).log == l.log
            &&& l.installed(index, term, files, io).log == l.log
            &&& recovered_as(l, after, later, reread, with, with)
        }),
{
    lemma_snapshot_steps(l, disk, index, term, files);
    let w = l.wal;
    let record = log::snapshot_record(index, term);
    let sequence = w.next_sequence;
    let marked = w.appended(SNAPSHOT_LEN as int, OutcomeView::Done);
    let checked = checked_wal(l);
    let before = log::needed_from(l, index, files);
    let a = w.append_ops(record);
    let b = marked.checkpoint.advance_ops(sequence);
    let c = checked.truncate_ops(before, files);
    let disk_a = storage::all_applied(disk, a);
    let disk_b = storage::all_applied(disk_a, b);
    let all = durability::stored(checked, disk_b);
    assert(w.append_result(SNAPSHOT_LEN as int, OutcomeView::Done) is Ok) by {
        durability::append_adds_the_entry(w, disk, record);
    }
    lemma_failed_behind_marker(l, index, term, files, at, fault);
    storage::lemma_all_applied_concat(disk, a, b);
    storage::lemma_failed_concat(disk, a + b, c, at, after);
    assert(all.skip(0) =~= all);
    assert(wal::paths_of(checked.dir, checked.sealed.take(0)) =~= Seq::<Seq<char>>::empty());
    assert(durability::at_bound(disk_b, checked.dir, checked.sealed, 0));
    assert(replays_to_snapshot(all.skip(0), l.log, index, term));
    if at < (a + b).len() {
        storage::lemma_failed_concat(disk, a, b, at, after);
        durability::failed_checkpoint_changes_nothing(
            marked,
            disk_a,
            sequence,
            at - a.len(),
            after,
        );
        lemma_opens_with_snapshot(l, marked, after, index, term, later, reread);
    } else {
        let j = at - (a + b).len();
        durability::lemma_truncation_appends_nothing(checked, files, before);
        storage::failure_leaves_what_a_crash_can(disk_b, c, j, after);
        durability::truncation_survives_a_crash(checked, disk_b, files, before, after);
        let again = choose|again: WalView| #[trigger]
            durability::shortened(again, after, checked, disk_b, before);
        let k = choose|k: int|
            0 <= k <= durability::stored_sealed(checked, disk_b).len() && durability::stored(
                again,
                after,
            ) == #[trigger] durability::stored(checked, disk_b).skip(k) && durability::at_bound(
                disk_b,
                checked.dir,
                checked.sealed,
                k,
            ) && forall|i: int|
                0 <= i < k ==> (#[trigger] durability::stored(checked, disk_b)[i]).sequence
                    < before;
        assert(replays_to_snapshot(all.skip(k), l.log, index, term));
        lemma_opens_with_snapshot(l, again, after, index, term, later, reread);
    }
}

/// A WAL whose records replay to the log with a snapshot opens as that log.
proof fn lemma_opens_with_snapshot(
    l: RaftLogView,
    w: WalView,
    disk: Disk,
    index: u64,
    term: u64,
    files: FilesView,
    reread: FilesView,
)
    requires
        durability::intact(w, disk),
        replays_to_snapshot(durability::stored(w, disk), l.log, index, term),
        w.dir == l.wal.dir,
        w.max_segment_bytes == l.wal.max_segment_bytes,
        w.sync_writes == l.wal.sync_writes,
        storage::read_from_disk(files, disk),
        storage::read_from_disk(
            reread,
            storage::all_applied(disk, wal::open_ops(l.wal.dir, files)),
        ),
    ensures
        recovered_as(
            l,
            disk,
            files,
            reread,
            l.log.with_snapshot(index, term),
            l.log.with_snapshot(index, term),
        ),
{
    durability::reopening_restores_the_wal(w, disk, files, w.max_segment_bytes, w.sync_writes);
    assert(durability::reconfigured(w, w.max_segment_bytes, w.sync_writes) == w);
    lemma_read_all(w, disk, reread);
}

/// One of two equal logs that is compacted, and the other that has the same snapshot
/// installed, end as equal logs: with the snapshot's index and term, and with the
/// entries behind it just as they were.
pub proof fn compacting_and_installing_agree(
    a: RaftLogView,
    b: RaftLogView,
    index: u64,
    term: u64,
    files_a: FilesView,
    files_b: FilesView,
    io_a: OutcomeView,
    io_b: OutcomeView,
)
    requires
        a.log == b.log,
        contiguous(a.log),
        a.snapshot_result(index, term, files_a, io_a) is Ok,
        b.snapshot_result(index, term, files_b, io_b) is Ok,
    ensures
        a.compacted(index, term, files_a, io_a).log == b.installed(index, term, files_b, io_b).log,
        index > b.log.snapshot_index ==> {
            let done = b.installed(index, term, files_b, io_b).log;
            &&& done.snapshot_index == index
            &&& done.snapshot_term == term
            &&& done.entries == log::after(b.log.entries, index)
        },
        forall|i: int|
            0 <= i < b.log.entries.len() && (#[trigger] b.log.entries[i]).index > index
                ==> b.installed(index, term, files_b, io_b).log.entries.contains(b.log.entries[i]),
{
    lemma_after(a.log.entries, a.log.snapshot_index as int, index);
    compacting_keeps_later_entries(a, index, term, files_a, io_a);
    let done = b.installed(index, term, files_b, io_b).log;
    let entries = b.log.entries;
    assert forall|i: int| 0 <= i < entries.len() && (#[trigger] entries[i]).index
        > index implies done.entries.contains(entries[i]) by {
        let cut = entries.len() - done.entries.len();
        assert(entries[i].index == b.log.snapshot_index + 1 + i);
        assert(done.entries[i - cut] == entries[i]);
    }
}

} // verus!
