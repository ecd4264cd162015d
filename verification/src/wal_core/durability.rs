//! What a [`Wal`](crate::wal_core::wal::Wal) and the disk it lives on promise
//! together: what is appended is read back, also after a restart, and what is
//! dropped was no longer wanted.
use vstd::prelude::*;

use crate::storage;
use crate::storage::{Disk, FileOp, FilesView, OutcomeView};
use crate::wal_core::checkpoint;
use crate::wal_core::checkpoint::CheckpointView;
use crate::wal_core::entry;
use crate::wal_core::entry::{EntryView, HEADER_SIZE};
use crate::wal_core::error::WalErrorView;
use crate::wal_core::floor;
use crate::wal_core::segment;
use crate::wal_core::segment::SegmentView;
use crate::wal_core::wal;
use crate::wal_core::wal::WalView;

verus! {

// ─── Entries on a disk ───────────────────────────────────────────────────────

/// Every file of `paths` is there and can be read to its end.
pub open spec fn readable(disk: Disk, paths: Seq<Seq<char>>) -> bool {
    forall|i: int|
        0 <= i < paths.len() ==> disk.contains_key(#[trigger] paths[i]) && segment::parsed(
            disk[paths[i]],
        ) is Ok
}

/// The entries in the files of `paths`, one file after the other.
pub open spec fn stored_in(disk: Disk, paths: Seq<Seq<char>>) -> Seq<EntryView>
    decreases paths.len(),
{
    if paths.len() == 0 {
        Seq::empty()
    } else {
        stored_in(disk, paths.drop_last()) + segment::parsed(disk[paths.last()])->Ok_0
    }
}

/// The entries that the WAL `w` has on `disk`.
pub open spec fn stored(w: WalView, disk: Disk) -> Seq<EntryView> {
    stored_in(disk, w.segment_paths())
}

/// Those of them that are in sealed segments.
pub open spec fn stored_sealed(w: WalView, disk: Disk) -> Seq<EntryView> {
    stored_in(disk, wal::paths_of(w.dir, w.sealed))
}

/// The IDs of all segments of `w`, oldest first.
pub open spec fn segment_ids(w: WalView) -> Seq<u64> {
    w.sealed.push(w.active.id)
}

pub open spec fn ascending(ids: Seq<u64>) -> bool {
    forall|i: int, j: int| 0 <= i < j < ids.len() ==> #[trigger] ids[i] < #[trigger] ids[j]
}

/// The entries carry consecutive sequence numbers, the last one before `next`.
pub open spec fn numbered(entries: Seq<EntryView>, next: u64) -> bool {
    &&& entries.len() < next
    &&& forall|i: int|
        0 <= i < entries.len() ==> (#[trigger] entries[i]).sequence == next - entries.len() + i
}

/// The segment files on `disk` are those that `w` knows of, under their
/// canonical names and in ascending order.
pub open spec fn laid_out(w: WalView, disk: Disk) -> bool {
    &&& w.active.path == segment::path_of(w.dir, w.active.id)
    &&& w.active.max_bytes == w.max_segment_bytes
    &&& ascending(segment_ids(w))
    &&& forall|i: int|
        0 <= i < w.segment_paths().len() ==> disk.contains_key(#[trigger] w.segment_paths()[i])
    &&& forall|path: Seq<char>| #[trigger]
        disk.contains_key(path) && segment::is_segment_file(path) ==> w.segment_paths().contains(
            path,
        )
}

/// The next sequence number can be told from `disk`: from the last entry, or where
/// there is none from the recorded floor.
pub open spec fn number_kept(w: WalView, disk: Disk) -> bool {
    ||| stored(w, disk).len() > 0
    ||| {
        &&& floor::kept(disk, w.dir) matches Ok(floor)
        &&& w.next_sequence == if floor > 1 {
            floor
        } else {
            1
        }
    }
}

/// `w` and `disk` agree: the segment files are those of `w`, they are readable
/// and hold consecutively numbered entries up to the next one to be written, the
/// checkpoint file states the checkpoint, and the next number is not forgotten.
pub open spec fn intact(w: WalView, disk: Disk) -> bool {
    &&& laid_out(w, disk)
    &&& readable(disk, w.segment_paths())
    &&& w.active.size == disk[w.active.path].len()
    &&& numbered(stored(w, disk), w.next_sequence)
    &&& w.checkpoint.dir == w.dir
    &&& checkpoint::stated(storage::on_disk(disk, checkpoint::file_path(w.dir))) == Ok::<
        u64,
        WalErrorView,
    >(w.checkpoint.sequence)
    &&& number_kept(w, disk)
}

// ─── Segment paths ───────────────────────────────────────────────────────────

/// The paths of all segments are the canonical ones of their IDs.
proof fn lemma_paths(w: WalView)
    requires
        w.active.path == segment::path_of(w.dir, w.active.id),
    ensures
        w.segment_paths() == wal::paths_of(w.dir, segment_ids(w)),
{
    assert(w.segment_paths() =~= wal::paths_of(w.dir, segment_ids(w)));
}

/// Where the same segments hold the same bytes, they hold the same entries.
proof fn lemma_stored_frame(a: Disk, b: Disk, paths: Seq<Seq<char>>)
    requires
        forall|i: int| 0 <= i < paths.len() ==> a[#[trigger] paths[i]] == b[paths[i]],
    ensures
        stored_in(a, paths) == stored_in(b, paths),
    decreases paths.len(),
{
    if paths.len() > 0 {
        let head = paths.drop_last();
        assert forall|i: int| 0 <= i < head.len() implies a[#[trigger] head[i]] == b[head[i]] by {
            assert(head[i] == paths[i]);
        }
        lemma_stored_frame(a, b, head);
        assert(paths[paths.len() - 1] == paths.last());
    }
}

/// Reading the files gives the stored entries.
proof fn lemma_entries_of(files: FilesView, disk: Disk, paths: Seq<Seq<char>>)
    requires
        forall|i: int| 0 <= i < paths.len() ==> storage::shows(files, disk, #[trigger] paths[i]),
        readable(disk, paths),
    ensures
        wal::entries_of(files, paths) == Ok::<Seq<EntryView>, WalErrorView>(
            stored_in(disk, paths),
        ),
    decreases paths.len(),
{
    if paths.len() > 0 {
        let head = paths.drop_last();
        assert forall|i: int| 0 <= i < head.len() implies disk.contains_key(#[trigger] head[i])
            && segment::parsed(disk[head[i]]) is Ok by {
            assert(head[i] == paths[i]);
        }
        assert forall|i: int| 0 <= i < head.len() implies storage::shows(
            files,
            disk,
            #[trigger] head[i],
        ) by {
            assert(head[i] == paths[i]);
        }
        lemma_entries_of(files, disk, head);
        assert(paths[paths.len() - 1] == paths.last());
    }
}

/// No segment before the active one has the active one's path.
proof fn lemma_active_is_apart(w: WalView)
    requires
        ascending(segment_ids(w)),
    ensures
        forall|i: int|
            0 <= i < w.sealed.len() ==> segment::path_of(w.dir, #[trigger] w.sealed[i])
                != segment::path_of(w.dir, w.active.id),
{
    let ids = segment_ids(w);
    assert forall|i: int| 0 <= i < w.sealed.len() implies segment::path_of(
        w.dir,
        #[trigger] w.sealed[i],
    ) != segment::path_of(w.dir, w.active.id) by {
        assert(ids[i] == w.sealed[i]);
        assert(ids[w.sealed.len() as int] == w.active.id);
        segment::segment_paths_differ(w.dir, w.sealed[i], w.active.id);
    }
}

// ─── Appending ───────────────────────────────────────────────────────────────

/// Writing an entry that fits into the active segment adds it to the stored ones.
proof fn lemma_write(w: WalView, disk: Disk, data: Seq<u8>)
    requires
        intact(w, disk),
        data.len() <= u32::MAX,
        w.can_append(HEADER_SIZE + data.len()),
        !w.active.overflows(HEADER_SIZE + data.len()),
    ensures
        ({
            let bytes = entry::encoded(w.next_sequence, data);
            let after = w.written(bytes.len() as int, OutcomeView::Done);
            let disk2 = storage::all_applied(disk, w.write_ops(bytes));
            &&& bytes.len() == HEADER_SIZE + data.len()
            &&& intact(after, disk2)
            &&& stored(after, disk2) == stored(w, disk).push(
                EntryView { sequence: w.next_sequence, data },
            )
        }),
{
    let bytes = entry::encoded(w.next_sequence, data);
    let list = w.write_ops(bytes);
    let added = EntryView { sequence: w.next_sequence, data };
    entry::lemma_encoded_len(w.next_sequence, data);
    let after = w.written(bytes.len() as int, OutcomeView::Done);
    let disk2 = storage::all_applied(disk, list);
    assert(disk2 == disk.insert(w.active.path, disk[w.active.path] + bytes)) by {
        reveal_with_fuel(storage::all_applied, 3);
        assert(list.drop_last() =~= w.active.append_ops(bytes));
        assert(list.drop_last().last() == FileOp::Append(w.active.path, bytes));
        assert(list.drop_last().drop_last() =~= Seq::<FileOp>::empty());
    }
    let paths = w.segment_paths();
    let head = paths.drop_last();
    assert(after.segment_paths() =~= paths);
    assert(segment_ids(after) =~= segment_ids(w));
    lemma_active_is_apart(w);
    assert(head =~= wal::paths_of(w.dir, w.sealed));
    assert forall|i: int| 0 <= i < head.len() implies disk[#[trigger] head[i]] == disk2[head[i]] by {
        assert(head[i] == segment::path_of(w.dir, w.sealed[i]));
    }
    lemma_stored_frame(disk, disk2, head);
    assert(paths[paths.len() - 1] == w.active.path);
    segment::appended_entry_reads_back(disk[w.active.path], w.next_sequence, data);
    let old_tail = segment::parsed(disk[w.active.path])->Ok_0;
    assert(stored(after, disk2) =~= stored(w, disk).push(added)) by {
        assert(stored_in(disk2, head) + old_tail.push(added) =~= (stored_in(disk, head)
            + old_tail).push(added));
    }
    assert(readable(disk2, paths)) by {
        assert forall|i: int| 0 <= i < paths.len() implies disk2.contains_key(#[trigger] paths[i])
            && segment::parsed(disk2[paths[i]]) is Ok by {
            if i < head.len() {
                assert(head[i] == paths[i]);
            }
        }
    }
    lemma_records_are_apart(w.dir);
    segment::segment_path_states_its_id(w.dir, w.active.id);
}

/// The files of the checkpoint and of the floor are not taken for segments, nor the
/// ones for the others.
pub proof fn lemma_records_are_apart(dir: Seq<char>)
    ensures
        !segment::is_segment_file(checkpoint::file_path(dir)),
        !segment::is_segment_file(checkpoint::temp_path(dir)),
        !segment::is_segment_file(floor::file_path(dir)),
        !segment::is_segment_file(floor::temp_path(dir)),
        checkpoint::file_path(dir) != floor::file_path(dir),
        checkpoint::file_path(dir) != floor::temp_path(dir),
        checkpoint::temp_path(dir) != floor::file_path(dir),
{
    reveal_strlit("checkpoint");
    reveal_strlit("checkpoint.tmp");
    reveal_strlit("sequence");
    reveal_strlit("sequence.tmp");
    let a = "checkpoint"@;
    let b = "checkpoint.tmp"@;
    let c = "sequence"@;
    let d = "sequence.tmp"@;
    assert(a[0] == 'c' && b[0] == 'c' && c[0] == 's' && d[0] == 's');
    assert(seq!['.'][0] == '.' && seq!['.', '.'][0] == '.');
    crate::text::lemma_final_name_of_joined(dir, a);
    crate::text::lemma_final_name_of_joined(dir, b);
    crate::text::lemma_final_name_of_joined(dir, c);
    crate::text::lemma_final_name_of_joined(dir, d);
    assert(segment::prefix()[0] == 'w');
    assert(a.take(4)[0] == 'c');
    assert(b.take(4)[0] == 'c');
    assert(c.take(4)[0] == 's');
    assert(d.take(4)[0] == 's');
}

/// Rotating changes which segment is active, and nothing that is stored.
pub proof fn lemma_rotate(w: WalView, disk: Disk)
    requires
        intact(w, disk),
        w.active.id < u64::MAX,
    ensures
        ({
            let disk2 = storage::all_applied(disk, w.rotate_ops());
            &&& disk2 == disk.insert(
                segment::path_of(w.dir, (w.active.id + 1) as u64),
                Seq::empty(),
            )
            &&& intact(w.rotated(), disk2)
            &&& stored(w.rotated(), disk2) == stored(w, disk)
        }),
{
    let after = w.rotated();
    let list = w.rotate_ops();
    let disk2 = storage::all_applied(disk, list);
    let new_id = (w.active.id + 1) as u64;
    let new_path = segment::path_of(w.dir, new_id);
    assert(disk2 == disk.insert(new_path, Seq::empty())) by {
        reveal_with_fuel(storage::all_applied, 3);
        assert(list.drop_last().last() == list[0]);
        assert(list.drop_last().drop_last() =~= Seq::<FileOp>::empty());
    }
    let ids = segment_ids(w);
    let paths = w.segment_paths();
    lemma_paths(w);
    assert(segment_ids(after) =~= ids.push(new_id));
    assert(after.segment_paths() =~= paths.push(new_path)) by {
        assert(wal::paths_of(w.dir, ids) =~= wal::paths_of(after.dir, after.sealed));
    }
    assert(ascending(segment_ids(after))) by {
        assert(ids[ids.len() - 1] == w.active.id);
        assert forall|i: int| 0 <= i < ids.len() implies #[trigger] ids[i] < new_id by {}
    }
    assert forall|i: int| 0 <= i < paths.len() implies #[trigger] paths[i] != new_path by {
        assert(paths[i] == segment::path_of(w.dir, ids[i]));
        assert(ids[ids.len() - 1] == w.active.id);
        segment::segment_paths_differ(w.dir, ids[i], new_id);
    }
    lemma_stored_frame(disk, disk2, paths);
    assert(paths.push(new_path).drop_last() =~= paths);
    let empty = segment::parsed(Seq::<u8>::empty())->Ok_0;
    assert(empty =~= Seq::<EntryView>::empty());
    assert(stored(after, disk2) =~= stored(w, disk));
    let longer = after.segment_paths();
    assert forall|i: int| 0 <= i < longer.len() implies disk2.contains_key(#[trigger] longer[i])
        && segment::parsed(disk2[longer[i]]) is Ok by {
        if i < paths.len() {
            assert(longer[i] == paths[i]);
        }
    }
    assert forall|path: Seq<char>| #[trigger]
        disk2.contains_key(path) && segment::is_segment_file(path) implies longer.contains(
        path,
    ) by {
        if path == new_path {
            assert(longer[paths.len() as int] == new_path);
        } else {
            assert(disk.contains_key(path));
            let i = choose|i: int| 0 <= i < paths.len() && paths[i] == path;
            assert(longer[i] == path);
        }
    }
    lemma_records_are_apart(w.dir);
    segment::segment_path_states_its_id(w.dir, new_id);
}

/// A successful append adds exactly the new entry, under the sequence number
/// that is returned, behind everything that was stored before; rotating on the
/// way changes nothing.
pub proof fn append_adds_the_entry(w: WalView, disk: Disk, data: Seq<u8>)
    requires
        intact(w, disk),
        data.len() <= u32::MAX,
        HEADER_SIZE + data.len() <= w.max_segment_bytes,
        w.can_append(HEADER_SIZE + data.len()),
    ensures
        ({
            let len = HEADER_SIZE + data.len();
            let after = w.appended(len, OutcomeView::Done);
            let disk2 = storage::all_applied(disk, w.append_ops(data));
            &&& w.append_result(len, OutcomeView::Done) == Ok::<u64, WalErrorView>(w.next_sequence)
            &&& after.next_sequence == w.next_sequence + 1
            &&& intact(after, disk2)
            &&& stored(after, disk2) == stored(w, disk).push(
                EntryView { sequence: w.next_sequence, data },
            )
        }),
{
    let bytes = entry::encoded(w.next_sequence, data);
    entry::lemma_encoded_len(w.next_sequence, data);
    if w.active.overflows(HEADER_SIZE + data.len()) {
        lemma_rotate(w, disk);
        let mid = w.rotated();
        let disk1 = storage::all_applied(disk, w.rotate_ops());
        assert(OutcomeView::Done.skip(2) == OutcomeView::Done);
        lemma_write(mid, disk1, data);
        storage::lemma_all_applied_concat(disk, w.rotate_ops(), mid.write_ops(bytes));
    } else {
        lemma_write(w, disk, data);
    }
}

/// An append touches no sealed segment, not even the one that it seals.
pub proof fn append_spares_sealed_segments(w: WalView, disk: Disk, data: Seq<u8>)
    requires
        laid_out(w, disk),
        HEADER_SIZE + data.len() <= w.max_segment_bytes,
        w.can_append(HEADER_SIZE + data.len()),
    ensures
        ({
            let after = w.appended(HEADER_SIZE + data.len(), OutcomeView::Done);
            let disk2 = storage::all_applied(disk, w.append_ops(data));
            forall|i: int|
                0 <= i < after.sealed.len() ==> storage::same_file(
                    disk2,
                    disk,
                    segment::path_of(w.dir, #[trigger] after.sealed[i]),
                )
        }),
{
    let len = HEADER_SIZE + data.len();
    let bytes = entry::encoded(w.next_sequence, data);
    entry::lemma_encoded_len(w.next_sequence, data);
    assert(OutcomeView::Done.skip(2) == OutcomeView::Done);
    let after = w.appended(len, OutcomeView::Done);
    let list = w.append_ops(data);
    let ids = segment_ids(w);
    reveal_with_fuel(storage::all_applied, 5);
    if w.active.overflows(len) {
        let mid = w.rotated();
        let new_id = (w.active.id + 1) as u64;
        assert(list =~= seq![
            FileOp::Sync(w.active.path),
            FileOp::CreateNew(mid.active.path),
            FileOp::Append(mid.active.path, bytes),
            mid.settle_op(),
        ]);
        assert(list.drop_last().last() == list[2]);
        assert(list.drop_last().drop_last().last() == list[1]);
        assert(list.drop_last().drop_last().drop_last().last() == list[0]);
        assert(list.drop_last().drop_last().drop_last().drop_last() =~= Seq::<FileOp>::empty());
        assert forall|i: int| 0 <= i < after.sealed.len() implies segment::path_of(
            w.dir,
            #[trigger] after.sealed[i],
        ) != mid.active.path by {
            assert(after.sealed[i] == ids[i]);
            assert(ids[ids.len() - 1] == w.active.id);
            segment::segment_paths_differ(w.dir, ids[i], new_id);
        }
    } else {
        assert(list =~= seq![FileOp::Append(w.active.path, bytes), w.settle_op()]);
        assert(list.drop_last().last() == list[0]);
        assert(list.drop_last().drop_last() =~= Seq::<FileOp>::empty());
        lemma_active_is_apart(w);
    }
}

/// An entry that is too large for any segment is refused, and nothing that is
/// stored changes.
pub proof fn oversized_entry_is_refused(w: WalView, disk: Disk, data: Seq<u8>)
    requires
        intact(w, disk),
        HEADER_SIZE + data.len() > w.max_segment_bytes,
        w.can_append(HEADER_SIZE + data.len()),
    ensures
        ({
            let len = HEADER_SIZE + data.len();
            let after = w.appended(len, OutcomeView::Done);
            let disk2 = storage::all_applied(disk, w.append_ops(data));
            &&& w.append_result(len, OutcomeView::Done) == Err::<u64, WalErrorView>(
                WalErrorView::SegmentFull { size: 0, max: w.max_segment_bytes as int, entry: len },
            )
            &&& after.next_sequence == w.next_sequence
            &&& intact(after, disk2)
            &&& stored(after, disk2) == stored(w, disk)
        }),
{
    let bytes = entry::encoded(w.next_sequence, data);
    entry::lemma_encoded_len(w.next_sequence, data);
    lemma_rotate(w, disk);
    assert(OutcomeView::Done.skip(2) == OutcomeView::Done);
    assert(w.append_ops(data) =~= w.rotate_ops());
}

// ─── Reading ─────────────────────────────────────────────────────────────────

/// Reading from a sequence number on gives the stored entries from there on.
pub proof fn read_returns_what_is_stored(w: WalView, disk: Disk, files: FilesView, from: u64)
    requires
        intact(w, disk),
        storage::read_from_disk(files, disk),
    ensures
        w.all_entries(files) == Ok::<Seq<EntryView>, WalErrorView>(stored(w, disk)),
        w.read_result(from, files) == Ok::<Seq<EntryView>, WalErrorView>(
            wal::since(stored(w, disk), from),
        ),
{
    let paths = w.segment_paths();
    assert forall|i: int| 0 <= i < paths.len() implies storage::shows(
        files,
        disk,
        #[trigger] paths[i],
    ) by {
        storage::lemma_lookup_on_disk(files, disk, paths[i]);
    }
    lemma_entries_of(files, disk, paths);
}

/// Of consecutively numbered entries, those from `from` on are a suffix.
pub proof fn since_is_a_suffix(entries: Seq<EntryView>, next: u64, from: u64)
    requires
        numbered(entries, next),
    ensures
        wal::since(entries, from) == entries.skip(
            if from <= next - entries.len() {
                0
            } else if from >= next {
                entries.len() as int
            } else {
                from - (next - entries.len())
            },
        ),
    decreases entries.len(),
{
    if entries.len() > 0 {
        let head = entries.drop_last();
        let last = entries.last();
        assert(entries[entries.len() - 1] == last);
        assert forall|i: int| 0 <= i < head.len() implies (#[trigger] head[i]).sequence == (next
            - 1) - head.len() + i by {
            assert(head[i] == entries[i]);
        }
        since_is_a_suffix(head, (next - 1) as u64, from);
        assert(wal::since(entries, from) =~= entries.skip(
            if from <= next - entries.len() {
                0
            } else if from >= next {
                entries.len() as int
            } else {
                from - (next - entries.len())
            },
        ));
    } else {
        assert(entries.skip(0) =~= Seq::<EntryView>::empty());
    }
}

// ─── Checkpointing ───────────────────────────────────────────────────────────

/// Recording a checkpoint changes nothing that is stored.
pub proof fn checkpoint_keeps_entries(w: WalView, disk: Disk, sequence: u64)
    requires
        intact(w, disk),
    ensures
        ({
            let after = WalView {
                checkpoint: w.checkpoint.advanced(sequence, OutcomeView::Done),
                ..w
            };
            let disk2 = storage::all_applied(disk, w.checkpoint.advance_ops(sequence));
            intact(after, disk2) && stored(after, disk2) == stored(w, disk)
        }),
{
    let after = WalView { checkpoint: w.checkpoint.advanced(sequence, OutcomeView::Done), ..w };
    let list = w.checkpoint.advance_ops(sequence);
    let disk2 = storage::all_applied(disk, list);
    let paths = w.segment_paths();
    assert(after.segment_paths() =~= paths);
    assert(segment_ids(after) =~= segment_ids(w));
    if sequence > w.checkpoint.sequence {
        let tmp = checkpoint::temp_path(w.dir);
        let path = checkpoint::file_path(w.dir);
        checkpoint::advanced_checkpoint_is_reloaded(w.checkpoint, sequence, disk);
        reveal_with_fuel(storage::all_applied, 3);
        assert(list.drop_last().last() == list[0]);
        assert(list.drop_last().drop_last() =~= Seq::<FileOp>::empty());
        lemma_records_are_apart(w.dir);
        lemma_paths(w);
        assert forall|i: int| 0 <= i < paths.len() implies #[trigger] paths[i] != tmp && paths[i]
            != path by {
            segment::segment_path_states_its_id(w.dir, segment_ids(w)[i]);
        }
        lemma_stored_frame(disk, disk2, paths);
        assert(stored(after, disk2) == stored(w, disk));
        assert(paths[paths.len() - 1] == w.active.path);
        assert forall|q: Seq<char>| #[trigger]
            disk2.contains_key(q) && segment::is_segment_file(q) implies after.segment_paths().contains(
            q,
        ) by {
            assert(disk.contains_key(q));
        }
    }
}

/// Recording a checkpoint touches no segment.
pub proof fn checkpoint_spares_segments(w: WalView, disk: Disk, sequence: u64, id: u64)
    requires
        w.checkpoint.dir == w.dir,
    ensures
        storage::same_file(
            storage::all_applied(disk, w.checkpoint.advance_ops(sequence)),
            disk,
            segment::path_of(w.dir, id),
        ),
{
    let list = w.checkpoint.advance_ops(sequence);
    reveal_with_fuel(storage::all_applied, 3);
    if sequence > w.checkpoint.sequence {
        assert(list.drop_last().last() == list[0]);
        assert(list.drop_last().drop_last() =~= Seq::<FileOp>::empty());
    }
    lemma_records_are_apart(w.dir);
    segment::segment_path_states_its_id(w.dir, id);
}

/// A crash while a checkpoint is recorded leaves every entry, and the old
/// checkpoint or the new one.
pub proof fn checkpoint_crash_keeps_entries(w: WalView, disk: Disk, sequence: u64, after: Disk)
    requires
        intact(w, disk),
        storage::crashed(disk, w.checkpoint.advance_ops(sequence), after),
    ensures
        ({
            let done = WalView {
                checkpoint: w.checkpoint.advanced(sequence, OutcomeView::Done),
                ..w
            };
            ||| intact(w, after) && stored(w, after) == stored(w, disk)
            ||| intact(done, after) && stored(done, after) == stored(w, disk)
        }),
{
    let done = WalView { checkpoint: w.checkpoint.advanced(sequence, OutcomeView::Done), ..w };
    let list = w.checkpoint.advance_ops(sequence);
    let path = checkpoint::file_path(w.dir);
    checkpoint_keeps_entries(w, disk, sequence);
    lemma_records_are_apart(w.dir);
    assert forall|p: Seq<char>| segment::is_segment_file(p) implies #[trigger] storage::same_file(
        after,
        disk,
        p,
    ) by {
        storage::lemma_crash_spares(disk, list, after, p);
    }
    lemma_same_segments(w, w.checkpoint, disk, after);
    lemma_same_segments(w, done.checkpoint, disk, after);
    storage::lemma_crash_spares(disk, list, after, floor::file_path(w.dir));
    checkpoint::checkpoint_survives_a_crash(w.checkpoint, sequence, disk, after);
    assert(WalView { checkpoint: w.checkpoint, ..w } == w);
}

/// Where the segment files are the same, all that a WAL says of them still holds.
pub proof fn lemma_same_segments(w: WalView, c: CheckpointView, disk: Disk, after: Disk)
    requires
        intact(w, disk),
        forall|p: Seq<char>|
            segment::is_segment_file(p) ==> #[trigger] storage::same_file(after, disk, p),
    ensures
        ({
            let other = WalView { checkpoint: c, ..w };
            &&& laid_out(other, after)
            &&& readable(after, other.segment_paths())
            &&& other.active.size == after[other.active.path].len()
            &&& stored(other, after) == stored(w, disk)
        }),
{
    let other = WalView { checkpoint: c, ..w };
    let paths = w.segment_paths();
    assert(other.segment_paths() =~= paths);
    assert(segment_ids(other) =~= segment_ids(w));
    lemma_paths(w);
    assert forall|i: int| 0 <= i < paths.len() implies after.contains_key(#[trigger] paths[i])
        && after[paths[i]] == disk[paths[i]] by {
        segment::segment_path_states_its_id(w.dir, segment_ids(w)[i]);
        assert(storage::same_file(after, disk, paths[i]));
    }
    lemma_stored_frame(disk, after, paths);
    assert(paths[paths.len() - 1] == w.active.path);
    assert forall|p: Seq<char>| #[trigger]
        after.contains_key(p) && segment::is_segment_file(p) implies paths.contains(p) by {
        assert(storage::same_file(after, disk, p));
    }
}

/// A WAL agrees with every disk that has its segments and its records.
pub proof fn lemma_same_records(w: WalView, disk: Disk, after: Disk)
    requires
        intact(w, disk),
        forall|p: Seq<char>|
            segment::is_segment_file(p) ==> #[trigger] storage::same_file(after, disk, p),
        storage::same_file(after, disk, checkpoint::file_path(w.dir)),
        storage::same_file(after, disk, floor::file_path(w.dir)),
    ensures
        intact(w, after),
        stored(w, after) == stored(w, disk),
{
    lemma_same_segments(w, w.checkpoint, disk, after);
    assert(WalView { checkpoint: w.checkpoint, ..w } == w);
}

/// A checkpoint that could not be recorded leaves the WAL in agreement with its
/// disk, with every entry and the old checkpoint.
pub proof fn failed_checkpoint_changes_nothing(
    w: WalView,
    disk: Disk,
    sequence: u64,
    at: int,
    after: Disk,
)
    requires
        intact(w, disk),
        storage::failed_at(disk, w.checkpoint.advance_ops(sequence), at, after),
    ensures
        intact(w, after),
        stored(w, after) == stored(w, disk),
{
    let list = w.checkpoint.advance_ops(sequence);
    lemma_records_are_apart(w.dir);
    checkpoint::lemma_paths_differ(w.dir);
    reveal_with_fuel(storage::all_applied, 2);
    assert(list.take(0) =~= Seq::<FileOp>::empty());
    if at == 1 {
        assert(list.take(1).last() == list[0]);
        assert(list.take(1).drop_last() =~= Seq::<FileOp>::empty());
    }
    lemma_same_records(w, disk, after);
}

/// The list of sealed segments can be told from the disk.
pub proof fn lemma_layout_is_unique(a: WalView, b: WalView, disk: Disk)
    requires
        laid_out(a, disk),
        laid_out(b, disk),
        a.dir == b.dir,
        a.active == b.active,
    ensures
        a.sealed == b.sealed,
{
    let x = segment_ids(a);
    let y = segment_ids(b);
    lemma_paths(a);
    lemma_paths(b);
    assert forall|id: u64| #[trigger] x.contains(id) implies y.contains(id) by {
        lemma_id_is_there(a, b, disk, id);
    }
    assert forall|id: u64| #[trigger] y.contains(id) implies x.contains(id) by {
        lemma_id_is_there(b, a, disk, id);
    }
    lemma_ascending_is_unique(x, y);
    assert(a.sealed =~= x.drop_last());
    assert(b.sealed =~= y.drop_last());
}

proof fn lemma_id_is_there(a: WalView, b: WalView, disk: Disk, id: u64)
    requires
        laid_out(a, disk),
        laid_out(b, disk),
        a.dir == b.dir,
        segment_ids(a).contains(id),
    ensures
        segment_ids(b).contains(id),
{
    let x = segment_ids(a);
    let y = segment_ids(b);
    lemma_paths(a);
    lemma_paths(b);
    let i = choose|i: int| 0 <= i < x.len() && x[i] == id;
    let path = a.segment_paths()[i];
    segment::segment_path_states_its_id(a.dir, id);
    assert(disk.contains_key(path) && segment::is_segment_file(path));
    let j = choose|j: int| 0 <= j < b.segment_paths().len() && b.segment_paths()[j] == path;
    if y[j] != id {
        segment::segment_paths_differ(a.dir, y[j], id);
    }
    assert(y.contains(y[j]));
}

/// Two ascending lists of the same IDs are equal.
proof fn lemma_ascending_is_unique(x: Seq<u64>, y: Seq<u64>)
    requires
        ascending(x),
        ascending(y),
        forall|id: u64| #[trigger] x.contains(id) <==> y.contains(id),
    ensures
        x == y,
    decreases x.len(),
{
    if x.len() == 0 {
        if y.len() > 0 {
            assert(y.contains(y[0]));
            assert(x.contains(y[0]));
        }
        assert(x =~= y);
    } else {
        let m = x[x.len() - 1];
        assert(x.contains(m));
        let j = choose|j: int| 0 <= j < y.len() && y[j] == m;
        let n = y[y.len() - 1];
        assert(y.contains(n));
        assert(x.contains(n));
        let i = choose|i: int| 0 <= i < x.len() && x[i] == n;
        assert(m == n) by {
            if j < y.len() - 1 {
                assert(y[j] < n);
            }
            if i < x.len() - 1 {
                assert(x[i] < m);
            }
        }
        let p = x.drop_last();
        let q = y.drop_last();
        assert forall|id: u64| #[trigger] p.contains(id) <==> q.contains(id) by {
            if p.contains(id) {
                let k = choose|k: int| 0 <= k < p.len() && p[k] == id;
                assert(x[k] == id && x[k] < m);
                assert(x.contains(id));
                let l = choose|l: int| 0 <= l < y.len() && y[l] == id;
                assert(q[l] == id);
            }
            if q.contains(id) {
                let k = choose|k: int| 0 <= k < q.len() && q[k] == id;
                assert(y[k] == id && y[k] < n);
                assert(y.contains(id));
                assert(x.contains(id));
                let l = choose|l: int| 0 <= l < x.len() && x[l] == id;
                assert(p[l] == id);
            }
        }
        lemma_ascending_is_unique(p, q);
        assert(x =~= p.push(m));
        assert(y =~= q.push(n));
    }
}

// ─── Truncating ──────────────────────────────────────────────────────────────

spec fn increasing(entries: Seq<EntryView>) -> bool {
    forall|i: int, j: int|
        0 <= i < j < entries.len() ==> (#[trigger] entries[i]).sequence < (
        #[trigger] entries[j]).sequence
}

proof fn lemma_max_of_increasing(entries: Seq<EntryView>)
    requires
        increasing(entries),
        entries.len() > 0,
    ensures
        wal::max_sequence(entries) == entries.last().sequence,
    decreases entries.len(),
{
    let head = entries.drop_last();
    if head.len() == 0 {
        assert(wal::max_sequence(head) == 0);
    } else {
        assert forall|i: int, j: int| 0 <= i < j < head.len() implies (
        #[trigger] head[i]).sequence < (#[trigger] head[j]).sequence by {
            assert(head[i] == entries[i] && head[j] == entries[j]);
        }
        lemma_max_of_increasing(head);
        assert(entries[entries.len() - 2].sequence < entries[entries.len() - 1].sequence);
    }
}

/// The first `k` entries of the segments `ids` are those of the first so many
/// segments.
pub open spec fn at_bound(disk: Disk, dir: Seq<char>, ids: Seq<u64>, k: int) -> bool {
    exists|j: int|
        0 <= j <= ids.len() && k == stored_in(
            disk,
            wal::paths_of(dir, #[trigger] ids.take(j)),
        ).len()
}

/// Dropping segments drops a prefix of the entries, all of them before `before`.
proof fn lemma_purge(
    files: FilesView,
    disk: Disk,
    dir: Seq<char>,
    ids: Seq<u64>,
    active: u64,
    before: u64,
) -> (k: int)
    requires
        forall|i: int| 0 <= i < ids.len() ==> #[trigger] ids[i] != active,
        forall|i: int|
            0 <= i < ids.len() ==> storage::shows(
                files,
                disk,
                segment::path_of(dir, #[trigger] ids[i]),
            ),
        readable(disk, wal::paths_of(dir, ids)),
        increasing(stored_in(disk, wal::paths_of(dir, ids))),
        ascending(ids),
    ensures
        ({
            let plan = wal::purge(files, dir, ids, active, before);
            let all = stored_in(disk, wal::paths_of(dir, ids));
            &&& plan.error is None
            &&& 0 <= k <= all.len()
            &&& stored_in(disk, wal::paths_of(dir, plan.kept)) == all.skip(k)
            &&& forall|i: int| 0 <= i < k ==> (#[trigger] all[i]).sequence < before
            &&& k < all.len() ==> all.last().sequence >= before
            &&& plan.ops.len() == 0 ==> k == 0
            &&& at_bound(disk, dir, ids, k)
            &&& ascending(plan.kept)
            &&& forall|i: int| 0 <= i < plan.kept.len() ==> ids.contains(#[trigger] plan.kept[i])
            &&& forall|i: int|
                0 <= i < plan.kept.len() ==> wal::max_sequence(
                    segment::parsed(
                        disk[segment::path_of(dir, #[trigger] plan.kept[i])],
                    )->Ok_0,
                ) >= before
            &&& forall|i: int| 0 <= i < plan.ops.len() ==> (#[trigger] plan.ops[i]) is Remove
            &&& forall|id: u64| #[trigger]
                ids.contains(id) ==> (plan.kept.contains(id) <==> !plan.ops.contains(
                    FileOp::Remove(segment::path_of(dir, id)),
                ))
            &&& forall|path: Seq<char>| #[trigger]
                plan.ops.contains(FileOp::Remove(path)) ==> exists|i: int|
                    0 <= i < ids.len() && path == segment::path_of(dir, #[trigger] ids[i])
        }),
    decreases ids.len(),
{
    let plan = wal::purge(files, dir, ids, active, before);
    let paths = wal::paths_of(dir, ids);
    let all = stored_in(disk, paths);
    if ids.len() == 0 {
        assert(all.skip(0) =~= all);
        assert(wal::paths_of(dir, ids.take(0)) =~= Seq::<Seq<char>>::empty());
        0
    } else {
        let head = ids.drop_last();
        let last = ids.last();
        let path = segment::path_of(dir, last);
        let earlier = wal::purge(files, dir, head, active, before);
        assert(paths.drop_last() =~= wal::paths_of(dir, head));
        assert(paths[paths.len() - 1] == path);
        assert(ids[ids.len() - 1] == last);
        let first = stored_in(disk, wal::paths_of(dir, head));
        let tail = segment::parsed(disk[path])->Ok_0;
        assert(all == first + tail);
        let head_paths = wal::paths_of(dir, head);
        assert forall|i: int| 0 <= i < head_paths.len() implies disk.contains_key(
            #[trigger] head_paths[i],
        ) && segment::parsed(disk[head_paths[i]]) is Ok by {
            assert(head_paths[i] == paths[i]);
        }
        assert forall|i: int, j: int| 0 <= i < j < first.len() implies (
        #[trigger] first[i]).sequence < (#[trigger] first[j]).sequence by {
            assert(first[i] == all[i] && first[j] == all[j]);
        }
        assert forall|i: int, j: int| 0 <= i < j < head.len() implies #[trigger] head[i]
            < #[trigger] head[j] by {
            assert(head[i] == ids[i] && head[j] == ids[j]);
        }
        assert forall|i: int| 0 <= i < head.len() implies storage::shows(
            files,
            disk,
            segment::path_of(dir, #[trigger] head[i]),
        ) by {
            assert(head[i] == ids[i]);
        }
        let k = lemma_purge(files, disk, dir, head, active, before);
        let bound = choose|j: int|
            0 <= j <= head.len() && k == stored_in(
                disk,
                wal::paths_of(dir, #[trigger] head.take(j)),
            ).len();
        assert(head.take(bound) =~= ids.take(bound));
        assert(ids.take(ids.len() as int) =~= ids);
        assert(increasing(tail)) by {
            assert forall|i: int, j: int| 0 <= i < j < tail.len() implies (
            #[trigger] tail[i]).sequence < (#[trigger] tail[j]).sequence by {
                assert(tail[i] == all[first.len() + i] && tail[j] == all[first.len() + j]);
            }
        }
        if tail.len() > 0 {
            lemma_max_of_increasing(tail);
            assert(tail.last() == all.last());
        }
        assert(wal::expired(files, dir, last, before) == Ok::<bool, WalErrorView>(
            wal::max_sequence(tail) < before,
        ));
        assert forall|i: int| 0 <= i < head.len() implies #[trigger] head[i] < last by {
            assert(head[i] == ids[i]);
        }
        assert forall|i: int| 0 <= i < earlier.kept.len() implies #[trigger] earlier.kept[i]
            < last by {
            let j = choose|j: int| 0 <= j < head.len() && head[j] == earlier.kept[i];
            assert(head[j] < last);
        }
        assert forall|id: u64| #[trigger] ids.contains(id) <==> head.contains(id) || id == last by {
            if ids.contains(id) {
                let j = choose|j: int| 0 <= j < ids.len() && ids[j] == id;
                if j < head.len() {
                    assert(head[j] == id);
                }
            }
            if head.contains(id) {
                let j = choose|j: int| 0 <= j < head.len() && head[j] == id;
                assert(ids[j] == id);
            }
        }
        assert(!head.contains(last));
        assert forall|id: u64| head.contains(id) implies segment::path_of(dir, id) != path by {
            segment::segment_paths_differ(dir, id, last);
        }
        assert(!earlier.ops.contains(FileOp::Remove(path))) by {
            if earlier.ops.contains(FileOp::Remove(path)) {
                let i = choose|i: int|
                    0 <= i < head.len() && path == segment::path_of(dir, #[trigger] head[i]);
                assert(head.contains(head[i]));
            }
        }
        if wal::max_sequence(tail) < before {
            let op = FileOp::Remove(path);
            assert(plan.kept == earlier.kept);
            assert(plan.ops == earlier.ops.push(op));
            assert forall|x: FileOp| #[trigger]
                plan.ops.contains(x) <==> earlier.ops.contains(x) || x == op by {
                lemma_push_contains(earlier.ops, op, x);
            }
            assert(!plan.kept.contains(last));
            assert forall|p: Seq<char>| #[trigger]
                plan.ops.contains(FileOp::Remove(p)) implies exists|i: int|
                0 <= i < ids.len() && p == segment::path_of(dir, #[trigger] ids[i]) by {
                if earlier.ops.contains(FileOp::Remove(p)) {
                    let i = choose|i: int|
                        0 <= i < head.len() && p == segment::path_of(dir, #[trigger] head[i]);
                    assert(ids[i] == head[i]);
                } else {
                    assert(ids[ids.len() - 1] == last);
                }
            }
            if tail.len() == 0 {
                assert(all =~= first);
                k
            } else {
                if k < first.len() {
                    assert(all[first.len() - 1] == first.last());
                    assert(all[first.len() - 1].sequence < all[all.len() - 1].sequence);
                    assert(false);
                }
                assert(first.skip(k) =~= Seq::<EntryView>::empty());
                assert(all.skip(all.len() as int) =~= Seq::<EntryView>::empty());
                assert forall|i: int| 0 <= i < all.len() implies (#[trigger] all[i]).sequence
                    < before by {
                    if i < first.len() {
                        assert(all[i] == first[i]);
                    } else if i < all.len() - 1 {
                        assert(all[i].sequence < all[all.len() - 1].sequence);
                    }
                }
                all.len() as int
            }
        } else {
            assert(plan.kept == earlier.kept.push(last));
            assert(plan.ops == earlier.ops);
            assert forall|id: u64| #[trigger]
                plan.kept.contains(id) <==> earlier.kept.contains(id) || id == last by {
                lemma_push_contains(earlier.kept, last, id);
            }
            assert forall|i: int| 0 <= i < plan.kept.len() implies ids.contains(
                #[trigger] plan.kept[i],
            ) by {
                if i < earlier.kept.len() {
                    assert(plan.kept[i] == earlier.kept[i]);
                }
            }
            assert forall|p: Seq<char>| #[trigger]
                plan.ops.contains(FileOp::Remove(p)) implies exists|i: int|
                0 <= i < ids.len() && p == segment::path_of(dir, #[trigger] ids[i]) by {
                let i = choose|i: int|
                    0 <= i < head.len() && p == segment::path_of(dir, #[trigger] head[i]);
                assert(ids[i] == head[i]);
            }
            assert(ascending(plan.kept)) by {
                assert forall|i: int, j: int| 0 <= i < j < plan.kept.len() implies #[trigger]
                    plan.kept[i] < #[trigger] plan.kept[j] by {
                    assert(plan.kept[i] == earlier.kept[i]);
                    if j < earlier.kept.len() {
                        assert(plan.kept[j] == earlier.kept[j]);
                    }
                }
            }
            let kept_paths = wal::paths_of(dir, plan.kept);
            assert(kept_paths.drop_last() =~= wal::paths_of(dir, earlier.kept));
            assert(kept_paths.last() == path);
            assert(first.skip(k) + tail =~= all.skip(k));
            k
        }
    }
}

proof fn lemma_push_contains<T>(s: Seq<T>, x: T, y: T)
    ensures
        s.push(x).contains(y) <==> s.contains(y) || x == y,
{
    if s.contains(y) {
        let i = choose|i: int| 0 <= i < s.len() && s[i] == y;
        assert(s.push(x)[i] == y);
    }
    if s.push(x).contains(y) {
        let i = choose|i: int| 0 <= i < s.push(x).len() && s.push(x)[i] == y;
        if i < s.len() {
            assert(s[i] == y);
        }
    }
    assert(s.push(x)[s.len() as int] == x);
}

/// `files` tell what is on `disk` of the sealed segments of `w`.
pub open spec fn sealed_shown(w: WalView, disk: Disk, files: FilesView) -> bool {
    forall|i: int|
        0 <= i < w.sealed.len() ==> storage::shows(
            files,
            disk,
            segment::path_of(w.dir, #[trigger] w.sealed[i]),
        )
}

/// Reading the sealed segments gives what is stored in them, which is what is stored
/// first.
pub proof fn sealed_entries_are_stored(w: WalView, disk: Disk, files: FilesView)
    requires
        intact(w, disk),
        sealed_shown(w, disk, files),
    ensures
        w.sealed_entries(files) == Ok::<Seq<EntryView>, WalErrorView>(stored_sealed(w, disk)),
        stored_sealed(w, disk).len() <= stored(w, disk).len(),
        stored_sealed(w, disk) == stored(w, disk).take(stored_sealed(w, disk).len() as int),
        w.active.size > 0 ==> stored_sealed(w, disk).len() < stored(w, disk).len(),
{
    let paths = w.segment_paths();
    let sealed_paths = wal::paths_of(w.dir, w.sealed);
    assert(paths.drop_last() =~= sealed_paths);
    assert forall|i: int| 0 <= i < sealed_paths.len() implies disk.contains_key(
        #[trigger] sealed_paths[i],
    ) && segment::parsed(disk[sealed_paths[i]]) is Ok && storage::shows(
        files,
        disk,
        sealed_paths[i],
    ) by {
        assert(sealed_paths[i] == paths[i]);
        assert(sealed_paths[i] == segment::path_of(w.dir, w.sealed[i]));
    }
    lemma_entries_of(files, disk, sealed_paths);
    let first = stored_sealed(w, disk);
    assert((first + segment::parsed(disk[paths.last()])->Ok_0).take(first.len() as int) =~= first);
    if w.active.size > 0 {
        assert(paths[paths.len() - 1] == w.active.path);
        segment::lemma_bytes_hold_an_entry(disk[w.active.path]);
    }
}

/// Counting the entries in the first sealed segments gives how many are stored there.
pub proof fn lemma_bound(w: WalView, disk: Disk, files: FilesView, j: int)
    requires
        intact(w, disk),
        sealed_shown(w, disk, files),
        0 <= j <= w.sealed.len(),
    ensures
        wal::entries_of(files, wal::paths_of(w.dir, w.sealed).take(j)) == Ok::<
            Seq<EntryView>,
            WalErrorView,
        >(stored_in(disk, wal::paths_of(w.dir, w.sealed.take(j)))),
{
    let paths = w.segment_paths();
    let first = wal::paths_of(w.dir, w.sealed.take(j));
    assert(wal::paths_of(w.dir, w.sealed).take(j) =~= first);
    assert forall|i: int| 0 <= i < first.len() implies disk.contains_key(#[trigger] first[i])
        && segment::parsed(disk[first[i]]) is Ok && storage::shows(files, disk, first[i]) by {
        assert(first[i] == paths[i]);
        assert(first[i] == segment::path_of(w.dir, w.sealed[i]));
    }
    lemma_entries_of(files, disk, first);
}

/// More segments hold no fewer entries.
pub proof fn lemma_bounds_grow(disk: Disk, dir: Seq<char>, ids: Seq<u64>, a: int, b: int)
    requires
        0 <= a <= b <= ids.len(),
    ensures
        stored_in(disk, wal::paths_of(dir, ids.take(a))).len() <= stored_in(
            disk,
            wal::paths_of(dir, ids.take(b)),
        ).len(),
{
    let first = wal::paths_of(dir, ids.take(a));
    let rest = wal::paths_of(dir, ids.subrange(a, b));
    assert(wal::paths_of(dir, ids.take(b)) =~= first + rest);
    lemma_stored_concat(disk, first, rest);
}

/// The entries of two lists of files are those of the first, then of the second.
proof fn lemma_stored_concat(disk: Disk, a: Seq<Seq<char>>, b: Seq<Seq<char>>)
    ensures
        stored_in(disk, a + b) == stored_in(disk, a) + stored_in(disk, b),
    decreases b.len(),
{
    if b.len() == 0 {
        assert(a + b =~= a);
        assert(stored_in(disk, a) + stored_in(disk, b) =~= stored_in(disk, a));
    } else {
        assert((a + b).drop_last() =~= a + b.drop_last());
        assert((a + b).last() == b.last());
        lemma_stored_concat(disk, a, b.drop_last());
        assert(stored_in(disk, a + b) =~= stored_in(disk, a) + stored_in(disk, b));
    }
}

/// `w` with only the first `m` of its sealed segments looked at by a truncation.
spec fn truncated_in(w: WalView, files: FilesView, before: u64, m: int) -> WalView {
    WalView {
        sealed: wal::purge(files, w.dir, w.sealed.take(m), w.active.id, before).kept + w.sealed.skip(m),
        ..w
    }
}

/// However far a truncation has got, what is left is a suffix of what was stored.
proof fn lemma_truncated_in(
    w: WalView,
    disk: Disk,
    files: FilesView,
    before: u64,
    m: int,
) -> (k: int)
    requires
        intact(w, disk),
        sealed_shown(w, disk, files),
        0 <= m <= w.sealed.len(),
        w.active.size > 0 || wal::purge(files, w.dir, w.sealed.take(m), w.active.id, before).ops.len() == 0
            || floor::kept(disk, w.dir) == Ok::<u64, WalErrorView>(w.next_sequence),
    ensures
        ({
            let plan = wal::purge(files, w.dir, w.sealed.take(m), w.active.id, before);
            let after = truncated_in(w, files, before, m);
            let disk2 = storage::all_applied(disk, plan.ops);
            let all = stored(w, disk);
            &&& plan.error is None
            &&& forall|i: int| 0 <= i < plan.ops.len() ==> (#[trigger] plan.ops[i]) is Remove
            &&& intact(after, disk2)
            &&& 0 <= k <= all.len()
            &&& k <= stored_sealed(w, disk).len()
            &&& at_bound(disk, w.dir, w.sealed, k)
            &&& stored(after, disk2) == all.skip(k)
            &&& forall|i: int| 0 <= i < k ==> (#[trigger] all[i]).sequence < before
            &&& forall|i: int|
                0 <= i < plan.kept.len() ==> wal::max_sequence(
                    segment::parsed(
                        disk2[segment::path_of(w.dir, #[trigger] plan.kept[i])],
                    )->Ok_0,
                ) >= before
        }),
{
    let ids = segment_ids(w);
    let first_ids = w.sealed.take(m);
    let last_ids = w.sealed.skip(m);
    let plan = wal::purge(files, w.dir, first_ids, w.active.id, before);
    let after = truncated_in(w, files, before, m);
    let disk2 = storage::all_applied(disk, plan.ops);
    let all = stored(w, disk);
    let paths = w.segment_paths();
    // The files: those looked at, the other sealed ones, the active one.
    let first_paths = wal::paths_of(w.dir, first_ids);
    let rest_paths = wal::paths_of(w.dir, last_ids).push(w.active.path);
    assert(paths =~= first_paths + rest_paths);
    lemma_stored_concat(disk, first_paths, rest_paths);
    let first = stored_in(disk, first_paths);
    let rest = stored_in(disk, rest_paths);
    assert(all == first + rest);
    assert(wal::paths_of(w.dir, w.sealed) =~= first_paths + wal::paths_of(w.dir, last_ids));
    lemma_stored_concat(disk, first_paths, wal::paths_of(w.dir, last_ids));
    assert forall|i: int| 0 <= i < first_paths.len() implies disk.contains_key(
        #[trigger] first_paths[i],
    ) && segment::parsed(disk[first_paths[i]]) is Ok by {
        assert(first_paths[i] == paths[i]);
    }
    assert forall|i: int, j: int| 0 <= i < j < first.len() implies (
    #[trigger] first[i]).sequence < (#[trigger] first[j]).sequence by {
        assert(first[i] == all[i] && first[j] == all[j]);
    }
    assert forall|i: int, j: int| 0 <= i < j < first_ids.len() implies #[trigger] first_ids[i]
        < #[trigger] first_ids[j] by {
        assert(ids[i] == first_ids[i] && ids[j] == first_ids[j]);
    }
    assert forall|i: int| 0 <= i < first_ids.len() implies storage::shows(
        files,
        disk,
        segment::path_of(w.dir, #[trigger] first_ids[i]),
    ) by {
        assert(first_ids[i] == w.sealed[i]);
    }
    assert forall|i: int| 0 <= i < first_ids.len() implies #[trigger] first_ids[i]
        != w.active.id by {
        assert(ids[i] == first_ids[i]);
        assert(ids[w.sealed.len() as int] == w.active.id);
    }
    let k = lemma_purge(files, disk, w.dir, first_ids, w.active.id, before);
    assert(at_bound(disk, w.dir, w.sealed, k)) by {
        let j = choose|j: int|
            0 <= j <= first_ids.len() && k == stored_in(
                disk,
                wal::paths_of(w.dir, #[trigger] first_ids.take(j)),
            ).len();
        assert(first_ids.take(j) =~= w.sealed.take(j));
    }
    storage::lemma_all_removed(disk, plan.ops);
    // What was not looked at is as it was.
    assert forall|i: int| 0 <= i < rest_paths.len() implies disk2.contains_key(
        #[trigger] rest_paths[i],
    ) && disk2[rest_paths[i]] == disk[rest_paths[i]] && segment::parsed(
        disk[rest_paths[i]],
    ) is Ok by {
        let path = rest_paths[i];
        assert(paths[m + i] == path);
        lemma_paths(w);
        assert(path == segment::path_of(w.dir, ids[m + i]));
        if plan.ops.contains(FileOp::Remove(path)) {
            let j = choose|j: int|
                0 <= j < first_ids.len() && path == segment::path_of(
                    w.dir,
                    #[trigger] first_ids[j],
                );
            assert(first_ids[j] == ids[j]);
            segment::segment_paths_differ(w.dir, ids[j], ids[m + i]);
        }
        assert(disk.contains_key(path));
    }
    // What was looked at and kept is as it was too.
    let kept_paths = wal::paths_of(w.dir, plan.kept);
    assert forall|i: int| 0 <= i < kept_paths.len() implies disk2.contains_key(
        #[trigger] kept_paths[i],
    ) && disk2[kept_paths[i]] == disk[kept_paths[i]] && segment::parsed(
        disk[kept_paths[i]],
    ) is Ok by {
        let id = plan.kept[i];
        assert(first_ids.contains(id));
        let j = choose|j: int| 0 <= j < first_ids.len() && first_ids[j] == id;
        assert(paths[j] == kept_paths[i]);
        assert(plan.kept.contains(id));
    }
    let left = after.segment_paths();
    assert(left =~= kept_paths + rest_paths);
    lemma_stored_concat(disk2, kept_paths, rest_paths);
    lemma_stored_frame(disk, disk2, kept_paths);
    lemma_stored_frame(disk, disk2, rest_paths);
    assert(first.skip(k) + rest =~= all.skip(k));
    assert(left[left.len() - 1] == w.active.path);
    assert(rest_paths[rest_paths.len() - 1] == w.active.path);
    assert forall|i: int| 0 <= i < left.len() implies disk2.contains_key(#[trigger] left[i])
        && segment::parsed(disk2[left[i]]) is Ok by {
        if i < kept_paths.len() {
            assert(left[i] == kept_paths[i]);
        } else {
            assert(left[i] == rest_paths[i - kept_paths.len()]);
        }
    }
    assert(ascending(segment_ids(after))) by {
        let kept_ids = segment_ids(after);
        let n = plan.kept.len();
        assert forall|i: int, j: int| 0 <= i < j < kept_ids.len() implies #[trigger] kept_ids[i]
            < #[trigger] kept_ids[j] by {
            if j >= n {
                assert(kept_ids[j] == ids[m + j - n]);
                if i >= n {
                    assert(kept_ids[i] == ids[m + i - n]);
                } else {
                    assert(kept_ids[i] == plan.kept[i]);
                    assert(first_ids.contains(plan.kept[i]));
                    let q = choose|q: int|
                        0 <= q < first_ids.len() && first_ids[q] == plan.kept[i];
                    assert(ids[q] == plan.kept[i]);
                }
            } else {
                assert(kept_ids[i] == plan.kept[i]);
                assert(kept_ids[j] == plan.kept[j]);
            }
        }
    }
    assert forall|path: Seq<char>| #[trigger]
        disk2.contains_key(path) && segment::is_segment_file(path) implies left.contains(path) by {
        assert(disk.contains_key(path));
        let j = choose|j: int| 0 <= j < paths.len() && paths[j] == path;
        if j < m {
            let id = first_ids[j];
            assert(first_ids.contains(id));
            assert(plan.kept.contains(id));
            let i = choose|i: int| 0 <= i < plan.kept.len() && plan.kept[i] == id;
            assert(kept_paths[i] == path);
            assert(left[i] == path);
        } else {
            assert(rest_paths[j - m] == path);
            assert(left[kept_paths.len() + j - m] == path);
        }
    }
    lemma_records_are_apart(w.dir);
    assert forall|path: Seq<char>| !segment::is_segment_file(path) implies !#[trigger] plan.ops.contains(
        FileOp::Remove(path),
    ) by {
        if plan.ops.contains(FileOp::Remove(path)) {
            let i = choose|i: int|
                0 <= i < first_ids.len() && path == segment::path_of(
                    w.dir,
                    #[trigger] first_ids[i],
                );
            segment::segment_path_states_its_id(w.dir, first_ids[i]);
        }
    }
    assert(!plan.ops.contains(FileOp::Remove(checkpoint::file_path(w.dir))));
    assert(!plan.ops.contains(FileOp::Remove(floor::file_path(w.dir))));
    assert(number_kept(after, disk2)) by {
        if w.active.size > 0 {
            segment::lemma_bytes_hold_an_entry(disk[w.active.path]);
            assert(rest_paths.last() == w.active.path);
        }
    }
    assert forall|i: int| 0 <= i < k implies (#[trigger] all[i]).sequence < before by {
        assert(all[i] == first[i]);
    }
    assert forall|i: int| 0 <= i < plan.kept.len() implies wal::max_sequence(
        segment::parsed(disk2[segment::path_of(w.dir, #[trigger] plan.kept[i])])->Ok_0,
    ) >= before by {
        assert(kept_paths[i] == segment::path_of(w.dir, plan.kept[i]));
    }
    k
}

/// Recording the next sequence number changes nothing that is stored, and neither
/// does a crash on the way.
proof fn lemma_floor_raised(w: WalView, disk: Disk, after: Disk)
    requires
        intact(w, disk),
        storage::crashed(disk, floor::raise_ops(w.dir, w.next_sequence), after),
    ensures
        intact(w, after),
        stored(w, after) == stored(w, disk),
        stored_sealed(w, after) == stored_sealed(w, disk),
        forall|p: Seq<char>|
            segment::is_segment_file(p) ==> #[trigger] storage::same_file(after, disk, p),
{
    let list = floor::raise_ops(w.dir, w.next_sequence);
    lemma_records_are_apart(w.dir);
    assert forall|p: Seq<char>| segment::is_segment_file(p) implies #[trigger] storage::same_file(
        after,
        disk,
        p,
    ) by {
        storage::lemma_crash_spares(disk, list, after, p);
    }
    lemma_same_segments(w, w.checkpoint, disk, after);
    assert(WalView { checkpoint: w.checkpoint, ..w } == w);
    let sealed_paths = wal::paths_of(w.dir, w.sealed);
    assert forall|i: int| 0 <= i < sealed_paths.len() implies after[#[trigger] sealed_paths[i]]
        == disk[sealed_paths[i]] by {
        segment::segment_path_states_its_id(w.dir, w.sealed[i]);
        assert(storage::same_file(after, disk, sealed_paths[i]));
        assert(w.segment_paths()[i] == sealed_paths[i]);
    }
    lemma_stored_frame(after, disk, sealed_paths);
    storage::lemma_crash_spares(disk, list, after, checkpoint::file_path(w.dir));
    floor::floor_survives_a_crash(w.dir, w.next_sequence, disk, after);
}

/// Files that tell of the sealed segments on one disk tell of those on another with
/// the same segments.
proof fn lemma_shown_again(w: WalView, disk: Disk, after: Disk, files: FilesView)
    requires
        sealed_shown(w, disk, files),
        forall|p: Seq<char>|
            segment::is_segment_file(p) ==> #[trigger] storage::same_file(after, disk, p),
    ensures
        sealed_shown(w, after, files),
{
    assert forall|i: int| 0 <= i < w.sealed.len() implies storage::shows(
        files,
        after,
        segment::path_of(w.dir, #[trigger] w.sealed[i]),
    ) by {
        segment::segment_path_states_its_id(w.dir, w.sealed[i]);
        assert(storage::same_file(after, disk, segment::path_of(w.dir, w.sealed[i])));
    }
}

/// Bounds are the same on a disk with the same segments.
proof fn lemma_same_bound(w: WalView, disk: Disk, after: Disk, k: int)
    requires
        intact(w, disk),
        at_bound(after, w.dir, w.sealed, k),
        forall|p: Seq<char>|
            segment::is_segment_file(p) ==> #[trigger] storage::same_file(after, disk, p),
    ensures
        at_bound(disk, w.dir, w.sealed, k),
{
    let j = choose|j: int|
        0 <= j <= w.sealed.len() && k == stored_in(
            after,
            wal::paths_of(w.dir, #[trigger] w.sealed.take(j)),
        ).len();
    let paths = wal::paths_of(w.dir, w.sealed.take(j));
    assert forall|i: int| 0 <= i < paths.len() implies after[#[trigger] paths[i]]
        == disk[paths[i]] by {
        segment::segment_path_states_its_id(w.dir, w.sealed[i]);
        assert(w.segment_paths()[i] == paths[i]);
        assert(storage::same_file(after, disk, paths[i]));
    }
    lemma_stored_frame(after, disk, paths);
}

/// The highest sequence number is that of some entry.
proof fn lemma_max_is_there(entries: Seq<EntryView>)
    requires
        wal::max_sequence(entries) > 0,
    ensures
        exists|i: int|
            0 <= i < entries.len() && (#[trigger] entries[i]).sequence == wal::max_sequence(entries),
    decreases entries.len(),
{
    if entries.len() > 0 {
        let head = entries.drop_last();
        if entries.last().sequence > wal::max_sequence(head) {
            assert(entries[entries.len() - 1].sequence == wal::max_sequence(entries));
        } else {
            lemma_max_is_there(head);
            let i = choose|i: int|
                0 <= i < head.len() && (#[trigger] head[i]).sequence == wal::max_sequence(head);
            assert(entries[i].sequence == wal::max_sequence(entries));
        }
    }
}

/// Segment `id` in `dir` holds an entry from `before` on.
pub open spec fn reaches(disk: Disk, dir: Seq<char>, id: u64, before: u64) -> bool {
    exists|i: int|
        0 <= i < segment::parsed(disk[segment::path_of(dir, id)])->Ok_0.len() && (
        #[trigger] segment::parsed(disk[segment::path_of(dir, id)])->Ok_0[i]).sequence >= before
}

/// Truncating drops whole segments from the front: what is left is a suffix of
/// what was stored, every entry that went came before `before`, the active
/// segment is untouched, and every sealed segment that is left holds an entry from
/// `before` on. The next sequence number and the checkpoint stay.
pub proof fn truncate_keeps_later_entries(
    w: WalView,
    disk: Disk,
    files: FilesView,
    before: u64,
)
    requires
        intact(w, disk),
        sealed_shown(w, disk, files),
    ensures
        ({
            let after = w.truncated(before, files, OutcomeView::Done);
            let disk2 = storage::all_applied(disk, w.truncate_ops(before, files));
            let all = stored(w, disk);
            &&& w.truncate_result(before, files, OutcomeView::Done) is Ok
            &&& intact(after, disk2)
            &&& after.active == w.active
            &&& disk2[w.active.path] == disk[w.active.path]
            &&& after.next_sequence == w.next_sequence
            &&& after.checkpoint == w.checkpoint
            &&& exists|k: int|
                0 <= k <= stored_sealed(w, disk).len() && stored(after, disk2)
                    == #[trigger] all.skip(k) && at_bound(disk, w.dir, w.sealed, k) && forall|
                    i: int,
                | 0 <= i < k ==> (#[trigger] all[i]).sequence < before
            &&& wal::since(stored(after, disk2), before) == wal::since(all, before)
            &&& forall|i: int|
                0 <= i < after.sealed.len() && before > 0 ==> reaches(
                    disk2,
                    w.dir,
                    #[trigger] after.sealed[i],
                    before,
                )
        }),
{
    let n = w.sealed.len() as int;
    assert(w.sealed.take(n) =~= w.sealed);
    let plan = wal::purge(files, w.dir, w.sealed, w.active.id, before);
    let raised = floor::raise_ops(w.dir, w.next_sequence);
    let disk1 = if w.active.size == 0 && plan.ops.len() > 0 {
        storage::all_applied(disk, raised)
    } else {
        disk
    };
    if w.active.size == 0 && plan.ops.len() > 0 {
        lemma_floor_raised(w, disk, disk1);
        floor::raised_floor_is_reloaded(w.dir, w.next_sequence, disk);
        lemma_shown_again(w, disk, disk1, files);
        storage::lemma_all_applied_concat(disk, raised, plan.ops);
    }
    let k = lemma_truncated_in(w, disk1, files, before, n);
    if w.active.size == 0 && plan.ops.len() > 0 {
        lemma_same_bound(w, disk, disk1, k);
    }
    assert(plan.kept + w.sealed.skip(n) =~= plan.kept);
    lemma_since_skip(stored(w, disk), k, before);
    let after = w.truncated(before, files, OutcomeView::Done);
    let disk2 = storage::all_applied(disk, w.truncate_ops(before, files));
    assert(after == truncated_in(w, files, before, n));
    assert(disk2 == storage::all_applied(disk1, plan.ops));
    assert forall|i: int| 0 <= i < after.sealed.len() && before > 0 implies reaches(
        disk2,
        w.dir,
        #[trigger] after.sealed[i],
        before,
    ) by {
        lemma_max_is_there(
            segment::parsed(disk2[segment::path_of(w.dir, after.sealed[i])])->Ok_0,
        );
    }
    let paths = after.segment_paths();
    assert(paths[paths.len() - 1] == w.active.path);
    assert(disk2.contains_key(w.active.path));
    storage::lemma_all_removed(disk1, plan.ops);
    segment::segment_path_states_its_id(w.dir, w.active.id);
    if w.active.size == 0 && plan.ops.len() > 0 {
        assert(storage::same_file(disk1, disk, w.active.path));
    }
}

/// The WAL `again` is `w` less some of its oldest entries, all of them before
/// `before`.
pub open spec fn shortened(
    again: WalView,
    after: Disk,
    w: WalView,
    disk: Disk,
    before: u64,
) -> bool {
    &&& intact(again, after)
    &&& again == (WalView { sealed: again.sealed, ..w })
    &&& wal::since(stored(again, after), before) == wal::since(stored(w, disk), before)
    &&& exists|k: int|
        0 <= k <= stored_sealed(w, disk).len() && stored(again, after) == #[trigger] stored(
            w,
            disk,
        ).skip(k) && at_bound(disk, w.dir, w.sealed, k) && forall|i: int|
            0 <= i < k ==> (#[trigger] stored(w, disk)[i]).sequence < before
}

/// The removals up to any point are those for the first so many segments.
proof fn lemma_first_removals(
    files: FilesView,
    dir: Seq<char>,
    ids: Seq<u64>,
    active: u64,
    before: u64,
    j: int,
) -> (m: int)
    requires
        0 <= j <= wal::purge(files, dir, ids, active, before).ops.len(),
    ensures
        0 <= m <= ids.len(),
        wal::purge(files, dir, ids.take(m), active, before).ops == wal::purge(
            files,
            dir,
            ids,
            active,
            before,
        ).ops.take(j),
    decreases ids.len(),
{
    let list = wal::purge(files, dir, ids, active, before).ops;
    if j == list.len() {
        assert(ids.take(ids.len() as int) =~= ids);
        assert(list.take(j) =~= list);
        ids.len() as int
    } else {
        let earlier = wal::purge(files, dir, ids.drop_last(), active, before).ops;
        let m = lemma_first_removals(files, dir, ids.drop_last(), active, before, j);
        assert(ids.drop_last().take(m) =~= ids.take(m));
        assert(earlier.take(j) =~= list.take(j));
        m
    }
}

/// Truncating only records a number and removes files.
pub proof fn lemma_truncation_appends_nothing(w: WalView, files: FilesView, before: u64)
    ensures
        forall|i: int|
            0 <= i < w.truncate_ops(before, files).len() ==> !(#[trigger] w.truncate_ops(
                before,
                files,
            )[i] is Append),
{
    lemma_purge_only_removes(files, w.dir, w.sealed, w.active.id, before);
    let removals = wal::purge(files, w.dir, w.sealed, w.active.id, before).ops;
    let raised = floor::raise_ops(w.dir, w.next_sequence);
    assert forall|i: int| 0 <= i < w.truncate_ops(before, files).len() implies !(
    #[trigger] w.truncate_ops(before, files)[i] is Append) by {
        if w.active.size == 0 && removals.len() > 0 {
            if i < raised.len() {
                assert(w.truncate_ops(before, files)[i] == raised[i]);
            } else {
                assert(w.truncate_ops(before, files)[i] == removals[i - raised.len()]);
            }
        }
    }
}

pub proof fn lemma_purge_only_removes(
    files: FilesView,
    dir: Seq<char>,
    ids: Seq<u64>,
    active: u64,
    before: u64,
)
    ensures
        forall|i: int|
            0 <= i < wal::purge(files, dir, ids, active, before).ops.len() ==> (
            #[trigger] wal::purge(files, dir, ids, active, before).ops[i]) is Remove,
    decreases ids.len(),
{
    if ids.len() > 0 {
        lemma_purge_only_removes(files, dir, ids.drop_last(), active, before);
    }
}

/// A crash in the middle of a truncation leaves a WAL that has lost nothing from
/// `before` on.
pub proof fn truncation_survives_a_crash(
    w: WalView,
    disk: Disk,
    files: FilesView,
    before: u64,
    after: Disk,
)
    requires
        intact(w, disk),
        sealed_shown(w, disk, files),
        storage::crashed(disk, w.truncate_ops(before, files), after),
    ensures
        exists|again: WalView| #[trigger] shortened(again, after, w, disk, before),
{
    let plan = wal::purge(files, w.dir, w.sealed, w.active.id, before);
    if w.active.size == 0 && plan.ops.len() > 0 {
        let raised = floor::raise_ops(w.dir, w.next_sequence);
        let disk1 = storage::all_applied(disk, raised);
        storage::lemma_crashed_concat(disk, raised, plan.ops, after);
        if storage::crashed(disk, raised, after) {
            lemma_floor_raised(w, disk, after);
            assert(stored(w, disk).skip(0) =~= stored(w, disk));
            assert(wal::paths_of(w.dir, w.sealed.take(0)) =~= Seq::<Seq<char>>::empty());
            assert(at_bound(disk, w.dir, w.sealed, 0));
            assert(shortened(w, after, w, disk, before));
        } else {
            lemma_floor_raised(w, disk, disk1);
            floor::raised_floor_is_reloaded(w.dir, w.next_sequence, disk);
            lemma_shown_again(w, disk, disk1, files);
            let again = lemma_crash_in_removals(w, disk1, files, before, after);
            let k = choose|k: int|
                0 <= k <= stored_sealed(w, disk1).len() && stored(again, after)
                    == #[trigger] stored(w, disk1).skip(k) && at_bound(
                    disk1,
                    w.dir,
                    w.sealed,
                    k,
                ) && forall|i: int|
                    0 <= i < k ==> (#[trigger] stored(w, disk1)[i]).sequence < before;
            lemma_same_bound(w, disk, disk1, k);
            assert(stored(again, after) == stored(w, disk).skip(k));
            assert(shortened(again, after, w, disk, before));
        }
    } else {
        let again = lemma_crash_in_removals(w, disk, files, before, after);
    }
}

proof fn lemma_crash_in_removals(
    w: WalView,
    disk: Disk,
    files: FilesView,
    before: u64,
    after: Disk,
) -> (again: WalView)
    requires
        intact(w, disk),
        sealed_shown(w, disk, files),
        storage::crashed(disk, wal::purge(files, w.dir, w.sealed, w.active.id, before).ops, after),
        w.active.size > 0 || wal::purge(files, w.dir, w.sealed, w.active.id, before).ops.len() == 0
            || floor::kept(disk, w.dir) == Ok::<u64, WalErrorView>(w.next_sequence),
    ensures
        shortened(again, after, w, disk, before),
{
    let list = wal::purge(files, w.dir, w.sealed, w.active.id, before).ops;
    let n = w.sealed.len() as int;
    assert(w.sealed.take(n) =~= w.sealed);
    let _ = lemma_truncated_in(w, disk, files, before, n);
    // The disk is the one after some number of removals.
    let j = if after == storage::all_applied(disk, list) {
        list.len() as int
    } else {
        let k = choose|k: int|
            0 <= k < list.len() && #[trigger] storage::stopped_at(disk, list, k, after);
        assert(list[k] is Remove);
        if k > 0 {
            assert(list[k - 1] is Remove);
        }
        if after == storage::all_applied(disk, list.take(k)) {
            k
        } else {
            assert(list.take(k + 1).drop_last() =~= list.take(k));
            assert(list.take(k + 1).last() == list[k]);
            k + 1
        }
    };
    assert(list.take(list.len() as int) =~= list);
    assert(after == storage::all_applied(disk, list.take(j)));
    let m = lemma_first_removals(files, w.dir, w.sealed, w.active.id, before, j);
    let k = lemma_truncated_in(w, disk, files, before, m);
    let again = truncated_in(w, files, before, m);
    lemma_since_skip(stored(w, disk), k, before);
    assert(stored(again, after) == stored(w, disk).skip(k));
    again
}

/// Entries before `from` make no difference to what is read from `from` on.
proof fn lemma_since_skip(entries: Seq<EntryView>, k: int, from: u64)
    requires
        0 <= k <= entries.len(),
        forall|i: int| 0 <= i < k ==> (#[trigger] entries[i]).sequence < from,
    ensures
        wal::since(entries.skip(k), from) == wal::since(entries, from),
    decreases entries.len(),
{
    if k == entries.len() {
        assert(entries.skip(k) =~= Seq::<EntryView>::empty());
        lemma_since_none(entries, from);
    } else {
        let head = entries.drop_last();
        assert forall|i: int| 0 <= i < k implies (#[trigger] head[i]).sequence < from by {
            assert(head[i] == entries[i]);
        }
        lemma_since_skip(head, k, from);
        assert(entries.skip(k).drop_last() =~= head.skip(k));
        assert(entries.skip(k).last() == entries.last());
    }
}

proof fn lemma_since_none(entries: Seq<EntryView>, from: u64)
    requires
        forall|i: int| 0 <= i < entries.len() ==> (#[trigger] entries[i]).sequence < from,
    ensures
        wal::since(entries, from) == Seq::<EntryView>::empty(),
    decreases entries.len(),
{
    if entries.len() > 0 {
        let head = entries.drop_last();
        assert(entries[entries.len() - 1].sequence < from);
        assert forall|i: int| 0 <= i < head.len() implies (#[trigger] head[i]).sequence < from by {
            assert(head[i] == entries[i]);
        }
        lemma_since_none(head, from);
    }
}

// ─── Reopening ───────────────────────────────────────────────────────────────

/// Two lists of the same paths, both in strictly ascending order, are equal.
proof fn lemma_strict_order_is_unique(a: Seq<Seq<char>>, b: Seq<Seq<char>>)
    requires
        forall|i: int, j: int|
            0 <= i < j < a.len() ==> segment::sort_key(#[trigger] a[i]) < segment::sort_key(
                #[trigger] a[j],
            ),
        forall|i: int, j: int|
            0 <= i < j < b.len() ==> segment::sort_key(#[trigger] b[i]) < segment::sort_key(
                #[trigger] b[j],
            ),
        forall|q: Seq<char>| #[trigger] a.contains(q) <==> b.contains(q),
    ensures
        a == b,
    decreases a.len(),
{
    if a.len() == 0 {
        if b.len() > 0 {
            assert(b.contains(b[0]));
            assert(a.contains(b[0]));
        }
        assert(a =~= b);
    } else {
        let x = a[a.len() - 1];
        assert(a.contains(x));
        assert(b.contains(x));
        let j = choose|j: int| 0 <= j < b.len() && b[j] == x;
        let y = b[b.len() - 1];
        assert(b.contains(y));
        assert(a.contains(y));
        let i = choose|i: int| 0 <= i < a.len() && a[i] == y;
        if j < b.len() - 1 {
            assert(segment::sort_key(b[j]) < segment::sort_key(y));
            if i < a.len() - 1 {
                assert(segment::sort_key(a[i]) < segment::sort_key(x));
            }
            assert(false);
        }
        assert(x == y);
        let c = a.drop_last();
        let d = b.drop_last();
        assert forall|q: Seq<char>| #[trigger] c.contains(q) <==> d.contains(q) by {
            if c.contains(q) {
                let m = choose|m: int| 0 <= m < c.len() && c[m] == q;
                assert(a[m] == q);
                assert(segment::sort_key(a[m]) < segment::sort_key(a[a.len() - 1]));
                assert(a.contains(q));
                assert(b.contains(q));
                let n = choose|n: int| 0 <= n < b.len() && b[n] == q;
                assert(n < b.len() - 1);
                assert(d[n] == q);
            }
            if d.contains(q) {
                let m = choose|m: int| 0 <= m < d.len() && d[m] == q;
                assert(b[m] == q);
                assert(segment::sort_key(b[m]) < segment::sort_key(b[b.len() - 1]));
                assert(b.contains(q));
                assert(a.contains(q));
                let n = choose|n: int| 0 <= n < a.len() && a[n] == q;
                assert(n < a.len() - 1);
                assert(c[n] == q);
            }
        }
        assert forall|i: int, j: int| 0 <= i < j < c.len() implies segment::sort_key(
            #[trigger] c[i],
        ) < segment::sort_key(#[trigger] c[j]) by {
            assert(c[i] == a[i] && c[j] == a[j]);
        }
        assert forall|i: int, j: int| 0 <= i < j < d.len() implies segment::sort_key(
            #[trigger] d[i],
        ) < segment::sort_key(#[trigger] d[j]) by {
            assert(d[i] == b[i] && d[j] == b[j]);
        }
        lemma_strict_order_is_unique(c, d);
        assert(a =~= c.push(x));
        assert(b =~= d.push(y));
    }
}

/// Listing the directory finds the segments of `w`, in order.
proof fn lemma_listing(w: WalView, disk: Disk, files: FilesView)
    requires
        laid_out(w, disk),
        storage::read_from_disk(files, disk),
    ensures
        segment::listed(storage::paths(files)) == w.segment_paths(),
        wal::ids_of(w.segment_paths().drop_last()) == w.sealed,
        segment::id_of(w.active.path) == Ok::<u64, WalErrorView>(w.active.id),
        wal::sealed_names_valid(files),
{
    let all = storage::paths(files);
    let found = segment::listed(all);
    let paths = w.segment_paths();
    let ids = segment_ids(w);
    lemma_paths(w);
    assert forall|i: int| 0 <= i < paths.len() implies segment::id_of(#[trigger] paths[i]) == Ok::<
        u64,
        WalErrorView,
    >(ids[i]) && segment::is_segment_file(paths[i]) by {
        segment::segment_path_states_its_id(w.dir, ids[i]);
    }
    storage::lemma_paths_are_distinct(files, disk);
    segment::listing_is_sorted_and_complete(all);
    assert forall|q: Seq<char>| #[trigger] all.contains(q) <==> disk.contains_key(q) by {
        if all.contains(q) {
            let i = choose|i: int| 0 <= i < all.len() && all[i] == q;
            assert(disk.contains_key(files[i].0));
        }
        if disk.contains_key(q) {
            let i = choose|i: int| 0 <= i < files.len() && (#[trigger] files[i]).0 == q;
            assert(all[i] == q);
        }
    }
    assert forall|q: Seq<char>| #[trigger] found.contains(q) <==> paths.contains(q) by {
        assert(all.contains(q) <==> disk.contains_key(q));
        if paths.contains(q) {
            let i = choose|i: int| 0 <= i < paths.len() && paths[i] == q;
            assert(disk.contains_key(paths[i]));
        }
    }
    assert forall|i: int, j: int| 0 <= i < j < found.len() implies segment::sort_key(
        #[trigger] found[i],
    ) < segment::sort_key(#[trigger] found[j]) by {
        assert(found.contains(found[i]) && found.contains(found[j]));
        assert(found[i] != found[j]);
        let m = choose|m: int| 0 <= m < paths.len() && paths[m] == found[i];
        let n = choose|n: int| 0 <= n < paths.len() && paths[n] == found[j];
        assert(segment::sort_key(found[i]) <= segment::sort_key(found[j]));
        assert(ids[m] != ids[n]);
    }
    assert forall|i: int, j: int| 0 <= i < j < paths.len() implies segment::sort_key(
        #[trigger] paths[i],
    ) < segment::sort_key(#[trigger] paths[j]) by {
        assert(ids[i] < ids[j]);
    }
    lemma_strict_order_is_unique(found, paths);
    assert(wal::ids_of(paths.drop_last()) =~= w.sealed) by {
        assert forall|i: int| 0 <= i < w.sealed.len() implies wal::ids_of(
            paths.drop_last(),
        )[i] == w.sealed[i] by {
            assert(paths.drop_last()[i] == paths[i]);
            assert(ids[i] == w.sealed[i]);
        }
    }
    assert(paths[paths.len() - 1] == w.active.path);
    assert(ids[ids.len() - 1] == w.active.id);
}

/// The newest sealed entry is the last one stored in the sealed segments.
proof fn lemma_newest(files: FilesView, disk: Disk, dir: Seq<char>, ids: Seq<u64>)
    requires
        storage::read_from_disk(files, disk),
        readable(disk, wal::paths_of(dir, ids)),
    ensures
        wal::newest_sealed(files, dir, ids) == Ok::<Option<u64>, WalErrorView>(
            last_sequence(stored_in(disk, wal::paths_of(dir, ids))),
        ),
    decreases ids.len(),
{
    if ids.len() > 0 {
        let paths = wal::paths_of(dir, ids);
        let head = ids.drop_last();
        let head_paths = wal::paths_of(dir, head);
        assert(paths.drop_last() =~= head_paths);
        assert(paths[paths.len() - 1] == segment::path_of(dir, ids.last()));
        assert forall|i: int| 0 <= i < head_paths.len() implies disk.contains_key(
            #[trigger] head_paths[i],
        ) && segment::parsed(disk[head_paths[i]]) is Ok by {
            assert(head_paths[i] == paths[i]);
        }
        lemma_newest(files, disk, dir, head);
        storage::lemma_lookup_on_disk(files, disk, paths.last());
        let tail = segment::parsed(disk[paths.last()])->Ok_0;
        let first = stored_in(disk, head_paths);
        if tail.len() > 0 {
            assert((first + tail).last() == tail.last());
        } else {
            assert(first + tail =~= first);
        }
    }
}

/// The sequence number of the last entry, if there is one.
pub open spec fn last_sequence(entries: Seq<EntryView>) -> Option<u64> {
    if entries.len() > 0 {
        Some(entries.last().sequence)
    } else {
        None
    }
}

/// `w` as it is when it is opened again under another configuration.
pub open spec fn reconfigured(w: WalView, max_segment_bytes: u64, sync_writes: bool) -> WalView {
    WalView {
        max_segment_bytes,
        sync_writes,
        active: SegmentView { max_bytes: max_segment_bytes, ..w.active },
        ..w
    }
}

/// Opening a WAL whose active segment ends in an incomplete entry gives the WAL as
/// it was before that entry, and cuts the segment back to it.
pub proof fn opening_drops_an_incomplete_entry(
    w: WalView,
    disk: Disk,
    after: Disk,
    files: FilesView,
    max_segment_bytes: u64,
    sync_writes: bool,
)
    requires
        intact(w, disk),
        storage::read_from_disk(files, after),
        after.contains_key(w.active.path),
        segment::mended(after[w.active.path]) == disk[w.active.path],
        forall|p: Seq<char>|
            p != w.active.path ==> #[trigger] storage::same_file(after, disk, p),
    ensures
        wal::openable(w.dir, files, OutcomeView::Done),
        wal::open_result(w.dir, max_segment_bytes, sync_writes, files, OutcomeView::Done) == Ok::<
            WalView,
            WalErrorView,
        >(reconfigured(w, max_segment_bytes, sync_writes)),
        storage::all_applied(after, wal::open_ops(w.dir, files)) == disk,
        intact(reconfigured(w, max_segment_bytes, sync_writes), disk),
        stored(reconfigured(w, max_segment_bytes, sync_writes), disk) == stored(w, disk),
{
    let again = reconfigured(w, max_segment_bytes, sync_writes);
    let paths = w.segment_paths();
    let path = w.active.path;
    let raw = after[path];
    let sealed_paths = wal::paths_of(w.dir, w.sealed);
    assert(paths.drop_last() =~= sealed_paths);
    assert(paths[paths.len() - 1] == path);
    lemma_active_is_apart(w);
    lemma_records_are_apart(w.dir);
    segment::segment_path_states_its_id(w.dir, w.active.id);
    assert forall|i: int| 0 <= i < paths.len() implies after.contains_key(#[trigger] paths[i]) by {
        assert(disk.contains_key(paths[i]));
        if paths[i] != path {
            assert(storage::same_file(after, disk, paths[i]));
        }
    }
    assert forall|p: Seq<char>| #[trigger]
        after.contains_key(p) && segment::is_segment_file(p) implies paths.contains(p) by {
        if p != path {
            assert(storage::same_file(after, disk, p));
        }
        assert(disk.contains_key(p));
    }
    lemma_listing(w, after, files);
    storage::lemma_lookup_on_disk(files, after, path);
    storage::lemma_lookup_on_disk(files, after, checkpoint::file_path(w.dir));
    storage::lemma_lookup_on_disk(files, after, floor::file_path(w.dir));
    assert(storage::same_file(after, disk, checkpoint::file_path(w.dir)));
    assert(storage::same_file(after, disk, floor::file_path(w.dir)));
    assert forall|i: int| 0 <= i < sealed_paths.len() implies after.contains_key(
        #[trigger] sealed_paths[i],
    ) && segment::parsed(after[sealed_paths[i]]) is Ok && after[sealed_paths[i]]
        == disk[sealed_paths[i]] by {
        assert(sealed_paths[i] == paths[i]);
        assert(sealed_paths[i] == segment::path_of(w.dir, w.sealed[i]));
        assert(storage::same_file(after, disk, sealed_paths[i]));
    }
    lemma_newest(files, after, w.dir, w.sealed);
    lemma_stored_frame(after, disk, sealed_paths);
    segment::lemma_whole_len_bounds(raw, 0);
    let first = stored_in(disk, sealed_paths);
    let tail = segment::parsed(disk[path])->Ok_0;
    let all = stored(w, disk);
    assert(all == first + tail);
    if tail.len() > 0 {
        assert(all.last() == tail.last());
    } else {
        assert(all =~= first);
    }
    if all.len() > 0 {
        assert(all[all.len() - 1].sequence == w.next_sequence - 1);
    }
    assert(wal::highest(files, path, w.sealed, w.dir) == Ok::<Option<u64>, WalErrorView>(
        last_sequence(all),
    ));
    let list = wal::open_ops(w.dir, files);
    reveal_with_fuel(storage::all_applied, 3);
    if wal::is_torn(files, path) {
        assert(list.drop_last().last() == list[0]);
        assert(list.drop_last().drop_last() =~= Seq::<FileOp>::empty());
        assert(storage::all_applied(after, list) == after.insert(path, disk[path]));
    } else {
        assert(list.drop_last() =~= Seq::<FileOp>::empty());
        assert(segment::mended(raw) =~= raw);
        assert(storage::all_applied(after, list) == after);
    }
    let done = storage::all_applied(after, list);
    assert forall|p: Seq<char>| #[trigger] done.dom().contains(p) == disk.dom().contains(p) by {
        if p != path {
            assert(storage::same_file(after, disk, p));
        }
    }
    assert forall|p: Seq<char>| #[trigger] done.dom().contains(p) implies done[p] == disk[p] by {
        if p != path {
            assert(storage::same_file(after, disk, p));
        }
    }
    assert(done.dom() =~= disk.dom());
    assert(done =~= disk);
    assert(again.segment_paths() =~= paths);
    assert(segment_ids(again) =~= segment_ids(w));
}

/// Opening a WAL again gives it back as it was left: its segments, its
/// checkpoint and the next sequence number.
pub proof fn reopening_restores_the_wal(
    w: WalView,
    disk: Disk,
    files: FilesView,
    max_segment_bytes: u64,
    sync_writes: bool,
)
    requires
        intact(w, disk),
        storage::read_from_disk(files, disk),
    ensures
        wal::openable(w.dir, files, OutcomeView::Done),
        wal::open_result(w.dir, max_segment_bytes, sync_writes, files, OutcomeView::Done) == Ok::<
            WalView,
            WalErrorView,
        >(reconfigured(w, max_segment_bytes, sync_writes)),
        storage::all_applied(disk, wal::open_ops(w.dir, files)) == disk,
        intact(reconfigured(w, max_segment_bytes, sync_writes), disk),
        stored(reconfigured(w, max_segment_bytes, sync_writes), disk) == stored(w, disk),
{
    let paths = w.segment_paths();
    assert(paths[paths.len() - 1] == w.active.path);
    assert(disk.contains_key(w.active.path));
    segment::lemma_whole_file(disk[w.active.path]);
    opening_drops_an_incomplete_entry(w, disk, disk, files, max_segment_bytes, sync_writes);
}

/// What is above a number are the entries with a higher one: all of them, and no
/// other.
proof fn lemma_above(entries: Seq<EntryView>, sequence: u64)
    ensures
        forall|i: int|
            0 <= i < wal::above(entries, sequence).len() ==> (#[trigger] wal::above(
                entries,
                sequence,
            )[i]).sequence > sequence,
        forall|i: int|
            0 <= i < entries.len() && (#[trigger] entries[i]).sequence > sequence ==> wal::above(
                entries,
                sequence,
            ).contains(entries[i]),
    decreases entries.len(),
{
    if entries.len() > 0 {
        let head = entries.drop_last();
        let rest = wal::above(head, sequence);
        let found = wal::above(entries, sequence);
        lemma_above(head, sequence);
        assert forall|i: int| 0 <= i < entries.len() && (#[trigger] entries[i]).sequence
            > sequence implies found.contains(entries[i]) by {
            if i < head.len() {
                assert(head[i] == entries[i]);
                assert(rest.contains(head[i]));
                let j = choose|j: int| 0 <= j < rest.len() && rest[j] == head[i];
                assert(found[j] == entries[i]);
            } else {
                assert(found[rest.len() as int] == entries[i]);
            }
        }
    }
}

/// After a restart, recovery returns the entries above the checkpoint: every
/// one of them, and no other.
pub proof fn recovery_replays_what_is_above_the_checkpoint(
    w: WalView,
    disk: Disk,
    files: FilesView,
)
    requires
        intact(w, disk),
        storage::read_from_disk(files, disk),
    ensures
        ({
            let opened = wal::open_result(
                w.dir,
                w.max_segment_bytes,
                w.sync_writes,
                files,
                OutcomeView::Done,
            );
            let all = stored(w, disk);
            let recovered = wal::above(all, w.checkpoint.sequence);
            &&& opened is Ok
            &&& opened->Ok_0.checkpoint.sequence == w.checkpoint.sequence
            &&& opened->Ok_0.recover_result(files) == Ok::<Seq<EntryView>, WalErrorView>(recovered)
            &&& forall|i: int|
                0 <= i < recovered.len() ==> (#[trigger] recovered[i]).sequence
                    > w.checkpoint.sequence
            &&& forall|i: int|
                0 <= i < all.len() && (#[trigger] all[i]).sequence > w.checkpoint.sequence
                    ==> recovered.contains(all[i])
        }),
{
    reopening_restores_the_wal(w, disk, files, w.max_segment_bytes, w.sync_writes);
    let again = reconfigured(w, w.max_segment_bytes, w.sync_writes);
    read_returns_what_is_stored(again, disk, files, 0);
    lemma_above(stored(w, disk), w.checkpoint.sequence);
}

/// A directory without segments opens as an empty WAL, with the checkpoint that
/// it states and the numbers from 1 on, or from the floor on where it states one.
pub proof fn fresh_wal_is_intact(
    dir: Seq<char>,
    max_segment_bytes: u64,
    sync_writes: bool,
    disk: Disk,
    files: FilesView,
)
    requires
        storage::read_from_disk(files, disk),
        forall|path: Seq<char>| #[trigger]
            disk.contains_key(path) ==> !segment::is_segment_file(path),
    ensures
        ({
            let opened = wal::open_result(
                dir,
                max_segment_bytes,
                sync_writes,
                files,
                OutcomeView::Done,
            );
            let disk2 = storage::all_applied(disk, wal::open_ops(dir, files));
            &&& opened is Ok
            &&& wal::openable(dir, files, OutcomeView::Done)
            &&& opened->Ok_0.next_sequence == if floor::kept(disk, dir)->Ok_0 > 1 {
                floor::kept(disk, dir)->Ok_0
            } else {
                1
            }
            &&& !disk.contains_key(floor::file_path(dir)) ==> opened->Ok_0.next_sequence == 1
            &&& intact(opened->Ok_0, disk2)
            &&& stored(opened->Ok_0, disk2) == Seq::<EntryView>::empty()
        }),
{
    let all = storage::paths(files);
    storage::lemma_paths_are_distinct(files, disk);
    segment::listing_is_sorted_and_complete(all);
    let found = segment::listed(all);
    if found.len() > 0 {
        assert(found.contains(found[0]));
        let i = choose|i: int| 0 <= i < all.len() && all[i] == found[0];
        assert(disk.contains_key(files[i].0));
        assert(false);
    }
    storage::lemma_lookup_on_disk(files, disk, checkpoint::file_path(dir));
    storage::lemma_lookup_on_disk(files, disk, floor::file_path(dir));
    lemma_records_are_apart(dir);
    segment::segment_path_states_its_id(dir, 1);
    let path = segment::path_of(dir, 1);
    let list = wal::open_ops(dir, files);
    let disk2 = storage::all_applied(disk, list);
    assert(disk2 == disk.insert(path, Seq::empty())) by {
        reveal_with_fuel(storage::all_applied, 2);
        assert(list.drop_last() =~= Seq::<FileOp>::empty());
    }
    let w = wal::open_result(dir, max_segment_bytes, sync_writes, files, OutcomeView::Done)->Ok_0;
    let paths = w.segment_paths();
    assert(paths =~= seq![path]);
    assert(paths.drop_last() =~= Seq::<Seq<char>>::empty());
    assert(stored_in(disk2, paths.drop_last()) == Seq::<EntryView>::empty());
    assert(segment::parsed(disk2[path])->Ok_0 =~= Seq::<EntryView>::empty());
    assert(stored(w, disk2) =~= Seq::<EntryView>::empty());
    assert forall|p: Seq<char>| #[trigger]
        disk2.contains_key(p) && segment::is_segment_file(p) implies paths.contains(p) by {
        if p != path {
            assert(disk.contains_key(p));
        }
        assert(paths[0] == path);
    }
}

// ─── Crashes ─────────────────────────────────────────────────────────────────

/// The state that a disk is in after a crash in the middle of writing an entry
/// that fits into the active segment.
proof fn lemma_crash_in_write(w: WalView, disk: Disk, data: Seq<u8>, after: Disk) -> (kept: int)
    requires
        intact(w, disk),
        w.can_append(HEADER_SIZE + data.len()),
        !w.active.overflows(HEADER_SIZE + data.len()),
        storage::crashed(disk, w.write_ops(entry::encoded(w.next_sequence, data)), after),
    ensures
        ({
            let bytes = entry::encoded(w.next_sequence, data);
            &&& 0 <= kept <= bytes.len()
            &&& after == disk.insert(w.active.path, disk[w.active.path] + bytes.take(kept))
            &&& kept == 0 ==> after == disk
            &&& kept == bytes.len() ==> after == storage::all_applied(disk, w.write_ops(bytes))
        }),
{
    let bytes = entry::encoded(w.next_sequence, data);
    entry::lemma_encoded_len(w.next_sequence, data);
    let list = w.write_ops(bytes);
    let path = w.active.path;
    let paths = w.segment_paths();
    assert(paths[paths.len() - 1] == path);
    assert(disk.contains_key(path));
    assert(list.take(1) =~= w.active.append_ops(bytes));
    assert(list.take(0) =~= Seq::<FileOp>::empty());
    assert(list.drop_last() =~= list.take(1));
    assert(list.take(1).drop_last() =~= Seq::<FileOp>::empty());
    assert(list.take(1).last() == FileOp::Append(path, bytes));
    let grown = disk.insert(path, disk[path] + bytes);
    reveal_with_fuel(storage::all_applied, 3);
    assert(storage::all_applied(disk, list.take(1)) == grown);
    assert(storage::all_applied(disk, list) == grown);
    assert(bytes.take(bytes.len() as int) =~= bytes);
    assert(disk.insert(path, disk[path] + bytes.take(0)) =~= disk) by {
        assert(disk[path] + bytes.take(0) =~= disk[path]);
    }
    if after == grown {
        bytes.len() as int
    } else {
        let k = choose|k: int|
            0 <= k < list.len() && #[trigger] storage::stopped_at(disk, list, k, after);
        assert(list[0] == FileOp::Append(path, bytes));
        assert(list[1] == w.settle_op());
        if storage::interrupted(disk, list[0], after) {
            let n = choose|n: int|
                0 <= n <= bytes.len() && after == disk.insert(
                    path,
                    disk[path] + #[trigger] bytes.take(n),
                );
            n
        } else {
            assert(k == 1);
            assert(after == grown);
            bytes.len() as int
        }
    }
}

/// What a crash in the middle of appending `data` to `w` may have left, as a WAL
/// opened from `files` finds it: the old entries, or those and the new one.
pub open spec fn survived(
    w: WalView,
    disk: Disk,
    data: Seq<u8>,
    after: Disk,
    files: FilesView,
) -> bool {
    let opened = wal::open_result(
        w.dir,
        w.max_segment_bytes,
        w.sync_writes,
        files,
        OutcomeView::Done,
    );
    let disk2 = storage::all_applied(after, wal::open_ops(w.dir, files));
    let added = EntryView { sequence: w.next_sequence, data };
    &&& wal::openable(w.dir, files, OutcomeView::Done)
    &&& opened matches Ok(again)
    &&& intact(again, disk2)
    &&& again.dir == w.dir
    &&& again.checkpoint == w.checkpoint
    &&& {
        ||| stored(again, disk2) == stored(w, disk) && again.next_sequence == w.next_sequence
        ||| stored(again, disk2) == stored(w, disk).push(added) && again.next_sequence
            == w.next_sequence + 1
    }
}

/// A crash in the middle of a rotation leaves the disk as it was, or with the new
/// segment on it.
proof fn lemma_crash_in_rotation(w: WalView, disk: Disk, after: Disk)
    requires
        storage::crashed(disk, w.rotate_ops(), after),
    ensures
        after == disk || after == storage::all_applied(disk, w.rotate_ops()),
{
    let list = w.rotate_ops();
    let done = storage::all_applied(disk, list);
    reveal_with_fuel(storage::all_applied, 3);
    assert(list.take(0) =~= Seq::<FileOp>::empty());
    assert(list.take(1).last() == list[0]);
    assert(list.take(1).drop_last() =~= Seq::<FileOp>::empty());
    assert(list.take(1) =~= list.drop_last());
    if after != done {
        let k = choose|k: int|
            0 <= k < list.len() && #[trigger] storage::stopped_at(disk, list, k, after);
        assert(k == 0 || k == 1);
        assert(list[0] == FileOp::Sync(w.active.path));
    }
}

/// A crash in the middle of an append leaves a WAL that opens with all its old
/// entries, and with the new one or without it. A part of the new entry that had
/// reached the disk is cut off.
pub proof fn append_survives_a_crash(
    w: WalView,
    disk: Disk,
    data: Seq<u8>,
    after: Disk,
    files: FilesView,
)
    requires
        intact(w, disk),
        data.len() <= u32::MAX,
        w.can_append(HEADER_SIZE + data.len()),
        storage::crashed(disk, w.append_ops(data), after),
        storage::read_from_disk(files, after),
    ensures
        survived(w, disk, data, after, files),
{
    let bytes = entry::encoded(w.next_sequence, data);
    let len = HEADER_SIZE + data.len();
    entry::lemma_encoded_len(w.next_sequence, data);
    if w.active.overflows(len) {
        let mid = w.rotated();
        let disk1 = storage::all_applied(disk, w.rotate_ops());
        lemma_rotate(w, disk);
        storage::lemma_crashed_concat(disk, w.rotate_ops(), mid.write_ops(bytes), after);
        if storage::crashed(disk, w.rotate_ops(), after) {
            lemma_crash_in_rotation(w, disk, after);
            if after == disk {
                reopening_restores_the_wal(w, disk, files, w.max_segment_bytes, w.sync_writes);
            } else {
                reopening_restores_the_wal(mid, disk1, files, w.max_segment_bytes, w.sync_writes);
            }
        } else if mid.active.overflows(len) {
            assert(w.append_ops(data) =~= w.rotate_ops());
        } else {
            lemma_crash_outcome(mid, disk1, data, after, files);
        }
    } else {
        lemma_crash_outcome(w, disk, data, after, files);
    }
}

proof fn lemma_crash_outcome(
    w: WalView,
    disk: Disk,
    data: Seq<u8>,
    after: Disk,
    files: FilesView,
)
    requires
        intact(w, disk),
        data.len() <= u32::MAX,
        w.can_append(HEADER_SIZE + data.len()),
        !w.active.overflows(HEADER_SIZE + data.len()),
        storage::crashed(disk, w.write_ops(entry::encoded(w.next_sequence, data)), after),
        storage::read_from_disk(files, after),
    ensures
        survived(w, disk, data, after, files),
{
    let bytes = entry::encoded(w.next_sequence, data);
    entry::lemma_encoded_len(w.next_sequence, data);
    let kept = lemma_crash_in_write(w, disk, data, after);
    if kept == bytes.len() {
        lemma_write(w, disk, data);
        let grown = w.written(bytes.len() as int, OutcomeView::Done);
        reopening_restores_the_wal(grown, after, files, w.max_segment_bytes, w.sync_writes);
    } else {
        segment::torn_tail_is_mended(disk[w.active.path], w.next_sequence, data, kept);
        opening_drops_an_incomplete_entry(
            w,
            disk,
            after,
            files,
            w.max_segment_bytes,
            w.sync_writes,
        );
    }
}

} // verus!
