//! What a loss of power costs a [`Wal`](crate::wal_core::wal::Wal) that makes its
//! writes durable: no entry whose append has returned, and no sequence number. The
//! checkpoint may fall back to 0, so that recovery replays more than it has to.
//!
//! A crash of the process leaves what the operating system was handed; see
//! [`storage::crashed`]. A loss of power leaves of each file what had reached the
//! device, and of what was written behind that any part from the front.
use vstd::prelude::*;

use crate::storage;
use crate::storage::{Disk, FileOp, FilesView, OutcomeView};
use crate::wal_core::checkpoint;
use crate::wal_core::checkpoint::CheckpointView;
use crate::wal_core::durability;
use crate::wal_core::entry;
use crate::wal_core::entry::{EntryView, HEADER_SIZE};
use crate::wal_core::error::WalErrorView;
use crate::wal_core::floor;
use crate::wal_core::history;
use crate::wal_core::history::Work;
use crate::wal_core::segment;
use crate::wal_core::wal;
use crate::wal_core::wal::WalView;

verus! {

// ─── The device ──────────────────────────────────────────────────────────────

/// How many bytes of each file are known to be on the device.
pub type Device = Map<Seq<char>, nat>;

/// What is on the device after `op` succeeded on `disk`. Files are created, moved, cut
/// back and removed at once; what is written waits for a sync.
pub open spec fn synced_by(disk: Disk, device: Device, op: FileOp) -> Device {
    match op {
        FileOp::CreateNew(path) => device.insert(path, 0),
        FileOp::OpenAppend(_) => device,
        FileOp::Append(_, _) => device,
        FileOp::Flush(_) => device,
        FileOp::Sync(path) => device.insert(path, disk[path].len()),
        FileOp::Write(path, _) => device.insert(path, 0),
        FileOp::Rename(from, to) => device.remove(from).insert(to, device[from]),
        FileOp::Remove(path) => device.remove(path),
        FileOp::Shorten(path, len) => device.insert(
            path,
            if device[path] < len {
                device[path]
            } else {
                len as nat
            },
        ),
    }
}

/// What is on the device after all of `list` succeeded, in order.
pub open spec fn all_synced(disk: Disk, device: Device, list: Seq<FileOp>) -> Device
    decreases list.len(),
{
    if list.len() == 0 {
        device
    } else {
        synced_by(
            storage::all_applied(disk, list.drop_last()),
            all_synced(disk, device, list.drop_last()),
            list.last(),
        )
    }
}

/// `left` is a part of `bytes` from the front that has at least the first `synced`.
pub open spec fn kept_part(bytes: Seq<u8>, synced: nat, left: Seq<u8>) -> bool {
    synced <= left.len() <= bytes.len() && left == bytes.take(left.len() as int)
}

/// `after` is a disk that a loss of power can leave of `disk`.
pub open spec fn power_lost(disk: Disk, device: Device, after: Disk) -> bool {
    &&& after.dom() == disk.dom()
    &&& forall|path: Seq<char>| #[trigger]
        disk.contains_key(path) ==> kept_part(disk[path], device[path], after[path])
}

/// `after` is a disk that a loss of power at some point of `list` can leave.
pub open spec fn cut_off(disk: Disk, device: Device, list: Seq<FileOp>, after: Disk) -> bool {
    exists|k: int|
        0 <= k <= list.len() && power_lost(
            storage::all_applied(disk, #[trigger] list.take(k)),
            all_synced(disk, device, list.take(k)),
            after,
        )
}

/// The device once everything on `disk` has reached it.
pub open spec fn all_of(disk: Disk) -> Device {
    Map::new(|path: Seq<char>| disk.contains_key(path), |path: Seq<char>| disk[path].len())
}

/// The file at `path`, where there is one, is on the device.
pub open spec fn is_on(disk: Disk, device: Device, path: Seq<char>) -> bool {
    disk.contains_key(path) ==> device[path] == disk[path].len()
}

/// The segments of the WAL in `dir` and its floor are on the device.
pub open spec fn settled(dir: Seq<char>, disk: Disk, device: Device) -> bool {
    &&& forall|path: Seq<char>| #[trigger]
        segment::is_segment_file(path) ==> is_on(disk, device, path)
    &&& is_on(disk, device, floor::file_path(dir))
}

/// `w` with another checkpoint.
pub open spec fn rechecked(w: WalView, sequence: u64) -> WalView {
    WalView { checkpoint: CheckpointView { sequence, ..w.checkpoint }, ..w }
}

proof fn lemma_all_synced_concat(disk: Disk, device: Device, a: Seq<FileOp>, b: Seq<FileOp>)
    ensures
        all_synced(disk, device, a + b) == all_synced(
            storage::all_applied(disk, a),
            all_synced(disk, device, a),
            b,
        ),
    decreases b.len(),
{
    if b.len() == 0 {
        assert(a + b =~= a);
    } else {
        assert((a + b).drop_last() =~= a + b.drop_last());
        assert((a + b).last() == b.last());
        lemma_all_synced_concat(disk, device, a, b.drop_last());
        storage::lemma_all_applied_concat(disk, a, b.drop_last());
    }
}

/// A loss of power in the middle of two lists is one in the first or in the second.
proof fn lemma_cut_off_concat(
    disk: Disk,
    device: Device,
    a: Seq<FileOp>,
    b: Seq<FileOp>,
    after: Disk,
)
    requires
        cut_off(disk, device, a + b, after),
    ensures
        cut_off(disk, device, a, after) || cut_off(
            storage::all_applied(disk, a),
            all_synced(disk, device, a),
            b,
            after,
        ),
{
    let list = a + b;
    let k = choose|k: int|
        0 <= k <= list.len() && power_lost(
            storage::all_applied(disk, #[trigger] list.take(k)),
            all_synced(disk, device, list.take(k)),
            after,
        );
    if k <= a.len() {
        assert(list.take(k) =~= a.take(k));
    } else {
        let j = k - a.len();
        assert(list.take(k) =~= a + b.take(j));
        storage::lemma_all_applied_concat(disk, a, b.take(j));
        lemma_all_synced_concat(disk, device, a, b.take(j));
    }
}

/// One operation more.
proof fn lemma_next(disk: Disk, device: Device, list: Seq<FileOp>, k: int)
    requires
        0 <= k < list.len(),
    ensures
        storage::all_applied(disk, list.take(k + 1)) == storage::applied(
            storage::all_applied(disk, list.take(k)),
            list[k],
        ),
        all_synced(disk, device, list.take(k + 1)) == synced_by(
            storage::all_applied(disk, list.take(k)),
            all_synced(disk, device, list.take(k)),
            list[k],
        ),
{
    assert(list.take(k + 1).drop_last() =~= list.take(k));
    assert(list.take(k + 1).last() == list[k]);
}

proof fn lemma_none(disk: Disk, device: Device, list: Seq<FileOp>)
    ensures
        storage::all_applied(disk, list.take(0)) == disk,
        all_synced(disk, device, list.take(0)) == device,
        list.take(list.len() as int) == list,
{
    assert(list.take(0) =~= Seq::<FileOp>::empty());
    assert(list.take(list.len() as int) =~= list);
}

// ─── At rest ─────────────────────────────────────────────────────────────────

/// A WAL whose segments are on the device is still on the disk after a loss of power,
/// with its checkpoint or with none.
proof fn lemma_at_rest(w: WalView, disk: Disk, device: Device, after: Disk) -> (sequence: u64)
    requires
        durability::intact(w, disk),
        settled(w.dir, disk, device),
        power_lost(disk, device, after),
    ensures
        sequence == w.checkpoint.sequence || sequence == 0,
        durability::intact(rechecked(w, sequence), after),
        durability::stored(rechecked(w, sequence), after) == durability::stored(w, disk),
{
    let path = checkpoint::file_path(w.dir);
    let sequence = checkpoint::stated(storage::on_disk(after, path))->Ok_0;
    let other = rechecked(w, sequence);
    assert forall|p: Seq<char>| segment::is_segment_file(p) implies #[trigger] storage::same_file(
        after,
        disk,
        p,
    ) by {
        lemma_whole(disk, device, after, p);
    }
    lemma_whole(disk, device, after, floor::file_path(w.dir));
    durability::lemma_same_segments(w, other.checkpoint, disk, after);
    assert(after.dom().contains(path) == disk.dom().contains(path));
    if disk.contains_key(path) {
        let left = after[path];
        assert(kept_part(disk[path], device[path], left));
        if left.len() >= 8 {
            assert(left.subrange(0, 8) =~= disk[path].subrange(0, 8));
        }
    }
    sequence
}

/// A file that is on the device stays.
proof fn lemma_whole(disk: Disk, device: Device, after: Disk, path: Seq<char>)
    requires
        is_on(disk, device, path),
        power_lost(disk, device, after),
    ensures
        storage::same_file(after, disk, path),
{
    assert(after.dom().contains(path) == disk.dom().contains(path));
    if disk.contains_key(path) {
        assert(kept_part(disk[path], device[path], after[path]));
        assert(disk[path].take(disk[path].len() as int) =~= disk[path]);
    }
}

/// After a loss of power between two calls, a WAL whose segments are on the device
/// opens with every entry and the next sequence number, and with its checkpoint or
/// with none.
pub proof fn power_loss_keeps_what_is_on_the_device(
    w: WalView,
    disk: Disk,
    device: Device,
    after: Disk,
    files: FilesView,
)
    requires
        durability::intact(w, disk),
        settled(w.dir, disk, device),
        power_lost(disk, device, after),
        storage::read_from_disk(files, after),
    ensures
        reopens_as(w, disk, after, files),
{
    let sequence = lemma_at_rest(w, disk, device, after);
    lemma_reopens(w, disk, after, files, sequence);
}

/// Opened from `files`, which are what `after` holds, `w` has all that it had on
/// `disk`, but perhaps for the checkpoint.
pub open spec fn reopens_as(w: WalView, disk: Disk, after: Disk, files: FilesView) -> bool {
    let opened = wal::open_result(
        w.dir,
        w.max_segment_bytes,
        w.sync_writes,
        files,
        OutcomeView::Done,
    );
    let disk2 = storage::all_applied(after, wal::open_ops(w.dir, files));
    &&& wal::openable(w.dir, files, OutcomeView::Done)
    &&& opened matches Ok(again)
    &&& again == rechecked(w, again.checkpoint.sequence)
    &&& again.checkpoint == w.checkpoint || again.checkpoint.sequence == 0
    &&& durability::intact(again, disk2)
    &&& durability::stored(again, disk2) == durability::stored(w, disk)
}

proof fn lemma_reopens(w: WalView, disk: Disk, after: Disk, files: FilesView, sequence: u64)
    requires
        sequence == w.checkpoint.sequence || sequence == 0,
        durability::intact(rechecked(w, sequence), after),
        durability::stored(rechecked(w, sequence), after) == durability::stored(w, disk),
        w.active.max_bytes == w.max_segment_bytes,
        storage::read_from_disk(files, after),
    ensures
        reopens_as(w, disk, after, files),
{
    let other = rechecked(w, sequence);
    durability::reopening_restores_the_wal(
        other,
        after,
        files,
        w.max_segment_bytes,
        w.sync_writes,
    );
    assert(durability::reconfigured(other, w.max_segment_bytes, w.sync_writes) == other);
}

// ─── Appending ───────────────────────────────────────────────────────────────

/// What a loss of power while `data` was appended to `w` may have left, as a WAL opened
/// from `files` finds it: the old entries, or those and the new one.
pub open spec fn outlived(
    w: WalView,
    disk: Disk,
    data: Seq<u8>,
    after: Disk,
    files: FilesView,
) -> bool {
    let opened = wal::open_result(
        w.dir,
        w.max_segment_bytes,
        w.sync_writes,
        files,
        OutcomeView::Done,
    );
    let disk2 = storage::all_applied(after, wal::open_ops(w.dir, files));
    let added = EntryView { sequence: w.next_sequence, data };
    &&& wal::openable(w.dir, files, OutcomeView::Done)
    &&& opened matches Ok(again)
    &&& durability::intact(again, disk2)
    &&& again.dir == w.dir
    &&& again.sync_writes == w.sync_writes
    &&& again.checkpoint == w.checkpoint || again.checkpoint.sequence == 0
    &&& {
        ||| durability::stored(again, disk2) == durability::stored(w, disk)
            && again.next_sequence == w.next_sequence
        ||| durability::stored(again, disk2) == durability::stored(w, disk).push(added)
            && again.next_sequence == w.next_sequence + 1
    }
}

/// Rotating leaves the segments on the device.
proof fn lemma_rotation_settles(w: WalView, disk: Disk, device: Device)
    requires
        durability::intact(w, disk),
        settled(w.dir, disk, device),
        w.active.id < u64::MAX,
    ensures
        settled(
            w.dir,
            storage::all_applied(disk, w.rotate_ops()),
            all_synced(disk, device, w.rotate_ops()),
        ),
        settled(w.dir, disk, all_synced(disk, device, w.rotate_ops().take(1))),
        storage::all_applied(disk, w.rotate_ops().take(1)) == disk,
{
    let list = w.rotate_ops();
    lemma_none(disk, device, list);
    lemma_next(disk, device, list, 0);
    lemma_next(disk, device, list, 1);
    durability::lemma_rotate(w, disk);
    durability::lemma_records_are_apart(w.dir);
    segment::segment_path_states_its_id(w.dir, w.active.id);
    segment::segment_path_states_its_id(w.dir, (w.active.id + 1) as u64);
    let d1 = all_synced(disk, device, list.take(1));
    let d2 = all_synced(disk, device, list);
    let disk2 = storage::all_applied(disk, list);
    assert forall|p: Seq<char>| #[trigger] segment::is_segment_file(p) implies is_on(
        disk,
        d1,
        p,
    ) by {
        assert(is_on(disk, device, p));
    }
    assert forall|p: Seq<char>| #[trigger] segment::is_segment_file(p) implies is_on(
        disk2,
        d2,
        p,
    ) by {
        assert(is_on(disk, device, p));
    }
}

/// Writing an entry and syncing it leaves the segments on the device.
proof fn lemma_write_settles(w: WalView, disk: Disk, device: Device, bytes: Seq<u8>)
    requires
        durability::intact(w, disk),
        settled(w.dir, disk, device),
        w.sync_writes,
        !w.active.overflows(bytes.len() as int),
    ensures
        settled(
            w.dir,
            storage::all_applied(disk, w.write_ops(bytes)),
            all_synced(disk, device, w.write_ops(bytes)),
        ),
{
    let list = w.write_ops(bytes);
    lemma_none(disk, device, list);
    lemma_next(disk, device, list, 0);
    lemma_next(disk, device, list, 1);
    durability::lemma_records_are_apart(w.dir);
    segment::segment_path_states_its_id(w.dir, w.active.id);
    assert(list[0] == FileOp::Append(w.active.path, bytes));
    assert(list[1] == FileOp::Sync(w.active.path));
    assert forall|p: Seq<char>| #[trigger] segment::is_segment_file(p) implies is_on(
        storage::all_applied(disk, list),
        all_synced(disk, device, list),
        p,
    ) by {
        assert(is_on(disk, device, p));
    }
}

/// When an append to a WAL that makes its writes durable has returned, the entry is on
/// the device.
pub proof fn acknowledged_entry_is_on_the_device(
    w: WalView,
    disk: Disk,
    device: Device,
    data: Seq<u8>,
)
    requires
        durability::intact(w, disk),
        settled(w.dir, disk, device),
        w.sync_writes,
        w.can_append(HEADER_SIZE + data.len()),
    ensures
        settled(
            w.dir,
            storage::all_applied(disk, w.append_ops(data)),
            all_synced(disk, device, w.append_ops(data)),
        ),
{
    let bytes = entry::encoded(w.next_sequence, data);
    entry::lemma_encoded_len(w.next_sequence, data);
    if w.active.overflows(bytes.len() as int) {
        let first = w.rotate_ops();
        let mid = w.rotated();
        let disk1 = storage::all_applied(disk, first);
        let device1 = all_synced(disk, device, first);
        durability::lemma_rotate(w, disk);
        lemma_rotation_settles(w, disk, device);
        storage::lemma_all_applied_concat(disk, first, mid.write_ops(bytes));
        lemma_all_synced_concat(disk, device, first, mid.write_ops(bytes));
        if !mid.active.overflows(bytes.len() as int) {
            lemma_write_settles(mid, disk1, device1, bytes);
        }
    } else {
        lemma_write_settles(w, disk, device, bytes);
    }
}

/// A loss of power while an entry is written into the active segment.
proof fn lemma_cut_in_write(
    w: WalView,
    disk: Disk,
    device: Device,
    data: Seq<u8>,
    after: Disk,
    files: FilesView,
)
    requires
        durability::intact(w, disk),
        settled(w.dir, disk, device),
        data.len() <= u32::MAX,
        w.can_append(HEADER_SIZE + data.len()),
        !w.active.overflows(HEADER_SIZE + data.len()),
        cut_off(disk, device, w.write_ops(entry::encoded(w.next_sequence, data)), after),
        storage::read_from_disk(files, after),
    ensures
        outlived(w, disk, data, after, files),
{
    let bytes = entry::encoded(w.next_sequence, data);
    entry::lemma_encoded_len(w.next_sequence, data);
    let list = w.write_ops(bytes);
    let path = w.active.path;
    let paths = w.segment_paths();
    assert(paths[paths.len() - 1] == path);
    assert(disk.contains_key(path));
    segment::segment_path_states_its_id(w.dir, w.active.id);
    assert(is_on(disk, device, path));
    lemma_none(disk, device, list);
    lemma_next(disk, device, list, 0);
    lemma_next(disk, device, list, 1);
    assert(list[0] == FileOp::Append(path, bytes));
    assert(list[1] == w.settle_op());
    let k = choose|k: int|
        0 <= k <= list.len() && power_lost(
            storage::all_applied(disk, #[trigger] list.take(k)),
            all_synced(disk, device, list.take(k)),
            after,
        );
    if k == 0 {
        power_loss_keeps_what_is_on_the_device(w, disk, device, after, files);
    } else {
        let grown = disk.insert(path, disk[path] + bytes);
        let device_k = all_synced(disk, device, list.take(k));
        assert(storage::all_applied(disk, list.take(k)) == grown);
        assert(grown.contains_key(path));
        assert(kept_part(grown[path], device_k[path], after[path]));
        let kept = after[path].len() - disk[path].len();
        assert(0 <= kept <= bytes.len());
        assert(after[path] =~= disk[path] + bytes.take(kept));
        // The disk as it would be without the new entry.
        let base = after.insert(path, disk[path]);
        assert(after.dom() =~= disk.dom()) by {
            assert(grown.dom() =~= disk.dom());
        }
        assert(after.contains_key(path));
        assert(base.dom() =~= disk.dom());
        assert forall|p: Seq<char>| #[trigger] disk.contains_key(p) implies kept_part(
            disk[p],
            device[p],
            base[p],
        ) by {
            if p == path {
                assert(disk[p].take(disk[p].len() as int) =~= disk[p]);
            } else {
                assert(grown.contains_key(p));
                assert(kept_part(grown[p], device_k[p], after[p]));
            }
        }
        let sequence = lemma_at_rest(w, disk, device, base);
        let other = rechecked(w, sequence);
        let max = w.max_segment_bytes;
        if kept == bytes.len() {
            assert(bytes.take(kept) =~= bytes);
            durability::append_adds_the_entry(other, base, data);
            let fuller = other.appended(HEADER_SIZE + data.len(), OutcomeView::Done);
            assert(other.append_ops(data) == list);
            lemma_none(base, device, list);
            lemma_next(base, device, list, 0);
            lemma_next(base, device, list, 1);
            assert(storage::all_applied(base, list) =~= after);
            durability::reopening_restores_the_wal(fuller, after, files, max, w.sync_writes);
        } else {
            segment::torn_tail_is_mended(disk[path], w.next_sequence, data, kept);
            assert forall|p: Seq<char>| p != other.active.path implies #[trigger] storage::same_file(
                after,
                base,
                p,
            ) by {}
            durability::opening_drops_an_incomplete_entry(
                other,
                base,
                after,
                files,
                max,
                w.sync_writes,
            );
        }
    }
}

/// A loss of power in the middle of an append costs no entry that was there: the WAL
/// opens with all of them, and with the new one or without it.
pub proof fn append_outlives_a_power_loss(
    w: WalView,
    disk: Disk,
    device: Device,
    data: Seq<u8>,
    after: Disk,
    files: FilesView,
)
    requires
        durability::intact(w, disk),
        settled(w.dir, disk, device),
        data.len() <= u32::MAX,
        w.can_append(HEADER_SIZE + data.len()),
        cut_off(disk, device, w.append_ops(data), after),
        storage::read_from_disk(files, after),
    ensures
        outlived(w, disk, data, after, files),
{
    let bytes = entry::encoded(w.next_sequence, data);
    entry::lemma_encoded_len(w.next_sequence, data);
    if w.active.overflows(bytes.len() as int) {
        let first = w.rotate_ops();
        let mid = w.rotated();
        let disk1 = storage::all_applied(disk, first);
        let device1 = all_synced(disk, device, first);
        durability::lemma_rotate(w, disk);
        lemma_rotation_settles(w, disk, device);
        lemma_cut_off_concat(disk, device, first, mid.write_ops(bytes), after);
        if cut_off(disk, device, first, after) {
            let k = choose|k: int|
                0 <= k <= first.len() && power_lost(
                    storage::all_applied(disk, #[trigger] first.take(k)),
                    all_synced(disk, device, first.take(k)),
                    after,
                );
            lemma_none(disk, device, first);
            if k < 2 {
                let device_k = all_synced(disk, device, first.take(k));
                power_loss_keeps_what_is_on_the_device(w, disk, device_k, after, files);
            } else {
                power_loss_keeps_what_is_on_the_device(mid, disk1, device1, after, files);
            }
        } else if mid.active.overflows(bytes.len() as int) {
            let none = mid.write_ops(bytes);
            lemma_none(disk1, device1, none);
            let k = choose|k: int|
                0 <= k <= none.len() && power_lost(
                    storage::all_applied(disk1, #[trigger] none.take(k)),
                    all_synced(disk1, device1, none.take(k)),
                    after,
                );
            power_loss_keeps_what_is_on_the_device(mid, disk1, device1, after, files);
        } else {
            lemma_cut_in_write(mid, disk1, device1, data, after, files);
        }
    } else {
        lemma_cut_in_write(w, disk, device, data, after, files);
    }
}

// ─── Checkpointing and truncating ────────────────────────────────────────────

/// Recording a checkpoint leaves the segments on the device, at every point.
proof fn lemma_checkpoint_settles(
    w: WalView,
    disk: Disk,
    device: Device,
    sequence: u64,
    k: int,
)
    requires
        w.checkpoint.dir == w.dir,
        settled(w.dir, disk, device),
        0 <= k <= w.checkpoint.advance_ops(sequence).len(),
    ensures
        ({
            let part = w.checkpoint.advance_ops(sequence).take(k);
            settled(w.dir, storage::all_applied(disk, part), all_synced(disk, device, part))
        }),
{
    let list = w.checkpoint.advance_ops(sequence);
    lemma_none(disk, device, list);
    if list.len() > 0 {
        lemma_next(disk, device, list, 0);
        lemma_next(disk, device, list, 1);
    }
    durability::lemma_records_are_apart(w.dir);
    let disk_k = storage::all_applied(disk, list.take(k));
    let device_k = all_synced(disk, device, list.take(k));
    assert forall|p: Seq<char>| #[trigger] segment::is_segment_file(p) implies is_on(
        disk_k,
        device_k,
        p,
    ) by {
        assert(is_on(disk, device, p));
    }
}

/// The disk before the operation at position `k` is one that a crash can leave.
proof fn lemma_stop_is_a_crash(disk: Disk, list: Seq<FileOp>, k: int)
    requires
        0 <= k <= list.len(),
        forall|i: int| 0 <= i < list.len() ==> !(#[trigger] list[i] is Append),
    ensures
        storage::crashed(disk, list, storage::all_applied(disk, list.take(k))),
{
    let at = storage::all_applied(disk, list.take(k));
    if k == list.len() {
        assert(list.take(k) =~= list);
    } else {
        assert(!(list[k] is Append));
        assert(storage::stopped_at(disk, list, k, at));
    }
}

/// A loss of power while a checkpoint is recorded costs no entry. The checkpoint is
/// the old one, the new one, or none.
pub proof fn checkpoint_outlives_a_power_loss(
    w: WalView,
    disk: Disk,
    device: Device,
    sequence: u64,
    after: Disk,
    files: FilesView,
)
    requires
        durability::intact(w, disk),
        settled(w.dir, disk, device),
        cut_off(disk, device, w.checkpoint.advance_ops(sequence), after),
        storage::read_from_disk(files, after),
    ensures
        reopens_as(w, disk, after, files) || reopens_as(
            WalView { checkpoint: w.checkpoint.advanced(sequence, OutcomeView::Done), ..w },
            disk,
            after,
            files,
        ),
{
    let list = w.checkpoint.advance_ops(sequence);
    let done = WalView { checkpoint: w.checkpoint.advanced(sequence, OutcomeView::Done), ..w };
    let k = choose|k: int|
        0 <= k <= list.len() && power_lost(
            storage::all_applied(disk, #[trigger] list.take(k)),
            all_synced(disk, device, list.take(k)),
            after,
        );
    let disk_k = storage::all_applied(disk, list.take(k));
    let device_k = all_synced(disk, device, list.take(k));
    lemma_checkpoint_settles(w, disk, device, sequence, k);
    lemma_stop_is_a_crash(disk, list, k);
    durability::checkpoint_crash_keeps_entries(w, disk, sequence, disk_k);
    let found = if durability::intact(w, disk_k) && durability::stored(w, disk_k)
        == durability::stored(w, disk) {
        w
    } else {
        done
    };
    power_loss_keeps_what_is_on_the_device(found, disk_k, device_k, after, files);
    assert(durability::stored(done, disk) == durability::stored(w, disk)) by {
        assert(done.segment_paths() =~= w.segment_paths());
    }
}

/// Truncating leaves the segments on the device, at every point, and the floor too.
proof fn lemma_truncation_settles(
    w: WalView,
    disk: Disk,
    device: Device,
    files: FilesView,
    before: u64,
    k: int,
)
    requires
        settled(w.dir, disk, device),
        0 <= k <= w.truncate_ops(before, files).len(),
    ensures
        ({
            let part = w.truncate_ops(before, files).take(k);
            settled(w.dir, storage::all_applied(disk, part), all_synced(disk, device, part))
        }),
    decreases k,
{
    let list = w.truncate_ops(before, files);
    lemma_none(disk, device, list);
    if k > 0 {
        lemma_truncation_settles(w, disk, device, files, before, k - 1);
        lemma_next(disk, device, list, k - 1);
        durability::lemma_purge_only_removes(files, w.dir, w.sealed, w.active.id, before);
        durability::lemma_records_are_apart(w.dir);
        floor::lemma_paths_differ(w.dir);
        let removals = wal::purge(files, w.dir, w.sealed, w.active.id, before).ops;
        let raised = floor::raise_ops(w.dir, w.next_sequence);
        let disk0 = storage::all_applied(disk, list.take(k - 1));
        let device0 = all_synced(disk, device, list.take(k - 1));
        let disk1 = storage::all_applied(disk, list.take(k));
        let device1 = all_synced(disk, device, list.take(k));
        if w.active.size == 0 && removals.len() > 0 {
            if k <= raised.len() {
                assert(list[k - 1] == raised[k - 1]);
            } else {
                assert(list[k - 1] == removals[k - 1 - raised.len()]);
            }
            if k == 3 {
                lemma_next(disk, device, list, 1);
                lemma_next(disk, device, list, 0);
                assert(list[1] == raised[1]);
                assert(list[0] == raised[0]);
            }
        } else {
            assert(list[k - 1] == removals[k - 1]);
        }
        assert forall|p: Seq<char>| #[trigger] segment::is_segment_file(p) implies is_on(
            disk1,
            device1,
            p,
        ) by {
            assert(is_on(disk0, device0, p));
        }
    }
}

/// The WAL that opens from `files` is `w` less some of its oldest entries, all of them
/// before `before`, and perhaps without its checkpoint.
pub open spec fn reopens_shortened(
    w: WalView,
    disk: Disk,
    before: u64,
    after: Disk,
    files: FilesView,
) -> bool {
    exists|left: WalView, mid: Disk| #[trigger]
        durability::shortened(left, mid, w, disk, before) && reopens_as(left, mid, after, files)
}

/// A loss of power in the middle of a truncation costs no entry from `before` on.
pub proof fn truncation_outlives_a_power_loss(
    w: WalView,
    disk: Disk,
    device: Device,
    shown: FilesView,
    before: u64,
    after: Disk,
    files: FilesView,
)
    requires
        durability::intact(w, disk),
        settled(w.dir, disk, device),
        durability::sealed_shown(w, disk, shown),
        cut_off(disk, device, w.truncate_ops(before, shown), after),
        storage::read_from_disk(files, after),
    ensures
        reopens_shortened(w, disk, before, after, files),
{
    let list = w.truncate_ops(before, shown);
    let k = choose|k: int|
        0 <= k <= list.len() && power_lost(
            storage::all_applied(disk, #[trigger] list.take(k)),
            all_synced(disk, device, list.take(k)),
            after,
        );
    let disk_k = storage::all_applied(disk, list.take(k));
    let device_k = all_synced(disk, device, list.take(k));
    lemma_truncation_settles(w, disk, device, shown, before, k);
    durability::lemma_truncation_appends_nothing(w, shown, before);
    lemma_stop_is_a_crash(disk, list, k);
    durability::truncation_survives_a_crash(w, disk, shown, before, disk_k);
    let left = choose|left: WalView| #[trigger]
        durability::shortened(left, disk_k, w, disk, before);
    power_loss_keeps_what_is_on_the_device(left, disk_k, device_k, after, files);
}

// ─── Runs ────────────────────────────────────────────────────────────────────

/// One step in the life of a WAL.
pub enum Event {
    /// All that the work asks of the disk succeeds.
    Do(Work),
    /// The power fails somewhere in the work and leaves this disk, from which the WAL is
    /// opened again; the files are what its directory then holds.
    Cut(Work, Disk, FilesView),
    /// The process stops between two calls, and the WAL is opened again with this
    /// segment size.
    Reopen(u64, FilesView),
}

/// `event` can come to `w` on `disk`.
pub open spec fn possible(w: WalView, disk: Disk, device: Device, event: Event) -> bool {
    match event {
        Event::Do(work) => history::feasible(w, disk, work),
        Event::Cut(work, after, files) => {
            &&& history::feasible(w, disk, work)
            &&& cut_off(disk, device, history::work_ops(w, work), after)
            &&& storage::read_from_disk(files, after)
        },
        Event::Reopen(_, files) => storage::read_from_disk(files, disk),
    }
}

/// The WAL, the disk and the device after `event`. What a loss of power leaves is on
/// the device.
pub open spec fn stepped(w: WalView, disk: Disk, device: Device, event: Event) -> (
    WalView,
    Disk,
    Device,
) {
    match event {
        Event::Do(work) => (
            history::worked(w, work),
            storage::all_applied(disk, history::work_ops(w, work)),
            all_synced(disk, device, history::work_ops(w, work)),
        ),
        Event::Cut(_, after, files) => (
            wal::open_result(
                w.dir,
                w.max_segment_bytes,
                w.sync_writes,
                files,
                OutcomeView::Done,
            )->Ok_0,
            storage::all_applied(after, wal::open_ops(w.dir, files)),
            all_synced(after, all_of(after), wal::open_ops(w.dir, files)),
        ),
        Event::Reopen(max_segment_bytes, files) => (
            wal::open_result(
                w.dir,
                max_segment_bytes,
                w.sync_writes,
                files,
                OutcomeView::Done,
            )->Ok_0,
            storage::all_applied(disk, wal::open_ops(w.dir, files)),
            all_synced(disk, device, wal::open_ops(w.dir, files)),
        ),
    }
}

/// The WAL, the disk and the device after all of `events`, in order.
pub open spec fn run(w: WalView, disk: Disk, device: Device, events: Seq<Event>) -> (
    WalView,
    Disk,
    Device,
)
    decreases events.len(),
{
    if events.len() == 0 {
        (w, disk, device)
    } else {
        let (before, left, reached) = run(w, disk, device, events.drop_last());
        stepped(before, left, reached, events.last())
    }
}

/// Each of `events` can come where the ones before it did.
pub open spec fn all_possible(w: WalView, disk: Disk, device: Device, events: Seq<Event>) -> bool
    decreases events.len(),
{
    events.len() > 0 ==> {
        let (before, left, reached) = run(w, disk, device, events.drop_last());
        &&& all_possible(w, disk, device, events.drop_last())
        &&& possible(before, left, reached, events.last())
    }
}

/// `event` asks for no entry from `sequence` on to be dropped.
pub open spec fn spares(event: Event, sequence: u64) -> bool {
    match event {
        Event::Do(Work::Truncate(before, _)) => before <= sequence,
        Event::Cut(Work::Truncate(before, _), _, _) => before <= sequence,
        _ => true,
    }
}

/// None of `events` asks for an entry from `sequence` on to be dropped.
pub open spec fn all_spare(events: Seq<Event>, sequence: u64) -> bool {
    forall|i: int| 0 <= i < events.len() ==> spares(#[trigger] events[i], sequence)
}

/// `w` makes its writes durable, agrees with its disk, and is on the device.
pub open spec fn safe(w: WalView, disk: Disk, device: Device) -> bool {
    &&& w.sync_writes
    &&& durability::intact(w, disk)
    &&& settled(w.dir, disk, device)
}

/// What opening leaves is on the device where what it found was.
proof fn lemma_opening_settles(dir: Seq<char>, after: Disk, device: Device, files: FilesView)
    requires
        settled(dir, after, device),
        storage::read_from_disk(files, after),
    ensures
        settled(
            dir,
            storage::all_applied(after, wal::open_ops(dir, files)),
            all_synced(after, device, wal::open_ops(dir, files)),
        ),
{
    let list = wal::open_ops(dir, files);
    let existing = segment::listed(storage::paths(files));
    lemma_none(after, device, list);
    durability::lemma_records_are_apart(dir);
    if list.len() > 0 {
        lemma_next(after, device, list, 0);
        if existing.len() > 0 {
            let path = existing.last();
            storage::lemma_lookup_on_disk(files, after, path);
            if wal::is_torn(files, path) {
                lemma_next(after, device, list, 1);
                segment::lemma_whole_len_bounds(after[path], 0);
                storage::lemma_paths_are_distinct(files, after);
                segment::listing_is_sorted_and_complete(storage::paths(files));
                assert(existing.contains(path));
            }
        } else {
            segment::segment_path_states_its_id(dir, 1);
        }
    }
    let disk2 = storage::all_applied(after, list);
    let device2 = all_synced(after, device, list);
    assert forall|p: Seq<char>| #[trigger] segment::is_segment_file(p) implies is_on(
        disk2,
        device2,
        p,
    ) by {
        assert(is_on(after, device, p));
    }
}

/// What one event keeps.
spec fn upheld(w: WalView, disk: Disk, device: Device, event: Event) -> bool {
    let (after, left, reached) = stepped(w, disk, device, event);
    &&& safe(after, left, reached)
    &&& after.dir == w.dir
    &&& after.next_sequence >= w.next_sequence
    &&& forall|sequence: u64| #[trigger]
        spares(event, sequence) ==> history::kept_from(
            durability::stored(w, disk),
            durability::stored(after, left),
            sequence,
        )
}

proof fn lemma_do(w: WalView, disk: Disk, device: Device, work: Work)
    requires
        safe(w, disk, device),
        history::feasible(w, disk, work),
    ensures
        upheld(w, disk, device, Event::Do(work)),
{
    let step = history::Step::Do(work);
    history::lemma_work(w, disk, work);
    match work {
        Work::Append(data) => {
            acknowledged_entry_is_on_the_device(w, disk, device, data);
        },
        Work::Checkpoint(sequence) => {
            let list = w.checkpoint.advance_ops(sequence);
            lemma_none(disk, device, list);
            lemma_checkpoint_settles(w, disk, device, sequence, list.len() as int);
        },
        Work::Truncate(before, files) => {
            let list = w.truncate_ops(before, files);
            lemma_none(disk, device, list);
            lemma_truncation_settles(w, disk, device, files, before, list.len() as int);
        },
    }
    assert forall|sequence: u64| #[trigger] spares(
        Event::Do(work),
        sequence,
    ) implies history::kept_from(
        durability::stored(w, disk),
        durability::stored(
            history::worked(w, work),
            storage::all_applied(disk, history::work_ops(w, work)),
        ),
        sequence,
    ) by {
        assert(history::spares(step, sequence));
    }
}

proof fn lemma_cut(
    w: WalView,
    disk: Disk,
    device: Device,
    work: Work,
    after: Disk,
    files: FilesView,
)
    requires
        safe(w, disk, device),
        possible(w, disk, device, Event::Cut(work, after, files)),
    ensures
        wal::openable(w.dir, files, OutcomeView::Done),
        wal::open_result(w.dir, w.max_segment_bytes, w.sync_writes, files, OutcomeView::Done) is Ok,
        upheld(w, disk, device, Event::Cut(work, after, files)),
{
    let event = Event::Cut(work, after, files);
    let (opened, left, _) = stepped(w, disk, device, event);
    let old = durability::stored(w, disk);
    let new = durability::stored(opened, left);
    assert(old.skip(0) =~= old);
    lemma_opening_settles(w.dir, after, all_of(after), files);
    match work {
        Work::Append(data) => {
            append_outlives_a_power_loss(w, disk, device, data, after, files);
            let added = EntryView { sequence: w.next_sequence, data };
            assert(new == old.skip(0) || new == old.skip(0).push(added));
            assert forall|sequence: u64| #[trigger] spares(
                event,
                sequence,
            ) implies history::kept_from(old, new, sequence) by {
                history::lemma_kept(old, new, 0, 0, sequence);
            }
        },
        Work::Checkpoint(sequence) => {
            checkpoint_outlives_a_power_loss(w, disk, device, sequence, after, files);
            let done = history::worked(w, work);
            assert(durability::stored(done, disk) == old) by {
                assert(done.segment_paths() =~= w.segment_paths());
            }
            assert forall|sequence: u64| #[trigger] spares(
                event,
                sequence,
            ) implies history::kept_from(old, new, sequence) by {
                history::lemma_kept(old, new, 0, 0, sequence);
            }
        },
        Work::Truncate(before, shown) => {
            truncation_outlives_a_power_loss(w, disk, device, shown, before, after, files);
            let (found, mid) = choose|found: WalView, mid: Disk| #[trigger]
                durability::shortened(found, mid, w, disk, before) && reopens_as(
                    found,
                    mid,
                    after,
                    files,
                );
            durability::sealed_entries_are_stored(w, disk, shown);
            let k = choose|k: int|
                0 <= k <= durability::stored_sealed(w, disk).len() && durability::stored(
                    found,
                    mid,
                ) == #[trigger] durability::stored(w, disk).skip(k) && durability::at_bound(
                    disk,
                    w.dir,
                    w.sealed,
                    k,
                ) && forall|i: int|
                    0 <= i < k ==> (#[trigger] durability::stored(w, disk)[i]).sequence < before;
            assert forall|sequence: u64| #[trigger] spares(
                event,
                sequence,
            ) implies history::kept_from(old, new, sequence) by {
                history::lemma_kept(old, new, k, before, sequence);
            }
        },
    }
}

proof fn lemma_reopen(
    w: WalView,
    disk: Disk,
    device: Device,
    max_segment_bytes: u64,
    files: FilesView,
)
    requires
        safe(w, disk, device),
        storage::read_from_disk(files, disk),
    ensures
        upheld(w, disk, device, Event::Reopen(max_segment_bytes, files)),
{
    let old = durability::stored(w, disk);
    assert(old.skip(0) =~= old);
    durability::reopening_restores_the_wal(w, disk, files, max_segment_bytes, w.sync_writes);
    lemma_opening_settles(w.dir, disk, device, files);
    assert forall|sequence: u64| #[trigger] spares(
        Event::Reopen(max_segment_bytes, files),
        sequence,
    ) implies history::kept_from(old, old, sequence) by {
        history::lemma_kept(old, old, 0, 0, sequence);
    }
}

/// Through any run of calls, restarts and losses of power, a WAL that makes its writes durable
/// keeps every entry on its disk that it is not asked to drop. It agrees with its disk
/// throughout, and its next sequence number never goes back.
pub proof fn no_power_loss_costs_an_entry(
    w: WalView,
    disk: Disk,
    device: Device,
    events: Seq<Event>,
    sequence: u64,
)
    requires
        safe(w, disk, device),
        all_possible(w, disk, device, events),
        all_spare(events, sequence),
    ensures
        ({
            let (after, left, reached) = run(w, disk, device, events);
            &&& safe(after, left, reached)
            &&& after.dir == w.dir
            &&& after.next_sequence >= w.next_sequence
            &&& history::kept_from(
                durability::stored(w, disk),
                durability::stored(after, left),
                sequence,
            )
        }),
    decreases events.len(),
{
    let old = durability::stored(w, disk);
    if events.len() == 0 {
        assert(old.skip(0) =~= old);
        history::lemma_kept(old, old, 0, 0, sequence);
    } else {
        let head = events.drop_last();
        assert forall|i: int| 0 <= i < head.len() implies spares(#[trigger] head[i], sequence) by {
            assert(head[i] == events[i]);
        }
        no_power_loss_costs_an_entry(w, disk, device, head, sequence);
        let (before, left, reached) = run(w, disk, device, head);
        let (after, last, _) = run(w, disk, device, events);
        match events.last() {
            Event::Do(work) => lemma_do(before, left, reached, work),
            Event::Cut(work, remains, files) => {
                lemma_cut(before, left, reached, work, remains, files);
            },
            Event::Reopen(max_segment_bytes, files) => {
                lemma_reopen(before, left, reached, max_segment_bytes, files);
            },
        }
        assert(spares(events[events.len() - 1], sequence));
        let mid = durability::stored(before, left);
        let new = durability::stored(after, last);
        assert forall|i: int| 0 <= i < old.len() && (#[trigger] old[i]).sequence
            >= sequence implies new.contains(old[i]) by {
            assert(mid.contains(old[i]));
            let j = choose|j: int| 0 <= j < mid.len() && mid[j] == old[i];
            assert(mid[j].sequence >= sequence);
        }
    }
}

/// An entry whose append has returned is there after any run of calls, restarts and
/// losses of power that does not ask for it to be dropped.
pub proof fn acknowledged_entry_outlives_power_losses(
    w: WalView,
    disk: Disk,
    device: Device,
    data: Seq<u8>,
    events: Seq<Event>,
)
    requires
        safe(w, disk, device),
        history::feasible(w, disk, Work::Append(data)),
        HEADER_SIZE + data.len() <= w.max_segment_bytes,
        ({
            let (grown, left, reached) = stepped(w, disk, device, Event::Do(Work::Append(data)));
            all_possible(grown, left, reached, events)
        }),
        all_spare(events, w.next_sequence),
    ensures
        ({
            let (grown, left, reached) = stepped(w, disk, device, Event::Do(Work::Append(data)));
            let (after, last, _) = run(grown, left, reached, events);
            &&& w.append_result(HEADER_SIZE + data.len(), OutcomeView::Done) == Ok::<
                u64,
                WalErrorView,
            >(w.next_sequence)
            &&& durability::stored(after, last).contains(
                EntryView { sequence: w.next_sequence, data },
            )
        }),
{
    let (grown, left, reached) = stepped(w, disk, device, Event::Do(Work::Append(data)));
    lemma_do(w, disk, device, Work::Append(data));
    durability::append_adds_the_entry(w, disk, data);
    no_power_loss_costs_an_entry(grown, left, reached, events, w.next_sequence);
    let all = durability::stored(grown, left);
    let last = all.len() - 1;
    assert(all[last] == EntryView { sequence: w.next_sequence, data });
}

/// A WAL that is started in a directory without segments is on the device from the
/// start, where the floor that it found was.
pub proof fn fresh_wal_is_on_the_device(
    dir: Seq<char>,
    max_segment_bytes: u64,
    disk: Disk,
    device: Device,
    files: FilesView,
)
    requires
        storage::read_from_disk(files, disk),
        forall|path: Seq<char>| #[trigger]
            disk.contains_key(path) ==> !segment::is_segment_file(path),
        is_on(disk, device, floor::file_path(dir)),
    ensures
        ({
            let opened = wal::open_result(dir, max_segment_bytes, true, files, OutcomeView::Done);
            let list = wal::open_ops(dir, files);
            &&& opened is Ok
            &&& safe(
                opened->Ok_0,
                storage::all_applied(disk, list),
                all_synced(disk, device, list),
            )
        }),
{
    durability::fresh_wal_is_intact(dir, max_segment_bytes, true, disk, files);
    assert forall|p: Seq<char>| #[trigger] segment::is_segment_file(p) implies is_on(
        disk,
        device,
        p,
    ) by {
        assert(!disk.contains_key(p));
    }
    lemma_opening_settles(dir, disk, device, files);
}

} // verus!
