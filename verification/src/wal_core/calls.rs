//! What the calls of a [`Wal`](crate::wal_core::wal::Wal) come to, told by entries,
//! sizes and files: what is read, when a segment is full, which segments go, and how a
//! directory opens.
use vstd::prelude::*;

use crate::storage;
use crate::storage::{FaultView, FileOp, FilesView, OutcomeView};
use crate::wal_core::checkpoint;
use crate::wal_core::checkpoint::CheckpointView;
use crate::wal_core::entry;
use crate::wal_core::entry::EntryView;
use crate::wal_core::error::WalErrorView;
use crate::wal_core::floor;
use crate::wal_core::segment;
use crate::wal_core::segment::SegmentView;
use crate::wal_core::wal;
use crate::wal_core::wal::WalView;

verus! {

// ─── Reading ─────────────────────────────────────────────────────────────────

/// Entries are picked by their number and stay in order.
pub proof fn entries_are_picked_by_number(entries: Seq<EntryView>, number: u64)
    ensures
        wal::since(entries, number) == entries.filter(|e: EntryView| e.sequence >= number),
        wal::above(entries, number) == entries.filter(|e: EntryView| e.sequence > number),
    decreases entries.len(),
{
    reveal(Seq::filter);
    if entries.len() > 0 {
        entries_are_picked_by_number(entries.drop_last(), number);
    }
}

/// No files hold no entries. One file holds what its bytes decode to, and where it
/// cannot be read it is that which is wrong.
pub proof fn one_file_is_read_by_its_bytes(files: FilesView, path: Seq<char>)
    ensures
        wal::entries_of(files, Seq::empty()) == Ok::<Seq<EntryView>, WalErrorView>(Seq::empty()),
        match storage::lookup(files, path) {
            Ok(raw) => wal::entries_of(files, seq![path]) == segment::parsed(raw),
            Err(fault) => wal::entries_of(files, seq![path]) == Err::<Seq<EntryView>, WalErrorView>(
                WalErrorView::Io(fault),
            ),
        },
{
    let one = seq![path];
    assert(one.drop_last() =~= Seq::<Seq<char>>::empty());
    reveal_with_fuel(wal::entries_of, 2);
    match segment::entries_in(files, path) {
        Ok(found) => assert(Seq::<EntryView>::empty() + found =~= found),
        Err(_) => {},
    }
}

/// Files are read one behind the other: first the entries of the first ones, then those
/// of the others. The first file that cannot be read decides the error.
pub proof fn files_are_read_in_order(files: FilesView, a: Seq<Seq<char>>, b: Seq<Seq<char>>)
    ensures
        wal::entries_of(files, a + b) == match (
            wal::entries_of(files, a),
            wal::entries_of(files, b),
        ) {
            (Err(e), _) => Err::<Seq<EntryView>, WalErrorView>(e),
            (Ok(_), Err(e)) => Err::<Seq<EntryView>, WalErrorView>(e),
            (Ok(first), Ok(second)) => Ok::<Seq<EntryView>, WalErrorView>(first + second),
        },
    decreases b.len(),
{
    if b.len() == 0 {
        assert(a + b =~= a);
        match wal::entries_of(files, a) {
            Ok(first) => assert(first + Seq::<EntryView>::empty() =~= first),
            Err(_) => {},
        }
    } else {
        let head = b.drop_last();
        assert((a + b).drop_last() =~= a + head);
        assert((a + b).last() == b.last());
        files_are_read_in_order(files, a, head);
        match (
            wal::entries_of(files, a),
            wal::entries_of(files, head),
            segment::entries_in(files, b.last()),
        ) {
            (Ok(x), Ok(y), Ok(z)) => assert((x + y) + z =~= x + (y + z)),
            _ => {},
        }
    }
}

/// A read goes through the sealed segments in the order of the list and then the active
/// one, and gives what has at least the number that was asked for; a recovery gives what
/// is behind the checkpoint. One of the files that cannot be read fails either.
pub proof fn all_segments_are_read(w: WalView, files: FilesView, from: u64)
    ensures
        ({
            let sealed = wal::entries_of(
                files,
                Seq::new(w.sealed.len(), |i: int| segment::path_of(w.dir, w.sealed[i])),
            );
            let last = wal::entries_of(files, seq![w.active.path]);
            match (sealed, last) {
                (Ok(first), Ok(second)) => {
                    let all = first + second;
                    &&& w.read_result(from, files) == Ok::<Seq<EntryView>, WalErrorView>(
                        all.filter(|e: EntryView| e.sequence >= from),
                    )
                    &&& w.recover_result(files) == Ok::<Seq<EntryView>, WalErrorView>(
                        all.filter(|e: EntryView| e.sequence > w.checkpoint.sequence),
                    )
                },
                (Err(e), _) => w.read_result(from, files) == Err::<Seq<EntryView>, WalErrorView>(e)
                    && w.recover_result(files) == Err::<Seq<EntryView>, WalErrorView>(e),
                (Ok(_), Err(e)) => w.read_result(from, files) == Err::<
                    Seq<EntryView>,
                    WalErrorView,
                >(e) && w.recover_result(files) == Err::<Seq<EntryView>, WalErrorView>(e),
            }
        }),
{
    let sealed = Seq::new(w.sealed.len(), |i: int| segment::path_of(w.dir, w.sealed[i]));
    assert(sealed + seq![w.active.path] =~= w.segment_paths());
    files_are_read_in_order(files, sealed, seq![w.active.path]);
    match w.all_entries(files) {
        Ok(all) => {
            entries_are_picked_by_number(all, from);
            entries_are_picked_by_number(all, w.checkpoint.sequence);
        },
        Err(_) => {},
    }
}

// ─── Appending ───────────────────────────────────────────────────────────────

/// What makes an entry in the file at `path` settled.
pub open spec fn settling(w: WalView, path: Seq<char>) -> FileOp {
    if w.sync_writes {
        FileOp::Sync(path)
    } else {
        FileOp::Flush(path)
    }
}

/// An entry that leaves the active segment within its cap goes there. Any other goes
/// into a fresh segment of the next ID, for which the active one is made durable first,
/// and where it is too large for that too it goes nowhere. An entry that was written is
/// made durable, or handed to the operating system where that is enough.
pub proof fn entry_goes_where_it_fits(w: WalView, data: Seq<u8>)
    requires
        w.active.id < u64::MAX,
    ensures
        ({
            let bytes = entry::encoded(w.next_sequence, data);
            let next = segment::path_of(w.dir, (w.active.id + 1) as u64);
            let list = w.append_ops(data);
            &&& bytes.len() == 16 + data.len()
            &&& if w.active.size + 16 + data.len() <= w.active.max_bytes {
                list == seq![
                    FileOp::Append(w.active.path, bytes),
                    settling(w, w.active.path),
                ]
            } else if 16 + data.len() <= w.max_segment_bytes {
                list == seq![
                    FileOp::Sync(w.active.path),
                    FileOp::CreateNew(next),
                    FileOp::Append(next, bytes),
                    settling(w, next),
                ]
            } else {
                list == seq![FileOp::Sync(w.active.path), FileOp::CreateNew(next)]
            }
        }),
{
    let bytes = entry::encoded(w.next_sequence, data);
    let next = segment::path_of(w.dir, (w.active.id + 1) as u64);
    let list = w.append_ops(data);
    entry::lemma_encoded_len(w.next_sequence, data);
    if w.active.size + 16 + data.len() <= w.active.max_bytes {
        assert(list =~= seq![FileOp::Append(w.active.path, bytes), settling(w, w.active.path)]);
    } else if 16 + data.len() <= w.max_segment_bytes {
        assert(list =~= seq![
            FileOp::Sync(w.active.path),
            FileOp::CreateNew(next),
            FileOp::Append(next, bytes),
            settling(w, next),
        ]);
    } else {
        assert(list =~= seq![FileOp::Sync(w.active.path), FileOp::CreateNew(next)]);
    }
}

/// An append of `len` bytes into the active segment: where both steps succeed it gives
/// the next sequence number and uses it up. Where the entry was written but not settled
/// the segment has grown all the same.
pub proof fn append_within_the_segment(w: WalView, len: int, io: OutcomeView)
    requires
        0 <= len,
        w.active.size + len <= w.active.max_bytes,
        w.next_sequence < u64::MAX,
    ensures
        ({
            let result = w.append_result(len, io);
            let after = w.appended(len, io);
            let grown = WalView {
                active: SegmentView { size: (w.active.size + len) as u64, ..w.active },
                ..w
            };
            match io {
                OutcomeView::Failed(at, fault) if at == 0 => {
                    &&& result == Err::<u64, WalErrorView>(WalErrorView::Io(fault))
                    &&& after == w
                },
                OutcomeView::Failed(at, fault) if at == 1 => {
                    &&& result == Err::<u64, WalErrorView>(WalErrorView::Io(fault))
                    &&& after == grown
                },
                _ => {
                    &&& result == Ok::<u64, WalErrorView>(w.next_sequence)
                    &&& after == WalView { next_sequence: (w.next_sequence + 1) as u64, ..grown }
                },
            }
        }),
{
}

/// An append of `len` bytes that the active segment has no room for seals it, in the
/// list even before the next one is there, and goes into a segment of the next ID that
/// holds nothing else. An entry that is too large for any segment is refused.
pub proof fn append_into_a_fresh_segment(w: WalView, len: int, io: OutcomeView)
    requires
        0 <= len,
        w.active.size + len > w.active.max_bytes,
        w.next_sequence < u64::MAX,
        w.active.id < u64::MAX,
    ensures
        ({
            let result = w.append_result(len, io);
            let after = w.appended(len, io);
            let id = (w.active.id + 1) as u64;
            let listed = WalView { sealed: w.sealed.push(w.active.id), ..w };
            let fresh = WalView {
                active: SegmentView {
                    id,
                    path: segment::path_of(w.dir, id),
                    size: 0,
                    max_bytes: w.max_segment_bytes,
                },
                ..listed
            };
            let grown = WalView {
                active: SegmentView { size: len as u64, ..fresh.active },
                ..fresh
            };
            match io {
                OutcomeView::Failed(at, fault) if at == 0 => {
                    &&& result == Err::<u64, WalErrorView>(WalErrorView::Io(fault))
                    &&& after == w
                },
                OutcomeView::Failed(at, fault) if at == 1 => {
                    &&& result == Err::<u64, WalErrorView>(WalErrorView::Io(fault))
                    &&& after == listed
                },
                OutcomeView::Failed(at, _) if at < 0 => true,
                _ => if len > w.max_segment_bytes {
                    &&& result == Err::<u64, WalErrorView>(
                        WalErrorView::SegmentFull {
                            size: 0,
                            max: w.max_segment_bytes as int,
                            entry: len,
                        },
                    )
                    &&& after == fresh
                } else {
                    match io {
                        OutcomeView::Failed(at, fault) if at == 2 => {
                            &&& result == Err::<u64, WalErrorView>(WalErrorView::Io(fault))
                            &&& after == fresh
                        },
                        OutcomeView::Failed(at, fault) if at == 3 => {
                            &&& result == Err::<u64, WalErrorView>(WalErrorView::Io(fault))
                            &&& after == grown
                        },
                        _ => {
                            &&& result == Ok::<u64, WalErrorView>(w.next_sequence)
                            &&& after == WalView {
                                next_sequence: (w.next_sequence + 1) as u64,
                                ..grown
                            }
                        },
                    }
                },
            }
        }),
{
}

// ─── Checkpointing ───────────────────────────────────────────────────────────

/// A checkpoint moves to a number that is higher and to no other. It moves only where
/// both steps succeed: a temporary file with the eight bytes of the number, and that
/// moved over the old one.
pub proof fn checkpoint_moves_to_a_higher_number(
    c: CheckpointView,
    sequence: u64,
    io: OutcomeView,
)
    ensures
        ({
            let list = c.advance_ops(sequence);
            let result = c.advance_result(sequence, io);
            let after = c.advanced(sequence, io);
            if sequence <= c.sequence {
                &&& list.len() == 0
                &&& (io matches OutcomeView::Failed(at, _) ==> at >= 0) ==> result is Ok
                &&& after == c
            } else {
                &&& list == seq![
                    FileOp::Write(
                        checkpoint::temp_path(c.dir),
                        crate::bytes::le_bytes(sequence as nat, 8),
                    ),
                    FileOp::Rename(checkpoint::temp_path(c.dir), checkpoint::file_path(c.dir)),
                ]
                &&& match io {
                    OutcomeView::Failed(at, fault) if at < 2 => {
                        &&& result == Err::<(), WalErrorView>(WalErrorView::Io(fault))
                        &&& after == c
                    },
                    _ => {
                        &&& result is Ok
                        &&& after.sequence == sequence
                        &&& after.dir == c.dir
                    },
                }
            }
        }),
{
}

/// A checkpoint file states the number in its first eight bytes, and one that is missing
/// or shorter states 0. Any other fault in reading it is an error.
pub proof fn checkpoint_is_read_from_eight_bytes(contents: storage::Contents)
    ensures
        match contents {
            Ok(raw) => checkpoint::stated(contents) == Ok::<u64, WalErrorView>(
                if raw.len() < 8 {
                    0
                } else {
                    crate::bytes::le_value(raw.take(8)) as u64
                },
            ),
            Err(fault) => checkpoint::stated(contents) == if fault == FaultView::NotFound {
                Ok::<u64, WalErrorView>(0)
            } else {
                Err::<u64, WalErrorView>(WalErrorView::Io(fault))
            },
        },
{
    match contents {
        Ok(raw) => {
            if raw.len() >= 8 {
                assert(raw.take(8) =~= raw.subrange(0, 8));
            }
        },
        Err(_) => {},
    }
}

// ─── Truncating ──────────────────────────────────────────────────────────────

/// The highest number is that of an entry, and no entry has a higher one.
pub proof fn highest_number_is_the_highest(entries: Seq<EntryView>)
    ensures
        forall|i: int|
            0 <= i < entries.len() ==> (#[trigger] entries[i]).sequence <= wal::max_sequence(
                entries,
            ),
        entries.len() == 0 ==> wal::max_sequence(entries) == 0,
        entries.len() > 0 ==> exists|i: int|
            0 <= i < entries.len() && (#[trigger] entries[i]).sequence == wal::max_sequence(
                entries,
            ),
    decreases entries.len(),
{
    if entries.len() > 0 {
        let head = entries.drop_last();
        highest_number_is_the_highest(head);
        assert(entries[entries.len() - 1] == entries.last());
        assert forall|i: int| 0 <= i < entries.len() implies (#[trigger] entries[i]).sequence
            <= wal::max_sequence(entries) by {
            if i < head.len() {
                assert(head[i] == entries[i]);
            }
        }
        if wal::max_sequence(entries) != entries.last().sequence {
            if head.len() > 0 {
                let i = choose|i: int|
                    0 <= i < head.len() && (#[trigger] head[i]).sequence == wal::max_sequence(head);
                assert(entries[i] == head[i]);
            }
        }
    }
}

/// The segment `id` holds nothing from `before` on, and is not the active one: it can
/// go. (Before number 0 there is nothing.)
pub open spec fn can_go(
    files: FilesView,
    dir: Seq<char>,
    active: u64,
    before: u64,
    id: u64,
) -> bool {
    let found = segment::entries_in(files, segment::path_of(dir, id));
    &&& id != active
    &&& before > 0
    &&& forall|i: int|
        0 <= i < found->Ok_0.len() ==> (#[trigger] found->Ok_0[i]).sequence < before
}

/// Of readable segments just those go that hold nothing from `before` on and are not the
/// active one; the others stay, in order.
pub proof fn segments_before_a_number_go(
    files: FilesView,
    dir: Seq<char>,
    ids: Seq<u64>,
    active: u64,
    before: u64,
)
    requires
        forall|i: int|
            0 <= i < ids.len() ==> segment::entries_in(
                files,
                segment::path_of(dir, #[trigger] ids[i]),
            ) is Ok,
    ensures
        ({
            let plan = wal::purge(files, dir, ids, active, before);
            let gone = ids.filter(|id: u64| can_go(files, dir, active, before, id));
            &&& plan.error is None
            &&& plan.kept == ids.filter(|id: u64| !can_go(files, dir, active, before, id))
            &&& plan.ops == Seq::new(
                gone.len(),
                |i: int| FileOp::Remove(segment::path_of(dir, gone[i])),
            )
        }),
    decreases ids.len(),
{
    reveal(Seq::filter);
    let go = |id: u64| can_go(files, dir, active, before, id);
    let stay = |id: u64| !can_go(files, dir, active, before, id);
    let plan = wal::purge(files, dir, ids, active, before);
    let gone = ids.filter(go);
    let removals = Seq::new(
        gone.len(),
        |i: int| FileOp::Remove(segment::path_of(dir, gone[i])),
    );
    if ids.len() == 0 {
        assert(plan.ops =~= removals);
        assert(plan.kept =~= ids.filter(stay));
    } else {
        let head = ids.drop_last();
        let last = ids.last();
        assert(ids[ids.len() - 1] == last);
        assert forall|i: int| 0 <= i < head.len() implies segment::entries_in(
            files,
            segment::path_of(dir, #[trigger] head[i]),
        ) is Ok by {
            assert(head[i] == ids[i]);
        }
        segments_before_a_number_go(files, dir, head, active, before);
        let found = segment::entries_in(files, segment::path_of(dir, last))->Ok_0;
        highest_number_is_the_highest(found);
        assert(go(last) <==> last != active && wal::max_sequence(found) < before) by {
            if found.len() > 0 {
                let i = choose|i: int|
                    0 <= i < found.len() && (#[trigger] found[i]).sequence == wal::max_sequence(
                        found,
                    );
                assert(found[i].sequence == wal::max_sequence(found));
            }
        }
        let earlier = head.filter(go);
        if go(last) {
            assert(gone == earlier.push(last));
            assert(plan.ops =~= removals);
        } else {
            assert(gone == earlier);
            assert(plan.ops =~= removals);
        }
    }
}

/// The first segment that cannot be read ends a truncation: what comes behind it is not
/// looked at, and what is wrong with it is what the truncation reports.
pub proof fn unreadable_segment_ends_a_truncation(
    files: FilesView,
    dir: Seq<char>,
    ids: Seq<u64>,
    active: u64,
    before: u64,
    k: int,
)
    requires
        0 <= k < ids.len(),
        forall|i: int|
            0 <= i < k ==> segment::entries_in(
                files,
                segment::path_of(dir, #[trigger] ids[i]),
            ) is Ok,
        segment::entries_in(files, segment::path_of(dir, ids[k])) is Err,
    ensures
        ({
            let plan = wal::purge(files, dir, ids, active, before);
            let first = wal::purge(files, dir, ids.take(k), active, before);
            &&& plan.ops == first.ops
            &&& plan.kept == first.kept
            &&& plan.error == Some(
                segment::entries_in(files, segment::path_of(dir, ids[k]))->Err_0,
            )
        }),
    decreases ids.len(),
{
    let head = ids.drop_last();
    if k == head.len() {
        assert(head =~= ids.take(k));
        let first = ids.take(k);
        assert forall|i: int| 0 <= i < first.len() implies segment::entries_in(
            files,
            segment::path_of(dir, #[trigger] first[i]),
        ) is Ok by {
            assert(first[i] == ids[i]);
        }
        segments_before_a_number_go(files, dir, first, active, before);
    } else {
        assert(head.take(k) =~= ids.take(k));
        assert(head[k] == ids[k]);
        assert forall|i: int| 0 <= i < k implies segment::entries_in(
            files,
            segment::path_of(dir, #[trigger] head[i]),
        ) is Ok by {
            assert(head[i] == ids[i]);
        }
        unreadable_segment_ends_a_truncation(files, dir, head, active, before, k);
    }
}

/// A truncation removes the files of the sealed segments that can go, in order, and where
/// any goes while the active segment is empty it records the next sequence number first.
/// The list of sealed segments loses them where every step succeeded; in all other cases
/// the WAL stays as it is. The active segment, the checkpoint and the numbers stay always.
pub proof fn truncation_drops_what_can_go(
    w: WalView,
    before: u64,
    files: FilesView,
    io: OutcomeView,
)
    requires
        forall|i: int|
            0 <= i < w.sealed.len() ==> segment::entries_in(
                files,
                segment::path_of(w.dir, #[trigger] w.sealed[i]),
            ) is Ok,
    ensures
        ({
            let gone = w.sealed.filter(|id: u64| can_go(files, w.dir, w.active.id, before, id));
            let removals = Seq::new(
                gone.len(),
                |i: int| FileOp::Remove(segment::path_of(w.dir, gone[i])),
            );
            let list = w.truncate_ops(before, files);
            let record = floor::raise_ops(w.dir, w.next_sequence);
            &&& list == if w.active.size == 0 && gone.len() > 0 {
                record + removals
            } else {
                removals
            }
            &&& match io {
                OutcomeView::Failed(at, fault) if at < list.len() => {
                    &&& w.truncate_result(before, files, io) == Err::<(), WalErrorView>(
                        WalErrorView::Io(fault),
                    )
                    &&& w.truncated(before, files, io) == w
                },
                _ => {
                    &&& w.truncate_result(before, files, io) is Ok
                    &&& w.truncated(before, files, io) == WalView {
                        sealed: w.sealed.filter(
                            |id: u64| !can_go(files, w.dir, w.active.id, before, id),
                        ),
                        ..w
                    }
                },
            }
        }),
{
    segments_before_a_number_go(files, w.dir, w.sealed, w.active.id, before);
}

// ─── Opening ─────────────────────────────────────────────────────────────────

/// The newest of the segments `ids` that has an entry is where the numbering goes on
/// from: `k` is its place, and those behind it are readable and empty.
pub proof fn newest_entry_is_found_from_the_back(
    files: FilesView,
    dir: Seq<char>,
    ids: Seq<u64>,
    k: int,
)
    requires
        -1 <= k < ids.len(),
        forall|i: int|
            k < i < ids.len() ==> segment::entries_in(
                files,
                segment::path_of(dir, #[trigger] ids[i]),
            ) == Ok::<Seq<EntryView>, WalErrorView>(Seq::empty()),
        k >= 0 ==> segment::entries_in(files, segment::path_of(dir, ids[k])) != Ok::<
            Seq<EntryView>,
            WalErrorView,
        >(Seq::empty()),
    ensures
        wal::newest_sealed(files, dir, ids) == if k < 0 {
            Ok::<Option<u64>, WalErrorView>(None)
        } else {
            match segment::entries_in(files, segment::path_of(dir, ids[k])) {
                Ok(found) => Ok::<Option<u64>, WalErrorView>(
                    Some(found[found.len() - 1].sequence),
                ),
                Err(e) => Err::<Option<u64>, WalErrorView>(e),
            }
        },
    decreases ids.len(),
{
    if ids.len() > 0 {
        let head = ids.drop_last();
        let last = ids.len() - 1;
        assert(ids[last] == ids.last());
        if k == last {
            match segment::entries_in(files, segment::path_of(dir, ids[k])) {
                Ok(found) => {
                    if found.len() == 0 {
                        assert(found =~= Seq::<EntryView>::empty());
                    }
                },
                Err(_) => {},
            }
        } else {
            assert forall|i: int| k < i < head.len() implies segment::entries_in(
                files,
                segment::path_of(dir, #[trigger] head[i]),
            ) == Ok::<Seq<EntryView>, WalErrorView>(Seq::empty()) by {
                assert(head[i] == ids[i]);
            }
            assert(segment::entries_in(files, segment::path_of(dir, ids[last])) == Ok::<
                Seq<EntryView>,
                WalErrorView,
            >(Seq::empty()));
            if k >= 0 {
                assert(head[k] == ids[k]);
            }
            newest_entry_is_found_from_the_back(files, dir, head, k);
        }
    }
}

/// The number that a WAL goes on with: the one behind the last on disk, or where nothing
/// is on disk the recorded one, which is 1 at the least.
pub proof fn numbering_goes_on_behind_the_last(
    files: FilesView,
    dir: Seq<char>,
    last: Option<u64>,
)
    ensures
        last matches Some(s) ==> (s < u64::MAX ==> wal::next_after(files, dir, last) == Ok::<
            u64,
            WalErrorView,
        >((s + 1) as u64)),
        last is None ==> match floor::loaded(files, dir) {
            Ok(f) => wal::next_after(files, dir, last) == Ok::<u64, WalErrorView>(
                if f == 0 {
                    1
                } else {
                    f
                },
            ),
            Err(e) => wal::next_after(files, dir, last) == Err::<u64, WalErrorView>(e),
        },
{
}

/// A directory without segments opens as an empty WAL whose first segment is created,
/// with the checkpoint that the directory states. A checkpoint that cannot be read keeps
/// any WAL from opening, and nothing is touched.
pub proof fn directory_without_segments_opens_empty(
    dir: Seq<char>,
    max_segment_bytes: u64,
    sync_writes: bool,
    files: FilesView,
    io: OutcomeView,
)
    requires
        segment::listed(storage::paths(files)).len() == 0,
    ensures
        ({
            let opened = wal::open_result(dir, max_segment_bytes, sync_writes, files, io);
            let list = wal::open_ops(dir, files);
            match (
                checkpoint::stated(storage::lookup(files, checkpoint::file_path(dir))),
                floor::loaded(files, dir),
            ) {
                (Err(e), _) => {
                    &&& opened == Err::<WalView, WalErrorView>(e)
                    &&& list.len() == 0
                },
                (Ok(sequence), first) => {
                    &&& list == seq![FileOp::CreateNew(segment::path_of(dir, 1))]
                    &&& match io {
                        OutcomeView::Failed(at, fault) if at == 0 => opened == Err::<WalView, WalErrorView>(
                            WalErrorView::Io(fault),
                        ),
                        _ => match first {
                            Err(e) => opened == Err::<WalView, WalErrorView>(e),
                            Ok(f) => opened == Ok::<WalView, WalErrorView>(
                                WalView {
                                    dir,
                                    max_segment_bytes,
                                    sync_writes,
                                    active: SegmentView {
                                        id: 1,
                                        path: segment::path_of(dir, 1),
                                        size: 0,
                                        max_bytes: max_segment_bytes,
                                    },
                                    sealed: Seq::empty(),
                                    checkpoint: CheckpointView { dir, sequence },
                                    next_sequence: if f == 0 {
                                        1
                                    } else {
                                        f
                                    },
                                },
                            ),
                        },
                    }
                },
            }
        }),
{
}

/// A directory with segments opens with the last of them as the active one, as long as
/// its whole entries are, and the others as sealed, in order. The next number is the one
/// behind the last whole entry of the active segment, or where it has none behind the
/// newest of the sealed ones.
pub proof fn directory_with_segments_resumes(
    dir: Seq<char>,
    max_segment_bytes: u64,
    sync_writes: bool,
    files: FilesView,
    io: OutcomeView,
    w: WalView,
)
    requires
        segment::listed(storage::paths(files)).len() > 0,
        wal::open_result(dir, max_segment_bytes, sync_writes, files, io) == Ok::<
            WalView,
            WalErrorView,
        >(w),
    ensures
        ({
            let existing = segment::listed(storage::paths(files));
            let path = existing[existing.len() - 1];
            let raw = storage::lookup(files, path)->Ok_0;
            let whole = segment::whole_entries_in(files, path);
            &&& storage::lookup(files, path) is Ok
            &&& segment::id_of(path) == Ok::<u64, WalErrorView>(w.active.id)
            &&& w.dir == dir
            &&& w.max_segment_bytes == max_segment_bytes
            &&& w.sync_writes == sync_writes
            &&& w.active.path == path
            &&& w.active.max_bytes == max_segment_bytes
            &&& segment::whole_len(raw) <= u64::MAX ==> w.active.size == segment::whole_len(raw)
            &&& w.sealed.len() == existing.len() - 1
            &&& forall|i: int|
                0 <= i < w.sealed.len() ==> #[trigger] w.sealed[i] == segment::id_of(
                    existing[i],
                )->Ok_0
            &&& w.checkpoint.dir == dir
            &&& checkpoint::stated(storage::lookup(files, checkpoint::file_path(dir))) == Ok::<
                u64,
                WalErrorView,
            >(w.checkpoint.sequence)
            &&& whole matches Ok(found)
            &&& if found.len() > 0 {
                found[found.len() - 1].sequence < u64::MAX ==> w.next_sequence == found[found.len()
                    - 1].sequence + 1
            } else {
                &&& wal::newest_sealed(files, dir, w.sealed) matches Ok(last)
                &&& wal::next_after(files, dir, last) == Ok::<u64, WalErrorView>(w.next_sequence)
            }
            &&& wal::open_ops(dir, files) == if segment::whole_len(raw) < raw.len() {
                seq![FileOp::OpenAppend(path), FileOp::Shorten(path, segment::whole_len(raw))]
            } else {
                seq![FileOp::OpenAppend(path)]
            }
        }),
{
    let existing = segment::listed(storage::paths(files));
    let path = existing[existing.len() - 1];
    segment::lemma_whole_len_bounds(storage::lookup(files, path)->Ok_0, 0);
}

/// Opening a directory with segments fails just where something of it does: the
/// checkpoint cannot be read, the last segment has no ID, cannot be read, opened or cut
/// back, holds a damaged entry, or has to be looked behind and that fails.
pub proof fn directory_opens_unless_something_fails(
    dir: Seq<char>,
    max_segment_bytes: u64,
    sync_writes: bool,
    files: FilesView,
    io: OutcomeView,
)
    requires
        segment::listed(storage::paths(files)).len() > 0,
    ensures
        ({
            let existing = segment::listed(storage::paths(files));
            let path = existing[existing.len() - 1];
            let opened = wal::open_result(dir, max_segment_bytes, sync_writes, files, io);
            let checked = checkpoint::stated(storage::lookup(files, checkpoint::file_path(dir)));
            let sealed = Seq::new(
                (existing.len() - 1) as nat,
                |i: int| segment::id_of(existing[i])->Ok_0,
            );
            let whole = segment::whole_entries_in(files, path);
            let behind = wal::newest_sealed(files, dir, sealed);
            let raw = storage::lookup(files, path)->Ok_0;
            let torn = storage::lookup(files, path) is Ok && segment::whole_len(raw) < raw.len();
            &&& opened is Ok <==> {
                &&& checked is Ok
                &&& segment::id_of(path) is Ok
                &&& storage::lookup(files, path) is Ok
                &&& !(io matches OutcomeView::Failed(at, _) && (at == 0 || (at == 1 && torn)))
                &&& whole is Ok
                &&& whole->Ok_0.len() == 0 ==> {
                    &&& behind is Ok
                    &&& behind->Ok_0 is None ==> floor::loaded(files, dir) is Ok
                }
            }
        }),
{
    let existing = segment::listed(storage::paths(files));
    let sealed = Seq::new(
        (existing.len() - 1) as nat,
        |i: int| segment::id_of(existing[i])->Ok_0,
    );
    assert(sealed =~= wal::ids_of(existing.drop_last()));
}

} // verus!
