//! Write-Ahead Log — the main public API.
//!
//! # Concepts
//!
//! **Sequence number (LSN)**: Every appended entry receives a unique,
//! monotonically increasing 64-bit integer starting at 1. This is the log's
//! primary addressing mechanism.
//!
//! **Segment**: Entries are stored in one or more segment files on disk. The
//! *active* segment accepts new writes; once it reaches `max_segment_bytes`
//! the WAL rotates to a fresh segment. Previous segments become *sealed*
//! (read-only).
//!
//! **Checkpoint**: A durably-persisted sequence number marking the highest
//! entry that has been applied to stable state. [`Wal::recover`] replays
//! everything *after* the checkpoint so that partially-applied entries can be
//! re-executed after a crash.
use vstd::prelude::*;

use crate::storage;
use crate::storage::{FileAction, FileOp, Files, FilesView, Outcome, OutcomeView};
use crate::wal_core::checkpoint;
use crate::wal_core::checkpoint::{Checkpoint, CheckpointView};
use crate::wal_core::entry;
use crate::wal_core::entry::{Entry, EntryView, HEADER_SIZE};
use crate::wal_core::error;
use crate::wal_core::error::{WalError, WalErrorView};
use crate::wal_core::floor;
use crate::wal_core::segment;
use crate::wal_core::segment::{Segment, SegmentView, DEFAULT_MAX_SEGMENT_BYTES};

verus! {

// ─── Configuration ───────────────────────────────────────────────────────────

/// Configuration for a [`Wal`] instance.
#[derive(Debug)]
pub struct WalConfig {
    /// Directory that will hold segment files and the checkpoint file.
    pub dir: String,
    /// Hard cap on individual segment file size in bytes.
    /// Defaults to 64 MiB ([`DEFAULT_MAX_SEGMENT_BYTES`]).
    pub max_segment_bytes: u64,
    /// When `true`, every [`Wal::append`] makes the data durable before returning.
    /// Set to `false` for higher throughput (e.g., in benchmarks) at the
    /// cost of potential data loss on unexpected power loss.
    pub sync_writes: bool,
}

impl Clone for WalConfig {
    fn clone(&self) -> (copy: Self)
        ensures
            copy == self,
    {
        WalConfig {
            dir: self.dir.clone(),
            max_segment_bytes: self.max_segment_bytes,
            sync_writes: self.sync_writes,
        }
    }
}

impl WalConfig {
    pub fn new(dir: String) -> (config: WalConfig)
        ensures
            config.dir == dir,
            config.max_segment_bytes == 64 * 1024 * 1024,
            config.sync_writes,
    {
        WalConfig { dir, max_segment_bytes: DEFAULT_MAX_SEGMENT_BYTES, sync_writes: true }
    }
}

// ─── State ───────────────────────────────────────────────────────────────────

/// A crash-safe, segment-based Write-Ahead Log.
///
/// Open with [`Wal::open`]; it automatically recovers from an interrupted previous run.
pub struct Wal {
    config: WalConfig,
    /// The segment currently accepting writes.
    active: Segment,
    /// IDs of older, read-only segments (ascending order).
    sealed: Vec<u64>,
    checkpoint: Checkpoint,
    /// Sequence number to assign to the *next* append.
    next_sequence: u64,
}

/// A [`Wal`] in terms of mathematical sequences.
pub struct WalView {
    pub dir: Seq<char>,
    pub max_segment_bytes: u64,
    pub sync_writes: bool,
    pub active: SegmentView,
    pub sealed: Seq<u64>,
    pub checkpoint: CheckpointView,
    pub next_sequence: u64,
}

impl View for Wal {
    type V = WalView;

    closed spec fn view(&self) -> WalView {
        WalView {
            dir: self.config.dir@,
            max_segment_bytes: self.config.max_segment_bytes,
            sync_writes: self.config.sync_writes,
            active: self.active@,
            sealed: self.sealed@,
            checkpoint: self.checkpoint@,
            next_sequence: self.next_sequence,
        }
    }
}

// ─── Reading ─────────────────────────────────────────────────────────────────

/// The entries of the segment files at `paths`, in that order; the first file
/// that cannot be read decides the error.
pub open spec fn entries_of(files: FilesView, paths: Seq<Seq<char>>) -> Result<
    Seq<EntryView>,
    WalErrorView,
>
    decreases paths.len(),
{
    if paths.len() == 0 {
        Ok(Seq::empty())
    } else {
        match entries_of(files, paths.drop_last()) {
            Err(e) => Err(e),
            Ok(before) => segment::prepended(before, segment::entries_in(files, paths.last())),
        }
    }
}

/// How many entries the files of `paths` hold before each of them, and behind the
/// last.
pub open spec fn bounds_of(files: FilesView, paths: Seq<Seq<char>>) -> Seq<int> {
    Seq::new(
        paths.len() + 1,
        |j: int| entries_of(files, paths.take(j))->Ok_0.len() as int,
    )
}

/// The entries from sequence number `from` on.
pub open spec fn since(entries: Seq<EntryView>, from: u64) -> Seq<EntryView>
    decreases entries.len(),
{
    if entries.len() == 0 {
        Seq::empty()
    } else if entries.last().sequence >= from {
        since(entries.drop_last(), from).push(entries.last())
    } else {
        since(entries.drop_last(), from)
    }
}

/// The entries behind sequence number `sequence`.
pub open spec fn above(entries: Seq<EntryView>, sequence: u64) -> Seq<EntryView>
    decreases entries.len(),
{
    if entries.len() == 0 {
        Seq::empty()
    } else if entries.last().sequence > sequence {
        above(entries.drop_last(), sequence).push(entries.last())
    } else {
        above(entries.drop_last(), sequence)
    }
}

/// The canonical paths of the segments `ids` in `dir`.
pub open spec fn paths_of(dir: Seq<char>, ids: Seq<u64>) -> Seq<Seq<char>> {
    Seq::new(ids.len(), |i: int| segment::path_of(dir, ids[i]))
}

/// The sequence number of the last entry in the newest of the segments `ids`
/// that has one.
pub open spec fn newest_sealed(files: FilesView, dir: Seq<char>, ids: Seq<u64>) -> Result<
    Option<u64>,
    WalErrorView,
>
    decreases ids.len(),
{
    if ids.len() == 0 {
        Ok(None)
    } else {
        match segment::entries_in(files, segment::path_of(dir, ids.last())) {
            Err(e) => Err(e),
            Ok(entries) => if entries.len() > 0 {
                Ok(Some(entries.last().sequence))
            } else {
                newest_sealed(files, dir, ids.drop_last())
            },
        }
    }
}

/// The highest sequence number on disk: that of the last entry in the active
/// segment, or where that is empty in the newest sealed one with an entry.
pub open spec fn highest(
    files: FilesView,
    active_path: Seq<char>,
    ids: Seq<u64>,
    dir: Seq<char>,
) -> Result<Option<u64>, WalErrorView> {
    match segment::whole_entries_in(files, active_path) {
        Err(e) => Err(e),
        Ok(entries) => if entries.len() > 0 {
            Ok(Some(entries.last().sequence))
        } else {
            newest_sealed(files, dir, ids)
        },
    }
}

// ─── Opening ─────────────────────────────────────────────────────────────────

/// The IDs that `paths` state, where they state one.
pub open spec fn ids_of(paths: Seq<Seq<char>>) -> Seq<u64> {
    Seq::new(paths.len(), |i: int| segment::id_of(paths[i])->Ok_0)
}

/// The length that the file at `path` has once its whole entries are all that is
/// left of it.
pub open spec fn whole_length(files: FilesView, path: Seq<char>) -> Result<
    u64,
    storage::FaultView,
> {
    match storage::lookup(files, path) {
        Ok(raw) => Ok(segment::whole_len(raw) as u64),
        Err(fault) => Err(fault),
    }
}

/// The file at `path` ends in an entry that was cut short.
pub open spec fn is_torn(files: FilesView, path: Seq<char>) -> bool {
    storage::lookup(files, path) matches Ok(raw) && segment::whole_len(raw) < raw.len()
}

/// What has to be done on disk to open the last segment: open its file, and cut it
/// back where a crash left an incomplete entry at its end.
pub open spec fn open_last_ops(files: FilesView, path: Seq<char>) -> Seq<FileOp> {
    if is_torn(files, path) {
        seq![
            FileOp::OpenAppend(path),
            FileOp::Shorten(path, segment::whole_len(storage::lookup(files, path)->Ok_0)),
        ]
    } else {
        seq![FileOp::OpenAppend(path)]
    }
}

/// What opening the last segment gives.
pub open spec fn last_opened(
    files: FilesView,
    path: Seq<char>,
    max_segment_bytes: u64,
    io: OutcomeView,
) -> Result<SegmentView, WalErrorView> {
    match segment::opened(path, whole_length(files, path), max_segment_bytes, io) {
        Err(e) => Err(e),
        Ok(active) => match io.fault_at(1) {
            Some(fault) if is_torn(files, path) => Err(WalErrorView::Io(fault)),
            _ => Ok(active),
        },
    }
}

/// What has to be done on disk to open the WAL in `dir`: create its first
/// segment, or open its last one.
pub open spec fn open_ops(dir: Seq<char>, files: FilesView) -> Seq<FileOp> {
    let existing = segment::listed(storage::paths(files));
    if checkpoint::loaded(files, dir) is Err {
        Seq::empty()
    } else if existing.len() == 0 {
        seq![FileOp::CreateNew(segment::path_of(dir, 1))]
    } else if segment::id_of(existing.last()) is Err || whole_length(
        files,
        existing.last(),
    ) is Err {
        Seq::empty()
    } else {
        open_last_ops(files, existing.last())
    }
}

/// The sequence number to go on with, where `last` is the highest on disk: the one
/// behind it, or where there is none the recorded floor.
pub open spec fn next_after(files: FilesView, dir: Seq<char>, last: Option<u64>) -> Result<
    u64,
    WalErrorView,
> {
    match last {
        Some(s) => Ok((s + 1) as u64),
        None => match floor::loaded(files, dir) {
            Ok(floor) => Ok(
                if floor > 1 {
                    floor
                } else {
                    1
                },
            ),
            Err(e) => Err(e),
        },
    }
}

/// What opening the WAL gives.
pub open spec fn open_result(
    dir: Seq<char>,
    max_segment_bytes: u64,
    sync_writes: bool,
    files: FilesView,
    io: OutcomeView,
) -> Result<WalView, WalErrorView> {
    let existing = segment::listed(storage::paths(files));
    match checkpoint::loaded(files, dir) {
        Err(e) => Err(e),
        Ok(checkpoint) => if existing.len() == 0 {
            match io.fault_at(0) {
                Some(fault) => Err(WalErrorView::Io(fault)),
                None => match next_after(files, dir, None) {
                    Err(e) => Err(e),
                    Ok(next_sequence) => Ok(
                        WalView {
                            dir,
                            max_segment_bytes,
                            sync_writes,
                            active: segment::created(dir, 1, max_segment_bytes),
                            sealed: Seq::empty(),
                            checkpoint,
                            next_sequence,
                        },
                    ),
                },
            }
        } else {
            let path = existing.last();
            let sealed = ids_of(existing.drop_last());
            match last_opened(files, path, max_segment_bytes, io) {
                Err(e) => Err(e),
                Ok(active) => match highest(files, path, sealed, dir) {
                    Err(e) => Err(e),
                    Ok(last) => match next_after(files, dir, last) {
                        Err(e) => Err(e),
                        Ok(next_sequence) => Ok(
                            WalView {
                                dir,
                                max_segment_bytes,
                                sync_writes,
                                active,
                                sealed,
                                checkpoint,
                                next_sequence,
                            },
                        ),
                    },
                },
            }
        },
    }
}

/// The segment files other than the last have names that state an ID.
pub open spec fn sealed_names_valid(files: FilesView) -> bool {
    let existing = segment::listed(storage::paths(files));
    forall|i: int|
        0 <= i < existing.len() - 1 ==> segment::id_of(#[trigger] existing[i]) is Ok
}

/// The sequence numbers on disk leave one for the next entry.
pub open spec fn sequence_left(dir: Seq<char>, files: FilesView) -> bool {
    let existing = segment::listed(storage::paths(files));
    existing.len() > 0 ==> highest(files, existing.last(), ids_of(existing.drop_last()), dir)
        != Ok::<Option<u64>, WalErrorView>(Some(u64::MAX))
}

/// The last segment of the directory opens.
pub open spec fn last_opens(files: FilesView, io: OutcomeView) -> bool {
    let existing = segment::listed(storage::paths(files));
    existing.len() > 0 && last_opened(files, existing.last(), 0, io) is Ok
}

/// Opening the WAL comes to a result: where it gets so far, the names of the sealed
/// segments state their IDs, and the sequence numbers on disk leave one.
pub open spec fn openable(dir: Seq<char>, files: FilesView, io: OutcomeView) -> bool {
    checkpoint::loaded(files, dir) is Ok ==> {
        &&& sealed_names_valid(files)
        &&& last_opens(files, io) ==> sequence_left(dir, files)
    }
}

// ─── Appending ───────────────────────────────────────────────────────────────

impl WalView {
    /// The paths of all segments, oldest first.
    pub open spec fn segment_paths(self) -> Seq<Seq<char>> {
        paths_of(self.dir, self.sealed).push(self.active.path)
    }

    /// The entries of the sealed segments, as `files` hold them.
    pub open spec fn sealed_entries(self, files: FilesView) -> Result<
        Seq<EntryView>,
        WalErrorView,
    > {
        entries_of(files, paths_of(self.dir, self.sealed))
    }

    /// All entries, as `files` hold them.
    pub open spec fn all_entries(self, files: FilesView) -> Result<Seq<EntryView>, WalErrorView> {
        entries_of(files, self.segment_paths())
    }

    /// The entries from `from` on, as `files` hold them.
    pub open spec fn read_result(self, from: u64, files: FilesView) -> Result<
        Seq<EntryView>,
        WalErrorView,
    > {
        match self.all_entries(files) {
            Ok(entries) => Ok(since(entries, from)),
            Err(e) => Err(e),
        }
    }

    /// The entries behind the checkpoint, as `files` hold them.
    pub open spec fn recover_result(self, files: FilesView) -> Result<
        Seq<EntryView>,
        WalErrorView,
    > {
        match self.all_entries(files) {
            Ok(entries) => Ok(above(entries, self.checkpoint.sequence)),
            Err(e) => Err(e),
        }
    }

    /// Making the active segment's data durable, or only visible to readers.
    pub open spec fn settle_op(self) -> FileOp {
        if self.sync_writes {
            FileOp::Sync(self.active.path)
        } else {
            FileOp::Flush(self.active.path)
        }
    }

    /// The active segment sealed, and a fresh one in its place.
    pub open spec fn rotated(self) -> WalView {
        WalView {
            sealed: self.sealed.push(self.active.id),
            active: segment::created(
                self.dir,
                (self.active.id + 1) as u64,
                self.max_segment_bytes,
            ),
            ..self
        }
    }

    /// What has to be done on disk to rotate.
    pub open spec fn rotate_ops(self) -> Seq<FileOp> {
        seq![
            FileOp::Sync(self.active.path),
            FileOp::CreateNew(segment::path_of(self.dir, (self.active.id + 1) as u64)),
        ]
    }

    /// What has to be done on disk to put `bytes` into the active segment.
    pub open spec fn write_ops(self, bytes: Seq<u8>) -> Seq<FileOp> {
        if self.active.overflows(bytes.len() as int) {
            Seq::empty()
        } else {
            self.active.append_ops(bytes).push(self.settle_op())
        }
    }

    /// What has to be done on disk to append `data`.
    pub open spec fn append_ops(self, data: Seq<u8>) -> Seq<FileOp> {
        let bytes = entry::encoded(self.next_sequence, data);
        if self.active.overflows(bytes.len() as int) {
            self.rotate_ops() + self.rotated().write_ops(bytes)
        } else {
            self.write_ops(bytes)
        }
    }

    /// The result of putting `len` bytes into the active segment.
    pub open spec fn write_result(self, len: int, io: OutcomeView) -> Result<u64, WalErrorView> {
        match self.active.append_result(len, io) {
            Err(e) => Err(e),
            Ok(_) => match io.fault_at(1) {
                Some(fault) => Err(WalErrorView::Io(fault)),
                None => Ok(self.next_sequence),
            },
        }
    }

    /// The WAL after `len` bytes were put into the active segment. The segment
    /// has grown once its file has; the sequence number is used up only when
    /// everything succeeded.
    pub open spec fn written(self, len: int, io: OutcomeView) -> WalView {
        WalView {
            active: self.active.appended(len, io),
            next_sequence: if self.write_result(len, io) is Ok {
                (self.next_sequence + 1) as u64
            } else {
                self.next_sequence
            },
            ..self
        }
    }

    /// The result of appending an entry of `len` encoded bytes.
    pub open spec fn append_result(self, len: int, io: OutcomeView) -> Result<u64, WalErrorView> {
        if self.active.overflows(len) {
            match io.fault_before(2) {
                Some(fault) => Err(WalErrorView::Io(fault)),
                None => self.rotated().write_result(len, io.skip(2)),
            }
        } else {
            self.write_result(len, io)
        }
    }

    /// The WAL after appending an entry of `len` encoded bytes. Where the fresh
    /// segment could not be created the old one counts as sealed already.
    pub open spec fn appended(self, len: int, io: OutcomeView) -> WalView {
        if self.active.overflows(len) {
            if io.fault_at(0) is Some {
                self
            } else if io.fault_before(2) is Some {
                WalView { sealed: self.sealed.push(self.active.id), ..self }
            } else {
                self.rotated().written(len, io.skip(2))
            }
        } else {
            self.written(len, io)
        }
    }

    /// An entry of `len` encoded bytes can be numbered and placed: no counter
    /// runs over.
    pub open spec fn can_append(self, len: int) -> bool {
        &&& self.next_sequence < u64::MAX
        &&& self.active.size + len <= u64::MAX
        &&& self.active.overflows(len) ==> self.active.id < u64::MAX
    }
}

// ─── Truncating ──────────────────────────────────────────────────────────────

/// The highest sequence number among `entries`, 0 where there are none.
pub open spec fn max_sequence(entries: Seq<EntryView>) -> u64
    decreases entries.len(),
{
    if entries.len() == 0 {
        0
    } else {
        let before = max_sequence(entries.drop_last());
        if entries.last().sequence > before {
            entries.last().sequence
        } else {
            before
        }
    }
}

/// Whether every entry of segment `id` comes before sequence number `before`.
pub open spec fn expired(files: FilesView, dir: Seq<char>, id: u64, before: u64) -> Result<
    bool,
    WalErrorView,
> {
    match segment::entries_in(files, segment::path_of(dir, id)) {
        Ok(entries) => Ok(max_sequence(entries) < before),
        Err(e) => Err(e),
    }
}

/// What the segments `ids` come to when those before `before` are dropped, in
/// order and up to the first that cannot be read. The segment `active` stays.
pub struct Purge {
    /// The removals.
    pub ops: Seq<FileOp>,
    /// The segments that stay.
    pub kept: Seq<u64>,
    /// Why the walk stopped early, if it did.
    pub error: Option<WalErrorView>,
}

pub open spec fn purge(
    files: FilesView,
    dir: Seq<char>,
    ids: Seq<u64>,
    active: u64,
    before: u64,
) -> Purge
    decreases ids.len(),
{
    if ids.len() == 0 {
        Purge { ops: Seq::empty(), kept: Seq::empty(), error: None }
    } else {
        let earlier = purge(files, dir, ids.drop_last(), active, before);
        if earlier.error is Some {
            earlier
        } else {
            match expired(files, dir, ids.last(), before) {
                Err(e) => Purge { error: Some(e), ..earlier },
                Ok(gone) => if gone && ids.last() != active {
                    Purge {
                        ops: earlier.ops.push(FileOp::Remove(segment::path_of(dir, ids.last()))),
                        ..earlier
                    }
                } else {
                    Purge { kept: earlier.kept.push(ids.last()), ..earlier }
                },
            }
        }
    }
}

impl WalView {
    /// What has to be done on disk to drop the sealed segments before `before`. Where
    /// the active segment has no entry, the next sequence number is recorded first.
    pub open spec fn truncate_ops(self, before: u64, files: FilesView) -> Seq<FileOp> {
        let removals = purge(files, self.dir, self.sealed, self.active.id, before).ops;
        if self.active.size == 0 && removals.len() > 0 {
            floor::raise_ops(self.dir, self.next_sequence) + removals
        } else {
            removals
        }
    }

    /// The result of dropping the sealed segments before `before`.
    pub open spec fn truncate_result(
        self,
        before: u64,
        files: FilesView,
        io: OutcomeView,
    ) -> Result<(), WalErrorView> {
        match io.fault_before(self.truncate_ops(before, files).len() as int) {
            Some(fault) => Err(WalErrorView::Io(fault)),
            None => match purge(files, self.dir, self.sealed, self.active.id, before).error {
                Some(e) => Err(e),
                None => Ok(()),
            },
        }
    }

    /// The WAL after dropping the sealed segments before `before`; unchanged
    /// where that failed.
    pub open spec fn truncated(self, before: u64, files: FilesView, io: OutcomeView) -> WalView {
        if self.truncate_result(before, files, io) is Ok {
            WalView {
                sealed: purge(files, self.dir, self.sealed, self.active.id, before).kept,
                ..self
            }
        } else {
            self
        }
    }
}

// ─── Operations ──────────────────────────────────────────────────────────────

/// Move those of `entries` that come from sequence number `from` on behind `out`.
fn take_since(out: &mut Vec<Entry>, entries: Vec<Entry>, from: u64)
    ensures
        entry::entry_views(final(out)@) == entry::entry_views(old(out)@) + since(
            entry::entry_views(entries@),
            from,
        ),
{
    let ghost start = entry::entry_views(out@);
    let ghost all = entry::entry_views(entries@);
    let mut i: usize = 0;
    assert(start =~= start + since(all.take(0), from));
    while i < entries.len()
        invariant
            i <= entries@.len(),
            all == entry::entry_views(entries@),
            entry::entry_views(out@) == start + since(all.take(i as int), from),
        decreases entries@.len() - i,
    {
        let ghost done = entry::entry_views(out@);
        proof {
            assert(all.take(i + 1).drop_last() =~= all.take(i as int));
            assert(all.take(i + 1).last() == entries@[i as int]@);
        }
        if entries[i].sequence >= from {
            let item = entries[i].clone();
            out.push(item);
            assert(entry::entry_views(out@) =~= done.push(all[i as int]));
            assert(done.push(all[i as int]) =~= start + since(all.take(i + 1), from));
        }
        i = i + 1;
    }
    assert(all.take(i as int) =~= all);
}

/// Filtering a concatenation filters its parts.
proof fn lemma_since_concat(a: Seq<EntryView>, b: Seq<EntryView>, from: u64)
    ensures
        since(a + b, from) == since(a, from) + since(b, from),
    decreases b.len(),
{
    if b.len() == 0 {
        assert(a + b =~= a);
        assert(since(a, from) + since(b, from) =~= since(a, from));
    } else {
        assert((a + b).drop_last() =~= a + b.drop_last());
        assert((a + b).last() == b.last());
        lemma_since_concat(a, b.drop_last(), from);
        assert(since(a + b, from) =~= since(a, from) + since(b, from));
    }
}

/// What comes from the number behind `sequence` on is what is behind `sequence`.
proof fn lemma_since_is_above(entries: Seq<EntryView>, sequence: u64)
    requires
        sequence < u64::MAX,
    ensures
        since(entries, (sequence + 1) as u64) == above(entries, sequence),
    decreases entries.len(),
{
    if entries.len() > 0 {
        lemma_since_is_above(entries.drop_last(), sequence);
    }
}

/// Nothing is behind the highest number of all.
proof fn lemma_nothing_above(entries: Seq<EntryView>)
    ensures
        above(entries, u64::MAX) == Seq::<EntryView>::empty(),
    decreases entries.len(),
{
    if entries.len() > 0 {
        lemma_nothing_above(entries.drop_last());
    }
}

/// A list of positions as numbers.
pub open spec fn positions(list: Seq<usize>) -> Seq<int> {
    Seq::new(list.len(), |i: int| list[i] as int)
}

/// Read the entries of the segments `ids` in `dir`, and count how many come before
/// each of them, and behind them all.
fn read_segments(dir: &str, ids: &Vec<u64>, files: &Files) -> (result: Result<
    (Vec<Entry>, Vec<usize>),
    WalError,
>)
    ensures
        match (result, entries_of(files@, paths_of(dir@, ids@))) {
            (Ok((entries, bounds)), Ok(views)) => {
                &&& entry::entry_views(entries@) == views
                &&& positions(bounds@) == bounds_of(files@, paths_of(dir@, ids@))
            },
            (Err(e), Err(view)) => e@ == view,
            _ => false,
        },
{
    let mut found: Vec<Entry> = Vec::new();
    let mut bounds: Vec<usize> = Vec::new();
    let ghost paths = paths_of(dir@, ids@);
    let mut i: usize = 0;
    bounds.push(0);
    assert(paths.take(0) =~= Seq::<Seq<char>>::empty());
    assert(entry::entry_views(found@) =~= Seq::<EntryView>::empty());
    while i < ids.len()
        invariant
            i <= ids@.len(),
            paths == paths_of(dir@, ids@),
            entries_of(files@, paths.take(i as int)) == Ok::<Seq<EntryView>, WalErrorView>(
                entry::entry_views(found@),
            ),
            bounds@.len() == i + 1,
            forall|j: int|
                0 <= j <= i ==> (#[trigger] bounds@[j]) as int == entries_of(
                    files@,
                    paths.take(j),
                )->Ok_0.len(),
        decreases ids@.len() - i,
    {
        let path = segment::segment_path(dir, ids[i]);
        proof {
            assert(paths.take(i + 1).drop_last() =~= paths.take(i as int));
            assert(paths.take(i + 1).last() == path@);
        }
        match segment::read_entries(&path, files) {
            Err(e) => {
                proof {
                    lemma_entries_of_prefix_error(files@, paths, i + 1);
                }
                return Err(e);
            },
            Ok(mut entries) => {
                proof {
                    assert(entry::entry_views(found@ + entries@) =~= entry::entry_views(found@)
                        + entry::entry_views(entries@));
                }
                found.append(&mut entries);
            },
        }
        bounds.push(found.len());
        i = i + 1;
    }
    proof {
        assert(paths.take(i as int) =~= paths);
        assert(positions(bounds@) =~= bounds_of(files@, paths));
    }
    Ok((found, bounds))
}

/// Open the last segment, the file at `path`; `io` is the outcome of opening it
/// and cutting it back.
fn open_last(path: &String, max_segment_bytes: u64, files: &Files, io: &Outcome) -> (active: Result<
    Segment,
    WalError,
>)
    ensures
        match (active, last_opened(files@, path@, max_segment_bytes, io@)) {
            (Ok(s), Ok(view)) => s@ == view,
            (Err(e), Err(view)) => e@ == view,
            _ => false,
        },
{
    let mut torn: bool = false;
    let metadata: Result<u64, storage::IoFault> = match files.get(path) {
        Ok(raw) => {
            let whole: usize = segment::count_whole(raw.as_slice());
            torn = whole < raw.len();
            Ok(whole as u64)
        },
        Err(fault) => Err(fault),
    };
    let active = match Segment::open_for_append(path.clone(), metadata, max_segment_bytes, io) {
        Ok(active) => active,
        Err(e) => return Err(e),
    };
    if torn {
        match io.fault_at(1) {
            Some(fault) => return Err(WalError::Io(fault)),
            None => {},
        }
    }
    Ok(active)
}

/// The sequence number to go on with.
fn next_free(dir: &str, files: &Files, last: Option<u64>) -> (next: Result<u64, WalError>)
    requires
        last != Some(u64::MAX),
    ensures
        error::agrees(next, next_after(files@, dir@, last)),
{
    match last {
        Some(s) => Ok(s + 1),
        None => match floor::load(dir, files) {
            Ok(floor) => if floor > 1 {
                Ok(floor)
            } else {
                Ok(1)
            },
            Err(e) => Err(e),
        },
    }
}

fn max_of(entries: &Vec<Entry>) -> (max: u64)
    ensures
        max == max_sequence(entry::entry_views(entries@)),
{
    let ghost all = entry::entry_views(entries@);
    let mut max: u64 = 0;
    let mut i: usize = 0;
    assert(all.take(0) =~= Seq::<EntryView>::empty());
    while i < entries.len()
        invariant
            i <= entries@.len(),
            all == entry::entry_views(entries@),
            max == max_sequence(all.take(i as int)),
        decreases entries@.len() - i,
    {
        proof {
            assert(all.take(i + 1).drop_last() =~= all.take(i as int));
            assert(all.take(i + 1).last() == entries@[i as int]@);
        }
        if entries[i].sequence > max {
            max = entries[i].sequence;
        }
        i = i + 1;
    }
    assert(all.take(i as int) =~= all);
    max
}

/// Find the highest sequence number stored across all segments on disk.
///
/// Only the active (last) segment is fully scanned; if it is empty we fall
/// back to the most recent sealed segment.
pub fn highest_sequence_on_disk(
    active_path: &String,
    sealed_ids: &Vec<u64>,
    dir: &str,
    files: &Files,
) -> (result: Result<Option<u64>, WalError>)
    ensures
        error::agrees(result, highest(files@, active_path@, sealed_ids@, dir@)),
{
    let active_entries = match segment::read_whole_entries(active_path, files) {
        Ok(entries) => entries,
        Err(e) => return Err(e),
    };
    if active_entries.len() > 0 {
        assert(entry::entry_views(active_entries@).last() == active_entries@.last()@);
        return Ok(Some(active_entries[active_entries.len() - 1].sequence));
    }
    let mut i: usize = sealed_ids.len();
    assert(sealed_ids@.take(i as int) =~= sealed_ids@);
    while i > 0
        invariant
            i <= sealed_ids@.len(),
            highest(files@, active_path@, sealed_ids@, dir@) == newest_sealed(
                files@,
                dir@,
                sealed_ids@.take(i as int),
            ),
        decreases i,
    {
        let ghost ids = sealed_ids@.take(i as int);
        proof {
            assert(ids.last() == sealed_ids@[i - 1]);
            assert(ids.drop_last() =~= sealed_ids@.take(i - 1));
        }
        let path = segment::segment_path(dir, sealed_ids[i - 1]);
        let entries = match segment::read_entries(&path, files) {
            Ok(entries) => entries,
            Err(e) => return Err(e),
        };
        if entries.len() > 0 {
            assert(entry::entry_views(entries@).last() == entries@.last()@);
            return Ok(Some(entries[entries.len() - 1].sequence));
        }
        i = i - 1;
    }
    Ok(None)
}

/// The IDs that the names of all but the last of `existing` state.
fn sealed_ids(existing: &Vec<String>) -> (ids: Vec<u64>)
    requires
        existing@.len() > 0,
        forall|i: int|
            0 <= i < existing@.len() - 1 ==> segment::id_of(
                (#[trigger] storage::texts(existing@)[i]),
            ) is Ok,
    ensures
        ids@ == ids_of(storage::texts(existing@).drop_last()),
{
    let ghost names = storage::texts(existing@);
    let mut ids: Vec<u64> = Vec::new();
    let mut i: usize = 0;
    while i < existing.len() - 1
        invariant
            existing@.len() > 0,
            i <= existing@.len() - 1,
            names == storage::texts(existing@),
            forall|j: int|
                0 <= j < existing@.len() - 1 ==> segment::id_of(#[trigger] names[j]) is Ok,
            ids@ == ids_of(names.take(i as int)),
        decreases existing@.len() - i,
    {
        assert(names[i as int] == existing@[i as int]@);
        match segment::segment_id_from_path(existing[i].as_str()) {
            Ok(id) => ids.push(id),
            Err(_) => {
                assert(false);
            },
        }
        assert(ids@ =~= ids_of(names.take(i + 1)));
        i = i + 1;
    }
    assert(names.take(i as int) =~= names.drop_last());
    ids
}

/// The removals, the segments that stay, and why the walk stopped, as [`purge`]
/// has them.
fn plan_purge(dir: &str, ids: &Vec<u64>, active: u64, before: u64, files: &Files) -> (plan: (
    Vec<FileAction>,
    Vec<u64>,
    Option<WalError>,
))
    ensures
        storage::ops(plan.0@) == purge(files@, dir@, ids@, active, before).ops,
        plan.1@ == purge(files@, dir@, ids@, active, before).kept,
        match plan.2 {
            Some(e) => purge(files@, dir@, ids@, active, before).error == Some(e@),
            None => purge(files@, dir@, ids@, active, before).error is None,
        },
{
    let mut actions: Vec<FileAction> = Vec::new();
    let mut kept: Vec<u64> = Vec::new();
    let mut i: usize = 0;
    assert(ids@.take(0) =~= Seq::<u64>::empty());
    assert(storage::ops(actions@) =~= Seq::<FileOp>::empty());
    while i < ids.len()
        invariant
            i <= ids@.len(),
            storage::ops(actions@) == purge(files@, dir@, ids@.take(i as int), active, before).ops,
            kept@ == purge(files@, dir@, ids@.take(i as int), active, before).kept,
            purge(files@, dir@, ids@.take(i as int), active, before).error is None,
        decreases ids@.len() - i,
    {
        proof {
            assert(ids@.take(i + 1).drop_last() =~= ids@.take(i as int));
            assert(ids@.take(i + 1).last() == ids@[i as int]);
        }
        let path = segment::segment_path(dir, ids[i]);
        match segment::read_entries(&path, files) {
            Err(e) => {
                proof {
                    lemma_purge_stops(files@, dir@, ids@, active, before, i + 1);
                }
                return (actions, kept, Some(e));
            },
            Ok(entries) => {
                if max_of(&entries) < before && ids[i] != active {
                    proof {
                        storage::lemma_ops_push(actions@, FileAction::Remove { path });
                    }
                    actions.push(FileAction::Remove { path });
                } else {
                    kept.push(ids[i]);
                }
            },
        }
        i = i + 1;
    }
    assert(ids@.take(i as int) =~= ids@);
    (actions, kept, None)
}

/// A walk that stopped at a prefix of the segments is the whole walk.
proof fn lemma_purge_stops(
    files: FilesView,
    dir: Seq<char>,
    ids: Seq<u64>,
    active: u64,
    before: u64,
    n: int,
)
    requires
        0 <= n <= ids.len(),
        purge(files, dir, ids.take(n), active, before).error is Some,
    ensures
        purge(files, dir, ids, active, before) == purge(files, dir, ids.take(n), active, before),
    decreases ids.len(),
{
    if n == ids.len() {
        assert(ids.take(n) =~= ids);
    } else {
        assert(ids.drop_last().take(n) =~= ids.take(n));
        lemma_purge_stops(files, dir, ids.drop_last(), active, before, n);
    }
}

impl Wal {
    /// What has to be done on disk to open the WAL that `config` describes,
    /// whose directory exists and holds `files`.
    pub fn open_actions(config: &WalConfig, files: &Files) -> (actions: Vec<FileAction>)
        ensures
            storage::ops(actions@) == open_ops(config.dir@, files@),
    {
        let mut actions: Vec<FileAction> = Vec::new();
        let existing = segment::list_segments(&files.paths());
        if Checkpoint::open(config.dir.as_str(), files).is_err() {
        } else if existing.len() == 0 {
            actions = Segment::create_actions(config.dir.as_str(), 1);
        } else {
            let path = &existing[existing.len() - 1];
            assert(storage::texts(existing@).last() == path@);
            if segment::segment_id_from_path(path.as_str()).is_ok() {
                match files.get(path) {
                    Err(_) => {},
                    Ok(raw) => {
                        let whole: usize = segment::count_whole(raw.as_slice());
                        actions.push(FileAction::OpenAppend { path: path.clone() });
                        if whole < raw.len() {
                            actions.push(
                                FileAction::Shorten { path: path.clone(), len: whole as u64 },
                            );
                        }
                    },
                }
            }
        }
        assert(storage::ops(actions@) =~= open_ops(config.dir@, files@));
        actions
    }

    /// Open (or create) a WAL rooted at the directory in `config`, which holds
    /// `files`; `io` is the outcome of [`Wal::open_actions`].
    ///
    /// - If the directory is empty a fresh WAL is created starting at
    ///   sequence 1.
    /// - If segment files already exist the WAL resumes from where it left
    ///   off — recovering the last written sequence so new appends continue
    ///   the sequence without gaps or reuse.
    /// - If a crash left an incomplete entry at the end of the last segment, the
    ///   entries before it are what the WAL holds, and the segment is cut back to
    ///   them.
    pub fn open(config: WalConfig, files: &Files, io: &Outcome) -> (wal: Result<Wal, WalError>)
        requires
            openable(config.dir@, files@, io@),
        ensures
            match (
                wal,
                open_result(
                    config.dir@,
                    config.max_segment_bytes,
                    config.sync_writes,
                    files@,
                    io@,
                ),
            ) {
                (Ok(w), Ok(view)) => w@ == view,
                (Err(e), Err(view)) => e@ == view,
                _ => false,
            },
    {
        let checkpoint = match Checkpoint::open(config.dir.as_str(), files) {
            Ok(checkpoint) => checkpoint,
            Err(e) => return Err(e),
        };
        let existing = segment::list_segments(&files.paths());
        let ghost names = storage::texts(existing@);
        if existing.len() == 0 {
            let active = match Segment::create(
                config.dir.as_str(),
                1,
                config.max_segment_bytes,
                io,
            ) {
                Ok(active) => active,
                Err(e) => return Err(e),
            };
            let next_sequence: u64 = match next_free(config.dir.as_str(), files, None) {
                Ok(next) => next,
                Err(e) => return Err(e),
            };
            let wal = Wal { config, active, sealed: Vec::new(), checkpoint, next_sequence };
            assert(wal.sealed@ =~= Seq::<u64>::empty());
            return Ok(wal);
        }
        let sealed = sealed_ids(&existing);
        let active_path = &existing[existing.len() - 1];
        assert(names.last() == active_path@);
        let active = match open_last(active_path, config.max_segment_bytes, files, io) {
            Ok(active) => active,
            Err(e) => return Err(e),
        };
        let found = match highest_sequence_on_disk(
            active_path,
            &sealed,
            config.dir.as_str(),
            files,
        ) {
            Ok(found) => found,
            Err(e) => return Err(e),
        };
        let next_sequence: u64 = match next_free(config.dir.as_str(), files, found) {
            Ok(next) => next,
            Err(e) => return Err(e),
        };
        Ok(Wal { config, active, sealed, checkpoint, next_sequence })
    }

    /// [`Wal::open`] for a directory of which nothing is known: `None` where it gets
    /// as far as a sealed segment whose name has no ID, or finds the sequence
    /// numbers used up.
    pub fn try_open(config: WalConfig, files: &Files, io: &Outcome) -> (wal: Option<
        Result<Wal, WalError>,
    >)
        ensures
            wal is None <==> !openable(config.dir@, files@, io@),
            wal matches Some(result) ==> match (
                result,
                open_result(
                    config.dir@,
                    config.max_segment_bytes,
                    config.sync_writes,
                    files@,
                    io@,
                ),
            ) {
                (Ok(w), Ok(view)) => w@ == view,
                (Err(e), Err(view)) => e@ == view,
                _ => false,
            },
    {
        if Checkpoint::open(config.dir.as_str(), files).is_err() {
            return Some(Wal::open(config, files, io));
        }
        let existing = segment::list_segments(&files.paths());
        let ghost names = storage::texts(existing@);
        if existing.len() > 0 {
            let last: usize = existing.len() - 1;
            let mut i: usize = 0;
            while i < last
                invariant
                    i <= last,
                    existing@.len() == last + 1,
                    names == storage::texts(existing@),
                    names == segment::listed(storage::paths(files@)),
                    checkpoint::loaded(files@, config.dir@) is Ok,
                    forall|j: int| 0 <= j < i ==> segment::id_of(#[trigger] names[j]) is Ok,
                decreases last - i,
            {
                assert(names[i as int] == existing@[i as int]@);
                if segment::segment_id_from_path(existing[i].as_str()).is_err() {
                    return None;
                }
                i = i + 1;
            }
            assert(names.last() == existing@[last as int]@);
            if open_last(&existing[last], 0, files, io).is_ok() {
                let sealed = sealed_ids(&existing);
                match highest_sequence_on_disk(
                    &existing[last],
                    &sealed,
                    config.dir.as_str(),
                    files,
                ) {
                    Ok(Some(s)) => {
                        if s == u64::MAX {
                            return None;
                        }
                    },
                    _ => {},
                }
            }
        }
        Some(Wal::open(config, files, io))
    }

    /// Whether an entry of `len` encoded bytes can be numbered and placed.
    pub fn can_append(&self, len: usize) -> (r: bool)
        ensures
            r == self@.can_append(len as int),
    {
        let size: u64 = self.active.size();
        self.next_sequence < u64::MAX && size <= u64::MAX - len as u64 && (
        !self.active.would_overflow(len) || self.active.id() < u64::MAX)
    }

    /// Whether an entry of `len` encoded bytes fits into the active segment or
    /// into a fresh one.
    pub fn fits(&self, len: usize) -> (r: bool)
        requires
            self@.can_append(len as int),
        ensures
            r == (self@.append_result(len as int, OutcomeView::Done) is Ok),
    {
        !self.active.would_overflow(len) || len as u64 <= self.config.max_segment_bytes
    }

    /// What has to be done on disk to append `data`.
    pub fn append_actions(&self, data: &[u8]) -> (actions: Vec<FileAction>)
        requires
            self@.can_append(HEADER_SIZE + data@.len()),
        ensures
            storage::ops(actions@) == self@.append_ops(data@),
    {
        let encoded = entry::encode(self.next_sequence, data);
        let mut actions: Vec<FileAction> = Vec::new();
        if self.active.would_overflow(encoded.len()) {
            let id: u64 = self.active.id() + 1;
            let fresh = Segment::fresh(
                self.config.dir.as_str(),
                id,
                self.config.max_segment_bytes,
            );
            actions.push(self.active.sync_action());
            actions.push(FileAction::CreateNew { path: fresh.path().clone() });
            self.push_write(&mut actions, &fresh, &encoded);
            assert(storage::ops(actions@) =~= self@.append_ops(data@));
        } else {
            self.push_write(&mut actions, &self.active, &encoded);
            assert(storage::ops(actions@) =~= self@.append_ops(data@));
        }
        actions
    }

    /// Add what puts `encoded` into `target`, if it fits there.
    fn push_write(&self, actions: &mut Vec<FileAction>, target: &Segment, encoded: &Vec<u8>)
        requires
            target@.size + encoded@.len() <= u64::MAX,
        ensures
            storage::ops(final(actions)@) == storage::ops(old(actions)@) + (WalView {
                active: target@,
                ..self@
            }).write_ops(encoded@),
    {
        let ghost start = storage::ops(actions@);
        let mut write = target.append_actions(encoded.as_slice());
        if write.len() > 0 {
            if self.config.sync_writes {
                write.push(target.sync_action());
            } else {
                write.push(target.flush_action());
            }
        }
        let ghost with = WalView { active: target@, ..self@ };
        assert(storage::ops(write@) =~= with.write_ops(encoded@));
        proof {
            storage::lemma_ops_concat(actions@, write@);
        }
        actions.append(&mut write);
    }

    /// Append raw bytes to the WAL and return the assigned sequence number;
    /// `io` is the outcome of [`Wal::append_actions`].
    ///
    /// If `sync_writes` is enabled the data is durable before this succeeds.
    /// The WAL rotates to a fresh segment automatically when needed.
    pub fn append(&mut self, data: &[u8], io: &Outcome) -> (result: Result<u64, WalError>)
        requires
            old(self)@.can_append(HEADER_SIZE + data@.len()),
            HEADER_SIZE + data@.len() <= usize::MAX,
        ensures
            error::agrees(result, old(self)@.append_result(HEADER_SIZE + data@.len(), io@)),
            final(self)@ == old(self)@.appended(HEADER_SIZE + data@.len(), io@),
    {
        let len: usize = HEADER_SIZE + data.len();
        if self.active.would_overflow(len) {
            match self.rotate(io) {
                Err(e) => return Err(e),
                Ok(()) => {},
            }
            let rest = io.skip(2);
            self.write(len, &rest)
        } else {
            self.write(len, io)
        }
    }

    /// Put an entry of `len` encoded bytes into the active segment.
    fn write(&mut self, len: usize, io: &Outcome) -> (result: Result<u64, WalError>)
        requires
            old(self)@.next_sequence < u64::MAX,
            old(self)@.active.size + len <= u64::MAX,
        ensures
            error::agrees(result, old(self)@.write_result(len as int, io@)),
            final(self)@ == old(self)@.written(len as int, io@),
    {
        let seq: u64 = self.next_sequence;
        match self.active.append_len(len, io) {
            Err(e) => return Err(e),
            Ok(()) => {},
        }
        match io.fault_at(1) {
            Some(fault) => return Err(WalError::Io(fault)),
            None => {},
        }
        self.next_sequence = seq + 1;
        Ok(seq)
    }

    /// Seal the active segment and go on with a fresh one.
    fn rotate(&mut self, io: &Outcome) -> (result: Result<(), WalError>)
        requires
            old(self)@.active.id < u64::MAX,
        ensures
            match result {
                Ok(()) => io@.fault_before(2) is None && final(self)@ == old(self)@.rotated(),
                Err(e) => {
                    &&& io@.fault_before(2) is Some
                    &&& e@ == WalErrorView::Io(io@.fault_before(2)->Some_0)
                    &&& final(self)@ == if io@.fault_at(0) is Some {
                        old(self)@
                    } else {
                        WalView { sealed: old(self)@.sealed.push(old(self)@.active.id), ..old(self)@ }
                    }
                },
            },
    {
        match io.fault_at(0) {
            Some(fault) => return Err(WalError::Io(fault)),
            None => {},
        }
        let old_id: u64 = self.active.id();
        self.sealed.push(old_id);
        match io.fault_at(1) {
            Some(fault) => return Err(WalError::Io(fault)),
            None => {},
        }
        self.active = Segment::fresh(
            self.config.dir.as_str(),
            old_id + 1,
            self.config.max_segment_bytes,
        );
        Ok(())
    }

    /// Return all entries whose sequence number is `>= from_sequence`, as
    /// `files` hold them.
    ///
    /// Both sealed and active segments are scanned in order.
    pub fn read_from(&self, from_sequence: u64, files: &Files) -> (result: Result<
        Vec<Entry>,
        WalError,
    >)
        ensures
            segment::entries_agree(result, self@.read_result(from_sequence, files@)),
    {
        let all = match self.all_entries(files) {
            Ok(entries) => entries,
            Err(e) => return Err(e),
        };
        let mut found: Vec<Entry> = Vec::new();
        proof {
            assert(entry::entry_views(found@) =~= Seq::<EntryView>::empty());
            let wanted = since(entry::entry_views(all@), from_sequence);
            assert(Seq::<EntryView>::empty() + wanted =~= wanted);
        }
        take_since(&mut found, all, from_sequence);
        Ok(found)
    }

    /// All entries, as `files` hold them.
    pub(crate) fn all_entries(&self, files: &Files) -> (result: Result<Vec<Entry>, WalError>)
        ensures
            segment::entries_agree(result, self@.all_entries(files@)),
    {
        let (mut entries, _) = match read_segments(
            self.config.dir.as_str(),
            &self.sealed,
            files,
        ) {
            Ok(read) => read,
            Err(e) => {
                proof {
                    self.lemma_last_path();
                }
                return Err(e);
            },
        };
        proof {
            self.lemma_last_path();
        }
        match segment::read_entries(self.active.path(), files) {
            Ok(mut last) => {
                proof {
                    assert(entry::entry_views(entries@ + last@) =~= entry::entry_views(entries@)
                        + entry::entry_views(last@));
                }
                entries.append(&mut last);
                Ok(entries)
            },
            Err(e) => Err(e),
        }
    }

    /// The active segment comes behind the sealed ones.
    proof fn lemma_last_path(&self)
        ensures
            self@.segment_paths().last() == self@.active.path,
            self@.segment_paths().drop_last() == paths_of(self@.dir, self@.sealed),
    {
        assert(self@.segment_paths().drop_last() =~= paths_of(self@.dir, self@.sealed));
    }

    /// The segments that will be sealed once an entry of `len` encoded bytes has
    /// been appended.
    fn sealed_after_append(&self, len: usize) -> (ids: Vec<u64>)
        requires
            self@.can_append(len as int),
        ensures
            ids@ == self@.appended(len as int, OutcomeView::Done).sealed,
    {
        let mut ids: Vec<u64> = Vec::new();
        let mut i: usize = 0;
        while i < self.sealed.len()
            invariant
                i <= self.sealed@.len(),
                ids@ == self.sealed@.take(i as int),
            decreases self.sealed@.len() - i,
        {
            ids.push(self.sealed[i]);
            assert(ids@ =~= self.sealed@.take(i + 1));
            i = i + 1;
        }
        assert(ids@ =~= self.sealed@);
        if self.active.would_overflow(len) {
            ids.push(self.active.id());
        }
        ids
    }

    /// How many entries come before each of the segments that will be sealed once an
    /// entry of `len` encoded bytes has been appended, and behind them all; `None`
    /// where one of them cannot be read. `files` hold the segments already.
    pub(crate) fn sealed_bounds_after_append(&self, len: usize, files: &Files) -> (bounds: Option<
        Vec<usize>,
    >)
        requires
            self@.can_append(len as int),
        ensures
            ({
                let w = self@.appended(len as int, OutcomeView::Done);
                match bounds {
                    Some(b) => w.sealed_entries(files@) is Ok && positions(b@) == bounds_of(
                        files@,
                        paths_of(w.dir, w.sealed),
                    ),
                    None => w.sealed_entries(files@) is Err,
                }
            }),
    {
        let ids = self.sealed_after_append(len);
        match read_segments(self.config.dir.as_str(), &ids, files) {
            Ok((_, bounds)) => Some(bounds),
            Err(_) => None,
        }
    }

    /// The files that [`Wal::read_from`] and [`Wal::truncate_before`] need.
    pub fn segment_files(&self) -> (list: Vec<String>)
        ensures
            storage::texts(list@) == self@.segment_paths(),
    {
        let mut list: Vec<String> = Vec::new();
        let mut i: usize = 0;
        while i < self.sealed.len()
            invariant
                i <= self.sealed@.len(),
                list@.len() == i,
                forall|j: int|
                    0 <= j < i ==> (#[trigger] list@[j])@ == segment::path_of(
                        self@.dir,
                        self@.sealed[j],
                    ),
            decreases self.sealed@.len() - i,
        {
            list.push(segment::segment_path(self.config.dir.as_str(), self.sealed[i]));
            i = i + 1;
        }
        list.push(self.active.path().clone());
        assert(storage::texts(list@) =~= self@.segment_paths());
        list
    }

    /// What has to be done on disk to record `sequence` as the checkpoint.
    pub fn checkpoint_actions(&self, sequence: u64) -> (actions: Vec<FileAction>)
        ensures
            storage::ops(actions@) == self@.checkpoint.advance_ops(sequence),
    {
        self.checkpoint.advance_actions(sequence)
    }

    /// Durably record `sequence` as the checkpoint; `io` is the outcome of
    /// [`Wal::checkpoint_actions`].
    ///
    /// All entries with `sequence <= checkpoint` are now candidates for
    /// truncation via [`Wal::truncate_before`].
    pub fn checkpoint(&mut self, sequence: u64, io: &Outcome) -> (result: Result<(), WalError>)
        ensures
            error::agrees(result, old(self)@.checkpoint.advance_result(sequence, io@)),
            final(self)@ == (WalView {
                checkpoint: old(self)@.checkpoint.advanced(sequence, io@),
                ..old(self)@
            }),
    {
        self.checkpoint.advance(sequence, io)
    }

    /// The current checkpoint sequence (0 if none has been set).
    pub fn checkpoint_sequence(&self) -> (sequence: u64)
        ensures
            sequence == self@.checkpoint.sequence,
    {
        self.checkpoint.sequence()
    }

    /// Return all entries that need to be re-applied after a crash.
    ///
    /// Specifically, returns every entry with `sequence > checkpoint`.
    /// Call this immediately after [`Wal::open`] to replay any work that was
    /// in-flight when the process last terminated.
    pub fn recover(&self, files: &Files) -> (result: Result<Vec<Entry>, WalError>)
        ensures
            segment::entries_agree(result, self@.recover_result(files@)),
    {
        let checkpoint: u64 = self.checkpoint.sequence();
        proof {
            if self@.all_entries(files@) is Ok {
                let all = self@.all_entries(files@)->Ok_0;
                lemma_nothing_above(all);
                if checkpoint < u64::MAX {
                    lemma_since_is_above(all, checkpoint);
                }
            }
        }
        if checkpoint < u64::MAX {
            self.read_from(checkpoint + 1, files)
        } else {
            match self.read_from(checkpoint, files) {
                Ok(_) => {
                    let none: Vec<Entry> = Vec::new();
                    assert(entry::entry_views(none@) =~= Seq::<EntryView>::empty());
                    Ok(none)
                },
                Err(e) => Err(e),
            }
        }
    }

    /// What has to be done on disk to drop the sealed segments before
    /// `before_sequence`, given that `files` hold them.
    pub fn truncate_actions(&self, before_sequence: u64, files: &Files) -> (actions: Vec<
        FileAction,
    >)
        ensures
            storage::ops(actions@) == self@.truncate_ops(before_sequence, files@),
    {
        let mut removals = plan_purge(
            self.config.dir.as_str(),
            &self.sealed,
            self.active.id(),
            before_sequence,
            files,
        ).0;
        if self.active.size() == 0 && removals.len() > 0 {
            let mut actions = floor::raise_actions(self.config.dir.as_str(), self.next_sequence);
            proof {
                storage::lemma_ops_concat(actions@, removals@);
            }
            actions.append(&mut removals);
            actions
        } else {
            removals
        }
    }

    /// [`Wal::truncate_actions`] for the WAL as it will be once an entry of `len`
    /// encoded bytes has been appended. The segments that count are those sealed
    /// by then; `files` hold them already.
    pub(crate) fn truncate_actions_after_append(
        &self,
        len: usize,
        before_sequence: u64,
        files: &Files,
    ) -> (actions: Vec<FileAction>)
        requires
            len > 0,
            self@.can_append(len as int),
            self@.append_result(len as int, OutcomeView::Done) is Ok,
        ensures
            storage::ops(actions@) == self@.appended(len as int, OutcomeView::Done).truncate_ops(
                before_sequence,
                files@,
            ),
    {
        let ids = self.sealed_after_append(len);
        let active: u64 = if self.active.would_overflow(len) {
            self.active.id() + 1
        } else {
            self.active.id()
        };
        plan_purge(self.config.dir.as_str(), &ids, active, before_sequence, files).0
    }

    /// Delete sealed segments whose highest sequence is `< before_sequence`;
    /// `io` is the outcome of [`Wal::truncate_actions`].
    ///
    /// The active segment is never touched.  This is how you reclaim disk
    /// space after a successful checkpoint.
    /// Where the active segment has no entry, so that the numbering could not be
    /// taken up from it, the next sequence number is recorded before anything goes.
    pub fn truncate_before(&mut self, before_sequence: u64, files: &Files, io: &Outcome) -> (result:
        Result<(), WalError>)
        ensures
            error::agrees(result, old(self)@.truncate_result(before_sequence, files@, io@)),
            final(self)@ == old(self)@.truncated(before_sequence, files@, io@),
    {
        let (actions, remaining, stopped) = plan_purge(
            self.config.dir.as_str(),
            &self.sealed,
            self.active.id(),
            before_sequence,
            files,
        );
        let recorded: bool = self.active.size() == 0 && actions.len() > 0;
        proof {
            assert(storage::ops(actions@).len() == actions@.len());
            assert(floor::raise_ops(self@.dir, self@.next_sequence).len() == 3);
        }
        let fault = if recorded {
            match io.fault_before(3) {
                Some(fault) => Some(fault),
                None => io.skip(3).fault_before(actions.len()),
            }
        } else {
            io.fault_before(actions.len())
        };
        match fault {
            Some(fault) => return Err(WalError::Io(fault)),
            None => {},
        }
        match stopped {
            Some(e) => Err(e),
            None => {
                self.sealed = remaining;
                Ok(())
            },
        }
    }

    /// What has to be done to make the active segment durable.
    pub fn sync_action(&self) -> (action: FileAction)
        ensures
            action@ == FileOp::Sync(self@.active.path),
    {
        self.active.sync_action()
    }

    /// Make the active segment durable regardless of `sync_writes`; `io` is the
    /// outcome of [`Wal::sync_action`].
    pub fn sync(&mut self, io: &Outcome) -> (result: Result<(), WalError>)
        ensures
            error::agrees(result, segment::settled(io@)),
            final(self)@ == old(self)@,
    {
        self.active.sync(io)
    }

    /// The sequence number that will be assigned to the next append.
    pub fn next_sequence(&self) -> (sequence: u64)
        ensures
            sequence == self@.next_sequence,
    {
        self.next_sequence
    }
}

/// An error in a prefix of the files is the error of them all.
proof fn lemma_entries_of_prefix_error(files: FilesView, paths: Seq<Seq<char>>, n: int)
    requires
        0 <= n <= paths.len(),
        entries_of(files, paths.take(n)) is Err,
    ensures
        entries_of(files, paths) == entries_of(files, paths.take(n)),
    decreases paths.len(),
{
    if n == paths.len() {
        assert(paths.take(n) =~= paths);
    } else {
        assert(paths.drop_last().take(n) =~= paths.take(n));
        lemma_entries_of_prefix_error(files, paths.drop_last(), n);
    }
}

} // verus!
