//! Segment file management.
//!
//! A segment is an append-only file that stores a contiguous range of WAL
//! entries. When a segment reaches its configured maximum size, the WAL
//! *rotates* — the current segment becomes read-only ("sealed") and a new
//! active segment is created.
//!
//! # File naming
//!
//! Segments are named `wal-{id:020}.seg`, e.g.:
//! ```text
//! wal-00000000000000000001.seg   (first segment)
//! wal-00000000000000000002.seg   (after first rotation)
//! ```
//! The zero-padded 20-digit ID keeps lexicographic and numeric order aligned.
use vstd::prelude::*;
use vstd::slice::slice_subrange;
use vstd::string::*;

use crate::bytes::copy_bytes;
use crate::storage;
use crate::storage::{FaultView, FileAction, Files, FilesView, IoFault, Outcome, OutcomeView};
use crate::text;
use crate::wal_core::entry;
use crate::wal_core::entry::{Entry, EntryView};
use crate::wal_core::error;
use crate::wal_core::error::{WalError, WalErrorView};

verus! {

broadcast use vstd::slice::group_slice_axioms;

/// Default maximum segment size: 64 MiB.
pub const DEFAULT_MAX_SEGMENT_BYTES: u64 = 64 * 1024 * 1024;

// ─── File names ──────────────────────────────────────────────────────────────

/// `wal-`
pub open spec fn prefix() -> Seq<char> {
    seq!['w', 'a', 'l', '-']
}

/// `.seg`
pub open spec fn suffix() -> Seq<char> {
    seq!['.', 's', 'e', 'g']
}

/// The file name of segment `id`.
pub open spec fn name_of(id: u64) -> Seq<char> {
    prefix() + text::decimal(id as nat, 20) + suffix()
}

/// The path of segment `id` inside `dir`.
pub open spec fn path_of(dir: Seq<char>, id: u64) -> Seq<char> {
    text::joined(dir, name_of(id))
}

/// The part of a segment's file name that holds its ID.
pub open spec fn numeric_part(name: Seq<char>) -> Option<Seq<char>> {
    match text::stripped_prefix(name, prefix()) {
        Some(rest) => text::stripped_suffix(rest, suffix()),
        None => None,
    }
}

/// The segment ID that `path` states. The error names the file, or the whole
/// path where it has no file name.
pub open spec fn id_of(path: Seq<char>) -> Result<u64, WalErrorView> {
    match text::final_name(path) {
        None => Err(WalErrorView::InvalidSegmentFilename { filename: path }),
        Some(name) => match numeric_part(name) {
            None => Err(WalErrorView::InvalidSegmentFilename { filename: name }),
            Some(numeric) => match text::parsed_u64(numeric) {
                None => Err(WalErrorView::InvalidSegmentFilename { filename: name }),
                Some(id) => Ok(id),
            },
        },
    }
}

/// Build the canonical file path for segment `id` inside `dir`.
pub fn segment_path(dir: &str, id: u64) -> (path: String)
    ensures
        path@ == path_of(dir@, id),
{
    proof {
        reveal_strlit("wal-");
        reveal_strlit(".seg");
    }
    let mut name = "wal-".to_owned();
    text::put_decimal(&mut name, id, 20);
    name.append(".seg");
    assert("wal-"@ =~= prefix());
    assert(".seg"@ =~= suffix());
    text::join(dir, name.as_str())
}

/// Parse the numeric segment ID from a path like `wal-00000000000000000001.seg`.
pub fn segment_id_from_path(path: &str) -> (id: Result<u64, WalError>)
    ensures
        error::agrees(id, id_of(path@)),
{
    proof {
        reveal_strlit("wal-");
        reveal_strlit(".seg");
        assert("wal-"@ =~= prefix());
        assert(".seg"@ =~= suffix());
    }
    let name = match text::file_name(path) {
        Some(name) => name,
        None => return Err(WalError::InvalidSegmentFilename { filename: path.to_owned() }),
    };
    let rest = match text::strip_prefix(name.as_str(), "wal-") {
        Some(rest) => rest,
        None => return Err(WalError::InvalidSegmentFilename { filename: name.clone() }),
    };
    let numeric = match text::strip_suffix(rest, ".seg") {
        Some(numeric) => numeric,
        None => return Err(WalError::InvalidSegmentFilename { filename: name.clone() }),
    };
    match text::parse_u64(numeric) {
        Some(id) => Ok(id),
        None => Err(WalError::InvalidSegmentFilename { filename: name.clone() }),
    }
}

// ─── Listing ─────────────────────────────────────────────────────────────────

/// `path` is named like a segment: its file name starts with `wal-` and has the
/// extension `seg`.
pub open spec fn is_segment_file(path: Seq<char>) -> bool {
    match text::final_name(path) {
        Some(name) => text::stripped_prefix(name, prefix()) is Some && text::stripped_suffix(
            name,
            suffix(),
        ) is Some,
        None => false,
    }
}

/// What a path is sorted by: its ID, and a name without one goes last.
pub open spec fn sort_key(path: Seq<char>) -> u64 {
    match id_of(path) {
        Ok(id) => id,
        Err(_) => u64::MAX,
    }
}

/// `list` with `path` put behind every path of no larger key.
pub open spec fn inserted(list: Seq<Seq<char>>, path: Seq<char>) -> Seq<Seq<char>>
    decreases list.len(),
{
    if list.len() == 0 || sort_key(list.last()) <= sort_key(path) {
        list.push(path)
    } else {
        inserted(list.drop_last(), path).push(list.last())
    }
}

/// The segment files among `paths`, in ascending order of their IDs; equal IDs
/// stay in the order of `paths`.
pub open spec fn listed(paths: Seq<Seq<char>>) -> Seq<Seq<char>>
    decreases paths.len(),
{
    if paths.len() == 0 {
        Seq::empty()
    } else if is_segment_file(paths.last()) {
        inserted(listed(paths.drop_last()), paths.last())
    } else {
        listed(paths.drop_last())
    }
}

fn segment_file(path: &String) -> (r: bool)
    ensures
        r == is_segment_file(path@),
{
    proof {
        reveal_strlit("wal-");
        reveal_strlit(".seg");
        assert("wal-"@ =~= prefix());
        assert(".seg"@ =~= suffix());
    }
    match text::file_name(path.as_str()) {
        Some(name) => text::strip_prefix(name.as_str(), "wal-").is_some() && text::strip_suffix(
            name.as_str(),
            ".seg",
        ).is_some(),
        None => false,
    }
}

fn key_of(path: &String) -> (key: u64)
    ensures
        key == sort_key(path@),
{
    match segment_id_from_path(path.as_str()) {
        Ok(id) => id,
        Err(_) => u64::MAX,
    }
}

/// Put `path` behind every path of `list` with no larger key.
fn insert_sorted(list: &mut Vec<String>, path: String)
    ensures
        storage::texts(final(list)@) == inserted(storage::texts(old(list)@), path@),
{
    let key: u64 = key_of(&path);
    let mut at: usize = list.len();
    let ghost all = storage::texts(list@);
    assert(all.take(at as int) =~= all);
    assert(all.skip(at as int) =~= Seq::<Seq<char>>::empty());
    assert(inserted(all, path@) =~= inserted(all.take(at as int), path@) + all.skip(at as int));
    while at > 0 && key_of(&list[at - 1]) > key
        invariant
            at <= list@.len(),
            all == storage::texts(list@),
            key == sort_key(path@),
            inserted(all, path@) == inserted(all.take(at as int), path@) + all.skip(at as int),
        decreases at,
    {
        proof {
            let head = all.take(at as int);
            assert(head.drop_last() =~= all.take(at - 1));
            assert(inserted(head, path@) + all.skip(at as int) =~= inserted(
                all.take(at - 1),
                path@,
            ) + all.skip(at - 1));
        }
        at = at - 1;
    }
    proof {
        let head = all.take(at as int);
        assert(inserted(head, path@) == head.push(path@)) by {
            if at > 0 {
                assert(head.last() == list@[at - 1]@);
            }
        }
        assert(head.push(path@) + all.skip(at as int) =~= all.insert(at as int, path@));
    }
    let ghost added = path@;
    list.insert(at, path);
    assert(storage::texts(list@) =~= all.insert(at as int, added));
}

/// Pick the segment files out of a directory listing, sorted ascending by
/// segment ID.
pub fn list_segments(paths: &Vec<String>) -> (list: Vec<String>)
    ensures
        storage::texts(list@) == listed(storage::texts(paths@)),
{
    let mut list: Vec<String> = Vec::new();
    let ghost all = storage::texts(paths@);
    let mut i: usize = 0;
    assert(storage::texts(list@) =~= listed(all.take(0)));
    while i < paths.len()
        invariant
            i <= paths@.len(),
            all == storage::texts(paths@),
            storage::texts(list@) == listed(all.take(i as int)),
        decreases paths@.len() - i,
    {
        proof {
            assert(all.take(i + 1).drop_last() =~= all.take(i as int));
            assert(all.take(i + 1).last() == paths@[i as int]@);
        }
        if segment_file(&paths[i]) {
            insert_sorted(&mut list, paths[i].clone());
        }
        i = i + 1;
    }
    assert(all.take(i as int) =~= all);
    list
}

// ─── Reading ─────────────────────────────────────────────────────────────────

/// The entries of a segment file, from byte `offset` on; the first entry that
/// does not decode decides the error.
pub open spec fn parsed_from(raw: Seq<u8>, offset: int) -> Result<Seq<EntryView>, WalErrorView>
    decreases raw.len() - offset,
{
    if !(0 <= offset < raw.len()) {
        Ok(Seq::empty())
    } else {
        match entry::decoded(raw.skip(offset), offset) {
            Err(e) => Err(e),
            Ok((first, used)) => prepended(seq![first], parsed_from(raw, offset + used)),
        }
    }
}

/// The entries of a segment file.
pub open spec fn parsed(raw: Seq<u8>) -> Result<Seq<EntryView>, WalErrorView> {
    parsed_from(raw, 0)
}

/// `first` in front of what `rest` holds, unless `rest` is an error.
pub open spec fn prepended(
    first: Seq<EntryView>,
    rest: Result<Seq<EntryView>, WalErrorView>,
) -> Result<Seq<EntryView>, WalErrorView> {
    match rest {
        Ok(entries) => Ok(first + entries),
        Err(e) => Err(e),
    }
}

/// `result` is what `expected` says.
pub open spec fn entries_agree(
    result: Result<Vec<Entry>, WalError>,
    expected: Result<Seq<EntryView>, WalErrorView>,
) -> bool {
    match (result, expected) {
        (Ok(entries), Ok(views)) => entry::entry_views(entries@) == views,
        (Err(error), Err(view)) => error@ == view,
        _ => false,
    }
}

/// The entries of the segment file at `path`.
pub open spec fn entries_in(files: FilesView, path: Seq<char>) -> Result<
    Seq<EntryView>,
    WalErrorView,
> {
    match storage::lookup(files, path) {
        Ok(raw) => parsed(raw),
        Err(fault) => Err(WalErrorView::Io(fault)),
    }
}

/// How many bytes of `raw`, from `offset` on, belong to whole entries: an entry
/// that was cut short ends them. Where an entry is whole but does not match its
/// checksum, nothing is known of what follows, and all of `raw` counts.
pub open spec fn whole_len_from(raw: Seq<u8>, offset: int) -> int
    decreases raw.len() - offset,
{
    if !(0 <= offset < raw.len()) {
        raw.len() as int
    } else {
        match entry::decoded(raw.skip(offset), offset) {
            Ok((_, used)) => whole_len_from(raw, offset + used),
            Err(WalErrorView::UnexpectedEof { .. }) => offset,
            Err(_) => raw.len() as int,
        }
    }
}

/// How many bytes of a segment file belong to whole entries.
pub open spec fn whole_len(raw: Seq<u8>) -> int {
    whole_len_from(raw, 0)
}

/// A segment file without an entry at its end that was cut short.
pub open spec fn mended(raw: Seq<u8>) -> Seq<u8> {
    raw.take(whole_len(raw))
}

/// The entries of the segment file at `path`, which may end in an entry that was
/// cut short: the last segment may, where a crash interrupted an append.
pub open spec fn whole_entries_in(files: FilesView, path: Seq<char>) -> Result<
    Seq<EntryView>,
    WalErrorView,
> {
    match storage::lookup(files, path) {
        Ok(raw) => parsed(mended(raw)),
        Err(fault) => Err(WalErrorView::Io(fault)),
    }
}

/// The whole entries of a segment file are a part of it.
pub proof fn lemma_whole_len_bounds(raw: Seq<u8>, offset: int)
    requires
        0 <= offset <= raw.len(),
    ensures
        offset <= whole_len_from(raw, offset) <= raw.len(),
    decreases raw.len() - offset,
{
    if offset < raw.len() {
        match entry::decoded(raw.skip(offset), offset) {
            Ok((_, used)) => {
                lemma_decoded_prefix(raw.skip(offset), Seq::empty(), offset);
                lemma_whole_len_bounds(raw, offset + used);
            },
            Err(_) => {},
        }
    }
}

/// How many bytes of `raw` belong to whole entries.
pub fn count_whole(raw: &[u8]) -> (len: usize)
    ensures
        len == whole_len(raw@),
{
    let mut offset: usize = 0;
    while offset < raw.len()
        invariant
            offset <= raw.len(),
            whole_len(raw@) == whole_len_from(raw@, offset as int),
        decreases raw.len() - offset,
    {
        let tail = slice_subrange(raw, offset, raw.len());
        assert(tail@ =~= raw@.skip(offset as int));
        match entry::decode(tail, offset) {
            Ok((_, used)) => {
                offset = offset + used;
            },
            Err(WalError::UnexpectedEof { .. }) => return offset,
            Err(_) => return raw.len(),
        }
    }
    offset
}

/// Read the entries of the segment file at `path` up to the first that was cut
/// short, as `files` hold it.
pub fn read_whole_entries(path: &String, files: &Files) -> (result: Result<Vec<Entry>, WalError>)
    ensures
        entries_agree(result, whole_entries_in(files@, path@)),
{
    match files.get(path) {
        Ok(raw) => {
            let whole: usize = count_whole(raw.as_slice());
            proof {
                lemma_whole_len_bounds(raw@, 0);
            }
            decode_entries(slice_subrange(raw.as_slice(), 0, whole))
        },
        Err(fault) => Err(WalError::Io(fault)),
    }
}

/// Read all entries from the segment file at `path`, as `files` hold it.
///
/// Checksum validation is performed on every entry.
pub fn read_entries(path: &String, files: &Files) -> (result: Result<Vec<Entry>, WalError>)
    ensures
        entries_agree(result, entries_in(files@, path@)),
{
    match files.get(path) {
        Ok(raw) => decode_entries(raw.as_slice()),
        Err(fault) => Err(WalError::Io(fault)),
    }
}

/// Decode all entries of a segment file whose contents are `raw`.
pub fn decode_entries(raw: &[u8]) -> (result: Result<Vec<Entry>, WalError>)
    ensures
        entries_agree(result, parsed(raw@)),
{
    let mut entries: Vec<Entry> = Vec::new();
    let mut offset: usize = 0;
    assert(parsed(raw@) == prepended(entry::entry_views(entries@), parsed_from(raw@, 0))) by {
        assert(entry::entry_views(entries@) =~= Seq::<EntryView>::empty());
        match parsed_from(raw@, 0) {
            Ok(all) => assert(Seq::<EntryView>::empty() + all =~= all),
            Err(_) => {},
        }
    }
    while offset < raw.len()
        invariant
            offset <= raw.len(),
            parsed(raw@) == prepended(
                entry::entry_views(entries@),
                parsed_from(raw@, offset as int),
            ),
        decreases raw.len() - offset,
    {
        let tail = slice_subrange(raw, offset, raw.len());
        assert(tail@ =~= raw@.skip(offset as int));
        match entry::decode(tail, offset) {
            Err(e) => return Err(e),
            Ok((decoded, used)) => {
                let ghost before = entry::entry_views(entries@);
                let ghost rest = parsed_from(raw@, offset + used);
                entries.push(decoded);
                proof {
                    assert(entry::entry_views(entries@) =~= before + seq![decoded@]);
                    match rest {
                        Ok(later) => assert(before + (seq![decoded@] + later) =~= (before
                            + seq![decoded@]) + later),
                        Err(_) => {},
                    }
                }
                offset = offset + used;
            },
        }
    }
    assert(entry::entry_views(entries@) + Seq::<EntryView>::empty() =~= entry::entry_views(
        entries@,
    ));
    Ok(entries)
}

// ─── Segment ─────────────────────────────────────────────────────────────────

/// An append-only segment file: what the engine knows of it in memory.
pub struct Segment {
    id: u64,
    path: String,
    size: u64,
    max_bytes: u64,
}

/// A [`Segment`] with its path as a sequence of characters.
pub struct SegmentView {
    pub id: u64,
    pub path: Seq<char>,
    pub size: u64,
    pub max_bytes: u64,
}

impl View for Segment {
    type V = SegmentView;

    closed spec fn view(&self) -> SegmentView {
        SegmentView {
            id: self.id,
            path: self.path@,
            size: self.size,
            max_bytes: self.max_bytes,
        }
    }
}

/// A segment as it is right after its creation.
pub open spec fn created(dir: Seq<char>, id: u64, max_bytes: u64) -> SegmentView {
    SegmentView { id, path: path_of(dir, id), size: 0, max_bytes }
}

/// What opening the segment file at `path` gives, where `metadata` is its
/// length and `io` the outcome of opening it.
pub open spec fn opened(
    path: Seq<char>,
    metadata: Result<u64, FaultView>,
    max_bytes: u64,
    io: OutcomeView,
) -> Result<SegmentView, WalErrorView> {
    match id_of(path) {
        Err(e) => Err(e),
        Ok(id) => match metadata {
            Err(fault) => Err(WalErrorView::Io(fault)),
            Ok(size) => match io.fault_at(0) {
                Some(fault) => Err(WalErrorView::Io(fault)),
                None => Ok(SegmentView { id, path, size, max_bytes }),
            },
        },
    }
}

/// The result of an operation that is a single step on disk.
pub open spec fn settled(io: OutcomeView) -> Result<(), WalErrorView> {
    match io.fault_at(0) {
        Some(fault) => Err(WalErrorView::Io(fault)),
        None => Ok(()),
    }
}

impl SegmentView {
    /// An append of `len` bytes would push the size past the cap.
    pub open spec fn overflows(self, len: int) -> bool {
        self.size + len > self.max_bytes
    }

    /// What has to be done on disk to append `bytes`.
    pub open spec fn append_ops(self, bytes: Seq<u8>) -> Seq<storage::FileOp> {
        if self.overflows(bytes.len() as int) {
            Seq::empty()
        } else {
            seq![storage::FileOp::Append(self.path, bytes)]
        }
    }

    /// The result of an append of `len` bytes with the outcome `io`.
    pub open spec fn append_result(self, len: int, io: OutcomeView) -> Result<(), WalErrorView> {
        if self.overflows(len) {
            Err(
                WalErrorView::SegmentFull {
                    size: self.size as int,
                    max: self.max_bytes as int,
                    entry: len,
                },
            )
        } else {
            match io.fault_at(0) {
                Some(fault) => Err(WalErrorView::Io(fault)),
                None => Ok(()),
            }
        }
    }

    /// The segment after an append of `len` bytes with the outcome `io`.
    pub open spec fn appended(self, len: int, io: OutcomeView) -> SegmentView {
        if self.append_result(len, io) is Ok {
            SegmentView { size: (self.size + len) as u64, ..self }
        } else {
            self
        }
    }
}

impl Segment {
    /// What has to be done on disk to create segment `id`.
    pub fn create_actions(dir: &str, id: u64) -> (actions: Vec<FileAction>)
        ensures
            storage::ops(actions@) == seq![storage::FileOp::CreateNew(path_of(dir@, id))],
    {
        let mut actions: Vec<FileAction> = Vec::new();
        actions.push(FileAction::CreateNew { path: segment_path(dir, id) });
        assert(storage::ops(actions@) =~= seq![storage::FileOp::CreateNew(path_of(dir@, id))]);
        actions
    }

    /// Create a new, empty segment file, which fails if the file already exists;
    /// `io` is the outcome of [`Segment::create_actions`].
    pub fn create(dir: &str, id: u64, max_bytes: u64, io: &Outcome) -> (segment: Result<
        Segment,
        WalError,
    >)
        ensures
            match (segment, io@.fault_at(0)) {
                (Ok(s), None) => s@ == created(dir@, id, max_bytes),
                (Err(e), Some(fault)) => e@ == WalErrorView::Io(fault),
                _ => false,
            },
    {
        match io.fault_at(0) {
            Some(fault) => Err(WalError::Io(fault)),
            None => Ok(Segment::fresh(dir, id, max_bytes)),
        }
    }

    /// Segment `id` as it is right after its creation.
    pub(crate) fn fresh(dir: &str, id: u64, max_bytes: u64) -> (segment: Segment)
        ensures
            segment@ == created(dir@, id, max_bytes),
    {
        Segment { id, path: segment_path(dir, id), size: 0, max_bytes }
    }

    /// Open an existing segment for appending. `metadata` is the length of the
    /// file at `path`, and `io` the outcome of opening it.
    pub fn open_for_append(
        path: String,
        metadata: Result<u64, IoFault>,
        max_bytes: u64,
        io: &Outcome,
    ) -> (segment: Result<Segment, WalError>)
        ensures
            match (segment, opened(path@, length_view(metadata), max_bytes, io@)) {
                (Ok(s), Ok(view)) => s@ == view,
                (Err(e), Err(view)) => e@ == view,
                _ => false,
            },
    {
        let id: u64 = match segment_id_from_path(path.as_str()) {
            Ok(id) => id,
            Err(e) => return Err(e),
        };
        let size: u64 = match metadata {
            Ok(size) => size,
            Err(fault) => return Err(WalError::Io(fault)),
        };
        match io.fault_at(0) {
            Some(fault) => Err(WalError::Io(fault)),
            None => Ok(Segment { id, path, size, max_bytes }),
        }
    }

    /// What has to be done on disk to append the pre-encoded entry `encoded`;
    /// nothing, if it does not fit.
    pub fn append_actions(&self, encoded: &[u8]) -> (actions: Vec<FileAction>)
        requires
            self@.size + encoded@.len() <= u64::MAX,
        ensures
            storage::ops(actions@) == self@.append_ops(encoded@),
    {
        let mut actions: Vec<FileAction> = Vec::new();
        if !self.would_overflow(encoded.len()) {
            actions.push(
                FileAction::Append { path: self.path.clone(), bytes: copy_bytes(encoded) },
            );
        }
        assert(storage::ops(actions@) =~= self@.append_ops(encoded@));
        actions
    }

    /// Append a pre-encoded entry buffer, where `io` is the outcome of
    /// [`Segment::append_actions`].
    ///
    /// Returns `Err(SegmentFull)` when the write would push `size` past
    /// `max_bytes`. The caller (the WAL) is responsible for rotating first.
    pub fn append(&mut self, encoded: &[u8], io: &Outcome) -> (result: Result<(), WalError>)
        requires
            old(self)@.size + encoded@.len() <= u64::MAX,
        ensures
            error::agrees(result, old(self)@.append_result(encoded@.len() as int, io@)),
            final(self)@ == old(self)@.appended(encoded@.len() as int, io@),
    {
        self.append_len(encoded.len(), io)
    }

    /// [`Segment::append`] for an entry of `len` bytes.
    pub(crate) fn append_len(&mut self, len: usize, io: &Outcome) -> (result: Result<(), WalError>)
        requires
            old(self)@.size + len <= u64::MAX,
        ensures
            error::agrees(result, old(self)@.append_result(len as int, io@)),
            final(self)@ == old(self)@.appended(len as int, io@),
    {
        let new_size: u64 = self.size + len as u64;
        if new_size > self.max_bytes {
            return Err(
                WalError::SegmentFull { size: self.size, max: self.max_bytes, entry: len as u64 },
            );
        }
        match io.fault_at(0) {
            Some(fault) => Err(WalError::Io(fault)),
            None => {
                self.size = new_size;
                Ok(())
            },
        }
    }

    /// What has to be done to flush the buffer **and** make the file durable on the
    /// storage device.
    pub fn sync_action(&self) -> (action: FileAction)
        ensures
            action@ == storage::FileOp::Sync(self@.path),
    {
        FileAction::Sync { path: self.path.clone() }
    }

    /// Make the file durable; `io` is the outcome of [`Segment::sync_action`].
    ///
    /// After this returns `Ok(())` the data is durable on the storage device.
    pub fn sync(&mut self, io: &Outcome) -> (result: Result<(), WalError>)
        ensures
            error::agrees(result, settled(io@)),
            *final(self) == *old(self),
    {
        match io.fault_at(0) {
            Some(fault) => Err(WalError::Io(fault)),
            None => Ok(()),
        }
    }

    /// What has to be done to flush the buffer to the kernel, so that new readers
    /// see the data.
    pub fn flush_action(&self) -> (action: FileAction)
        ensures
            action@ == storage::FileOp::Flush(self@.path),
    {
        FileAction::Flush { path: self.path.clone() }
    }

    /// Flush the buffer; `io` is the outcome of [`Segment::flush_action`].
    pub fn flush(&mut self, io: &Outcome) -> (result: Result<(), WalError>)
        ensures
            error::agrees(result, settled(io@)),
            *final(self) == *old(self),
    {
        match io.fault_at(0) {
            Some(fault) => Err(WalError::Io(fault)),
            None => Ok(()),
        }
    }

    /// `true` when a further append of `encoded_len` bytes would exceed the size cap.
    pub fn would_overflow(&self, encoded_len: usize) -> (r: bool)
        requires
            self@.size + encoded_len <= u64::MAX,
        ensures
            r == self@.overflows(encoded_len as int),
    {
        self.size + encoded_len as u64 > self.max_bytes
    }

    pub fn id(&self) -> (id: u64)
        ensures
            id == self@.id,
    {
        self.id
    }

    pub fn size(&self) -> (size: u64)
        ensures
            size == self@.size,
    {
        self.size
    }

    pub fn path(&self) -> (path: &String)
        ensures
            path@ == self@.path,
    {
        &self.path
    }
}

/// A file length, or why it could not be had.
pub open spec fn length_view(metadata: Result<u64, IoFault>) -> Result<u64, FaultView> {
    match metadata {
        Ok(len) => Ok(len),
        Err(fault) => Err(fault@),
    }
}

// ─── Laws ────────────────────────────────────────────────────────────────────

/// The path of a segment leads back to its ID.
pub proof fn segment_path_states_its_id(dir: Seq<char>, id: u64)
    ensures
        id_of(path_of(dir, id)) == Ok::<u64, WalErrorView>(id),
        is_segment_file(path_of(dir, id)),
{
    let digits = text::decimal(id as nat, 20);
    let name = name_of(id);
    text::lemma_decimal_range_20();
    text::lemma_decimal_roundtrip(id as nat, 20);
    assert(!name.contains('/')) by {
        assert forall|i: int| 0 <= i < name.len() implies name[i] != '/' by {
            if 4 <= i < 24 {
                assert(name[i] == digits[i - 4]);
            }
        }
    }
    assert(name[0] == 'w');
    assert(name != seq!['.'] && name != seq!['.', '.']) by {
        assert(seq!['.'][0] == '.');
        assert(seq!['.', '.'][0] == '.');
    }
    text::lemma_final_name_of_joined(dir, name);
    assert(name.take(4) =~= prefix());
    assert(name.skip(4) =~= digits + suffix());
    assert((digits + suffix()).skip(20) =~= suffix());
    assert((digits + suffix()).take(20) =~= digits);
    assert(name.skip(name.len() - 4) =~= suffix());
    assert(digits[0] != '+') by {
        assert(text::is_digit(digits[0]));
    }
}

/// Different segments of one directory have different paths.
pub proof fn segment_paths_differ(dir: Seq<char>, a: u64, b: u64)
    requires
        a != b,
    ensures
        path_of(dir, a) != path_of(dir, b),
{
    segment_path_states_its_id(dir, a);
    segment_path_states_its_id(dir, b);
}

/// `list` is in ascending order of segment IDs.
pub open spec fn sorted(list: Seq<Seq<char>>) -> bool {
    forall|i: int, j: int|
        0 <= i <= j < list.len() ==> sort_key(#[trigger] list[i]) <= sort_key(#[trigger] list[j])
}

proof fn lemma_inserted(list: Seq<Seq<char>>, path: Seq<char>)
    requires
        sorted(list),
    ensures
        sorted(inserted(list, path)),
        forall|q: Seq<char>| #[trigger]
            inserted(list, path).contains(q) <==> list.contains(q) || q == path,
        list.no_duplicates() && !list.contains(path) ==> inserted(list, path).no_duplicates(),
    decreases list.len(),
{
    broadcast use vstd::seq_lib::group_seq_properties;

    if !(list.len() == 0 || sort_key(list.last()) <= sort_key(path)) {
        let head = list.drop_last();
        let last = list.last();
        lemma_inserted(head, path);
        assert(head.push(last) =~= list);
        assert forall|q: Seq<char>| #[trigger] head.contains(q) implies sort_key(q) <= sort_key(
            last,
        ) by {
            let i = choose|i: int| 0 <= i < head.len() && head[i] == q;
            assert(list[i] == q);
        }
        let longer = inserted(head, path);
        assert forall|i: int| 0 <= i < longer.len() implies sort_key(#[trigger] longer[i])
            <= sort_key(last) by {
            assert(longer.contains(longer[i]));
        }
        assert(inserted(list, path) == longer.push(last));
        if list.no_duplicates() && !list.contains(path) {
            assert(!head.contains(last)) by {
                if head.contains(last) {
                    let i = choose|i: int| 0 <= i < head.len() && head[i] == last;
                    assert(list[i] == list[list.len() - 1]);
                }
            }
            assert(list.contains(last)) by {
                assert(list[list.len() - 1] == last);
            }
            assert(!longer.contains(last));
            assert forall|q: Seq<char>| #[trigger] head.contains(q) implies list.contains(q) by {
                let i = choose|i: int| 0 <= i < head.len() && head[i] == q;
                assert(list[i] == q);
            }
        }
        assert forall|q: Seq<char>| #[trigger]
            inserted(list, path).contains(q) <==> list.contains(q) || q == path by {
            assert(longer.push(last).contains(q) <==> longer.contains(q) || q == last);
            assert(list.contains(q) <==> head.contains(q) || q == last);
        }
    }
}

/// A listing holds the segment files of the directory, each of them once, in
/// ascending order of their IDs.
pub proof fn listing_is_sorted_and_complete(paths: Seq<Seq<char>>)
    requires
        paths.no_duplicates(),
    ensures
        sorted(listed(paths)),
        listed(paths).no_duplicates(),
        forall|q: Seq<char>| #[trigger]
            listed(paths).contains(q) <==> paths.contains(q) && is_segment_file(q),
    decreases paths.len(),
{
    broadcast use vstd::seq_lib::group_seq_properties;

    if paths.len() > 0 {
        let head = paths.drop_last();
        let last = paths.last();
        assert(head.push(last) =~= paths);
        assert(!head.contains(last)) by {
            if head.contains(last) {
                let i = choose|i: int| 0 <= i < head.len() && head[i] == last;
                assert(paths[i] == paths[paths.len() - 1]);
            }
        }
        listing_is_sorted_and_complete(head);
        assert forall|q: Seq<char>| #[trigger]
            paths.contains(q) <==> head.contains(q) || q == last by {
            assert(head.push(last).contains(q) <==> head.contains(q) || q == last);
        }
        if is_segment_file(last) {
            lemma_inserted(listed(head), last);
        }
    }
}

/// `a` comes before `b` in the lexicographic order of equally long strings.
pub open spec fn lexically_before(a: Seq<char>, b: Seq<char>) -> bool {
    exists|i: int|
        0 <= i < a.len() && i < b.len() && a.take(i) == b.take(i) && #[trigger] a[i] < b[i]
}

/// Segment file names sort like the segment IDs.
pub proof fn names_sort_like_ids(a: u64, b: u64)
    requires
        a < b,
    ensures
        lexically_before(name_of(a), name_of(b)),
{
    text::lemma_decimal_range_20();
    let x = text::decimal(a as nat, 20);
    let y = text::decimal(b as nat, 20);
    text::lemma_decimal_roundtrip(a as nat, 20);
    text::lemma_decimal_roundtrip(b as nat, 20);
    let i = lemma_decimal_order(a as nat, b as nat, 20);
    assert(name_of(a)[4 + i] == x[i]);
    assert(name_of(b)[4 + i] == y[i]);
    assert(name_of(a).take(4 + i) =~= prefix() + x.take(i));
    assert(name_of(b).take(4 + i) =~= prefix() + y.take(i));
}

proof fn lemma_decimal_order(a: nat, b: nat, width: nat) -> (i: int)
    requires
        a < b < text::decimal_range(width),
    ensures
        0 <= i < width,
        text::decimal(a, width).take(i) == text::decimal(b, width).take(i),
        text::decimal(a, width)[i] < text::decimal(b, width)[i],
    decreases width,
{
    if width == 0 {
        assert(text::decimal_range(0) == 1);
        0
    } else {
        let w = (width - 1) as nat;
        text::lemma_decimal_roundtrip(a, width);
        text::lemma_decimal_roundtrip(b, width);
        text::lemma_decimal_roundtrip(a / 10, w);
        text::lemma_decimal_roundtrip(b / 10, w);
        let x = text::decimal(a, width);
        let y = text::decimal(b, width);
        if a / 10 < b / 10 {
            let i = lemma_decimal_order(a / 10, b / 10, w);
            assert(x.take(i) =~= text::decimal(a / 10, w).take(i));
            assert(y.take(i) =~= text::decimal(b / 10, w).take(i));
            i
        } else {
            assert(a / 10 == b / 10);
            assert(x.take(w as int) =~= y.take(w as int));
            w as int
        }
    }
}

/// Bytes appended to a readable segment file do not change the entries before them.
pub proof fn lemma_parsed_append(
    raw: Seq<u8>,
    offset: int,
    sequence: u64,
    data: Seq<u8>,
)
    requires
        data.len() <= u32::MAX,
        0 <= offset <= raw.len(),
        parsed_from(raw, offset) is Ok,
    ensures
        parsed_from(raw + entry::encoded(sequence, data), offset) == Ok::<
            Seq<EntryView>,
            WalErrorView,
        >(parsed_from(raw, offset)->Ok_0.push(EntryView { sequence, data })),
    decreases raw.len() - offset,
{
    let bytes = entry::encoded(sequence, data);
    let longer = raw + bytes;
    let last = EntryView { sequence, data };
    entry::lemma_encoded_len(sequence, data);
    if offset == raw.len() {
        assert(longer.skip(offset) =~= bytes + Seq::<u8>::empty());
        entry::decode_returns_what_was_encoded(sequence, data, Seq::empty(), offset);
        assert(parsed_from(longer, longer.len() as int) == Ok::<Seq<EntryView>, WalErrorView>(
            Seq::empty(),
        ));
        assert(seq![last] + Seq::<EntryView>::empty() =~= Seq::<EntryView>::empty().push(last));
    } else {
        lemma_decoded_prefix(raw.skip(offset), bytes, offset);
        assert(longer.skip(offset) =~= raw.skip(offset) + bytes);
        let (first, used) = entry::decoded(raw.skip(offset), offset)->Ok_0;
        lemma_parsed_append(raw, offset + used, sequence, data);
        let rest = parsed_from(raw, offset + used)->Ok_0;
        assert((seq![first] + rest).push(last) =~= seq![first] + rest.push(last));
    }
}

/// Behind entries that can be read, the first bytes that do not decode decide: they are
/// what reading the file fails with, at the place where they stand. Bytes that were cut
/// short are no part of the whole entries; damaged ones count with all that follows.
pub proof fn first_bad_entry_decides(raw: Seq<u8>, tail: Seq<u8>)
    requires
        parsed(raw) is Ok,
        tail.len() > 0,
        entry::decoded(tail, raw.len() as int) is Err,
    ensures
        parsed(raw + tail) == Err::<Seq<EntryView>, WalErrorView>(
            entry::decoded(tail, raw.len() as int)->Err_0,
        ),
        entry::decoded(tail, raw.len() as int)->Err_0 is UnexpectedEof ==> whole_len(raw + tail)
            == raw.len(),
        !(entry::decoded(tail, raw.len() as int)->Err_0 is UnexpectedEof) ==> whole_len(raw + tail)
            == raw.len() + tail.len(),
{
    lemma_bad_from(raw, tail, 0);
}

proof fn lemma_bad_from(raw: Seq<u8>, tail: Seq<u8>, offset: int)
    requires
        0 <= offset <= raw.len(),
        parsed_from(raw, offset) is Ok,
        tail.len() > 0,
        entry::decoded(tail, raw.len() as int) is Err,
    ensures
        parsed_from(raw + tail, offset) == Err::<Seq<EntryView>, WalErrorView>(
            entry::decoded(tail, raw.len() as int)->Err_0,
        ),
        entry::decoded(tail, raw.len() as int)->Err_0 is UnexpectedEof ==> whole_len_from(
            raw + tail,
            offset,
        ) == raw.len(),
        !(entry::decoded(tail, raw.len() as int)->Err_0 is UnexpectedEof) ==> whole_len_from(
            raw + tail,
            offset,
        ) == raw.len() + tail.len(),
    decreases raw.len() - offset,
{
    let longer = raw + tail;
    if offset == raw.len() {
        assert(longer.skip(offset) =~= tail);
    } else {
        lemma_decoded_prefix(raw.skip(offset), tail, offset);
        assert(longer.skip(offset) =~= raw.skip(offset) + tail);
        let used = entry::decoded(raw.skip(offset), offset)->Ok_0.1;
        lemma_bad_from(raw, tail, offset + used);
    }
}

/// An entry that decodes does so whatever follows it.
proof fn lemma_decoded_prefix(buf: Seq<u8>, rest: Seq<u8>, offset: int)
    requires
        entry::decoded(buf, offset) is Ok,
    ensures
        entry::decoded(buf + rest, offset) == entry::decoded(buf, offset),
        entry::decoded(buf, offset)->Ok_0.1 <= buf.len(),
{
    let longer = buf + rest;
    assert(longer.subrange(0, 8) =~= buf.subrange(0, 8));
    assert(longer.subrange(8, 12) =~= buf.subrange(8, 12));
    assert(longer.subrange(12, 16) =~= buf.subrange(12, 16));
    assert(entry::payload(longer) =~= entry::payload(buf));
}

/// A segment file reads back as what it held before, plus the entry that was
/// appended to it.
pub proof fn appended_entry_reads_back(raw: Seq<u8>, sequence: u64, data: Seq<u8>)
    requires
        data.len() <= u32::MAX,
        parsed(raw) is Ok,
    ensures
        parsed(raw + entry::encoded(sequence, data)) == Ok::<Seq<EntryView>, WalErrorView>(
            parsed(raw)->Ok_0.push(EntryView { sequence, data }),
        ),
{
    lemma_parsed_append(raw, 0, sequence, data);
}

/// The bytes of a list of entries, one behind the other.
pub open spec fn encoded_all(entries: Seq<EntryView>) -> Seq<u8>
    decreases entries.len(),
{
    if entries.len() == 0 {
        Seq::empty()
    } else {
        encoded_all(entries.drop_last()) + entry::encoded(
            entries.last().sequence,
            entries.last().data,
        )
    }
}

/// A stream of encoded entries reads back as those entries, in order.
pub proof fn encoded_stream_reads_back(entries: Seq<EntryView>)
    requires
        forall|i: int| 0 <= i < entries.len() ==> (#[trigger] entries[i]).data.len() <= u32::MAX,
    ensures
        parsed(encoded_all(entries)) == Ok::<Seq<EntryView>, WalErrorView>(entries),
    decreases entries.len(),
{
    if entries.len() == 0 {
        assert(entries =~= Seq::<EntryView>::empty());
    } else {
        let before = entries.drop_last();
        let last = entries.last();
        assert forall|i: int| 0 <= i < before.len() implies (#[trigger] before[i]).data.len()
            <= u32::MAX by {
            assert(before[i] == entries[i]);
        }
        assert(entries[entries.len() - 1].data.len() <= u32::MAX);
        encoded_stream_reads_back(before);
        appended_entry_reads_back(encoded_all(before), last.sequence, last.data);
        assert(before.push(last) =~= entries);
    }
}

/// Only a stream of encoded entries is read as a segment: the entries that come out
/// encode to the very bytes that went in.
pub proof fn only_encoded_streams_are_read(raw: Seq<u8>)
    requires
        parsed(raw) is Ok,
    ensures
        raw == encoded_all(parsed(raw)->Ok_0),
        forall|i: int|
            0 <= i < parsed(raw)->Ok_0.len() ==> (#[trigger] parsed(raw)->Ok_0[i]).data.len()
                <= u32::MAX,
{
    lemma_only_streams_from(raw, 0);
    assert(raw.skip(0) =~= raw);
}

proof fn lemma_only_streams_from(raw: Seq<u8>, offset: int)
    requires
        0 <= offset <= raw.len(),
        parsed_from(raw, offset) is Ok,
    ensures
        raw.skip(offset) == encoded_all(parsed_from(raw, offset)->Ok_0),
        forall|i: int|
            0 <= i < parsed_from(raw, offset)->Ok_0.len() ==> (#[trigger] parsed_from(
                raw,
                offset,
            )->Ok_0[i]).data.len() <= u32::MAX,
    decreases raw.len() - offset,
{
    let entries = parsed_from(raw, offset)->Ok_0;
    if offset == raw.len() {
        assert(raw.skip(offset) =~= Seq::<u8>::empty());
    } else {
        let buf = raw.skip(offset);
        let (first, used) = entry::decoded(buf, offset)->Ok_0;
        entry::only_encoded_entries_decode(buf, offset);
        lemma_only_streams_from(raw, offset + used);
        let rest = parsed_from(raw, offset + used)->Ok_0;
        lemma_stream_from_front(first, rest);
        assert(buf =~= buf.take(used as int) + raw.skip(offset + used));
        assert forall|i: int| 0 <= i < entries.len() implies (#[trigger] entries[i]).data.len()
            <= u32::MAX by {
            if i > 0 {
                assert(entries[i] == rest[i - 1]);
            }
        }
    }
}

/// The bytes of a list of entries start with those of its first.
proof fn lemma_stream_from_front(first: EntryView, rest: Seq<EntryView>)
    ensures
        encoded_all(seq![first] + rest) == entry::encoded(first.sequence, first.data)
            + encoded_all(rest),
    decreases rest.len(),
{
    let all = seq![first] + rest;
    if rest.len() == 0 {
        assert(all.drop_last() =~= Seq::<EntryView>::empty());
        assert(encoded_all(all.drop_last()) =~= Seq::<u8>::empty());
        assert(encoded_all(all) =~= entry::encoded(first.sequence, first.data) + encoded_all(rest));
    } else {
        lemma_stream_from_front(first, rest.drop_last());
        assert(all.drop_last() =~= seq![first] + rest.drop_last());
        assert(encoded_all(all) =~= entry::encoded(first.sequence, first.data) + encoded_all(rest));
    }
}

/// A segment file whose last entry was cut short by a crash is refused, with
/// the position of that entry; it never yields an entry that was not written.
pub proof fn torn_tail_is_detected(raw: Seq<u8>, sequence: u64, data: Seq<u8>, kept: int)
    requires
        data.len() <= u32::MAX,
        parsed(raw) is Ok,
        0 < kept < entry::encoded(sequence, data).len(),
    ensures
        parsed(raw + entry::encoded(sequence, data).take(kept)) == Err::<
            Seq<EntryView>,
            WalErrorView,
        >(WalErrorView::UnexpectedEof { offset: raw.len() as int }),
{
    lemma_torn_tail(raw, 0, sequence, data, kept);
}

proof fn lemma_torn_tail(raw: Seq<u8>, offset: int, sequence: u64, data: Seq<u8>, kept: int)
    requires
        data.len() <= u32::MAX,
        0 <= offset <= raw.len(),
        parsed_from(raw, offset) is Ok,
        0 < kept < entry::encoded(sequence, data).len(),
    ensures
        parsed_from(raw + entry::encoded(sequence, data).take(kept), offset) == Err::<
            Seq<EntryView>,
            WalErrorView,
        >(WalErrorView::UnexpectedEof { offset: raw.len() as int }),
    decreases raw.len() - offset,
{
    let bytes = entry::encoded(sequence, data).take(kept);
    let longer = raw + bytes;
    if offset == raw.len() {
        assert(longer.skip(offset) =~= bytes);
        entry::truncated_entry_is_detected(sequence, data, kept, offset);
    } else {
        lemma_decoded_prefix(raw.skip(offset), bytes, offset);
        assert(longer.skip(offset) =~= raw.skip(offset) + bytes);
        let (first, used) = entry::decoded(raw.skip(offset), offset)->Ok_0;
        lemma_torn_tail(raw, offset + used, sequence, data, kept);
    }
}

/// Where every entry is whole there is nothing to mend.
pub proof fn lemma_whole_file(raw: Seq<u8>)
    requires
        parsed(raw) is Ok,
    ensures
        whole_len(raw) == raw.len(),
        mended(raw) == raw,
{
    lemma_whole_file_from(raw, 0);
    assert(mended(raw) =~= raw);
}

proof fn lemma_whole_file_from(raw: Seq<u8>, offset: int)
    requires
        0 <= offset <= raw.len(),
        parsed_from(raw, offset) is Ok,
    ensures
        whole_len_from(raw, offset) == raw.len(),
    decreases raw.len() - offset,
{
    if offset < raw.len() {
        lemma_decoded_prefix(raw.skip(offset), Seq::empty(), offset);
        let (_, used) = entry::decoded(raw.skip(offset), offset)->Ok_0;
        lemma_whole_file_from(raw, offset + used);
    }
}

/// Mending a segment file whose last entry was cut short by a crash gives back the
/// file as it was before that entry.
pub proof fn torn_tail_is_mended(raw: Seq<u8>, sequence: u64, data: Seq<u8>, kept: int)
    requires
        data.len() <= u32::MAX,
        parsed(raw) is Ok,
        0 <= kept < entry::encoded(sequence, data).len(),
    ensures
        whole_len(raw + entry::encoded(sequence, data).take(kept)) == raw.len(),
        mended(raw + entry::encoded(sequence, data).take(kept)) == raw,
{
    let longer = raw + entry::encoded(sequence, data).take(kept);
    if kept == 0 {
        assert(longer =~= raw);
        lemma_whole_file(raw);
    } else {
        lemma_torn_len(raw, 0, sequence, data, kept);
        assert(mended(longer) =~= raw);
    }
}

proof fn lemma_torn_len(raw: Seq<u8>, offset: int, sequence: u64, data: Seq<u8>, kept: int)
    requires
        data.len() <= u32::MAX,
        0 <= offset <= raw.len(),
        parsed_from(raw, offset) is Ok,
        0 < kept < entry::encoded(sequence, data).len(),
    ensures
        whole_len_from(raw + entry::encoded(sequence, data).take(kept), offset) == raw.len(),
    decreases raw.len() - offset,
{
    let bytes = entry::encoded(sequence, data).take(kept);
    let longer = raw + bytes;
    if offset == raw.len() {
        assert(longer.skip(offset) =~= bytes);
        entry::truncated_entry_is_detected(sequence, data, kept, offset);
    } else {
        lemma_decoded_prefix(raw.skip(offset), bytes, offset);
        assert(longer.skip(offset) =~= raw.skip(offset) + bytes);
        let (_, used) = entry::decoded(raw.skip(offset), offset)->Ok_0;
        lemma_torn_len(raw, offset + used, sequence, data, kept);
    }
}

/// A mended segment file holds whole entries only: what can still be wrong with it
/// is a checksum.
pub proof fn mended_file_has_no_torn_entry(raw: Seq<u8>)
    ensures
        parsed(mended(raw)) matches Err(e) ==> e is ChecksumMismatch,
{
    lemma_mended_from(raw, 0);
}

proof fn lemma_mended_from(raw: Seq<u8>, offset: int)
    requires
        0 <= offset <= raw.len(),
        whole_len_from(raw, offset) == whole_len(raw),
    ensures
        parsed_from(mended(raw), offset) matches Err(e) ==> e is ChecksumMismatch,
    decreases raw.len() - offset,
{
    lemma_whole_len_bounds(raw, 0);
    lemma_whole_len_bounds(raw, offset);
    let whole = mended(raw);
    if offset < raw.len() {
        match entry::decoded(raw.skip(offset), offset) {
            Ok((first, used)) => {
                lemma_decoded_prefix(raw.skip(offset), Seq::empty(), offset);
                lemma_whole_len_bounds(raw, offset + used);
                lemma_mended_from(raw, offset + used);
                lemma_decoded_cut(raw.skip(offset), whole_len(raw) - offset, offset);
                assert(whole.skip(offset) =~= raw.skip(offset).take(whole_len(raw) - offset));
            },
            Err(WalErrorView::UnexpectedEof { .. }) => {},
            Err(_) => {
                assert(whole =~= raw);
            },
        }
    }
}

/// An entry that decodes needs no more than its own bytes.
proof fn lemma_decoded_cut(buf: Seq<u8>, len: int, offset: int)
    requires
        entry::decoded(buf, offset) is Ok,
        entry::decoded(buf, offset)->Ok_0.1 <= len <= buf.len(),
    ensures
        entry::decoded(buf.take(len), offset) == entry::decoded(buf, offset),
{
    let shorter = buf.take(len);
    assert(shorter.subrange(0, 8) =~= buf.subrange(0, 8));
    assert(shorter.subrange(8, 12) =~= buf.subrange(8, 12));
    assert(shorter.subrange(12, 16) =~= buf.subrange(12, 16));
    assert(entry::payload(shorter) =~= entry::payload(buf));
}

/// A file of whole entries that is not empty has an entry.
pub proof fn lemma_bytes_hold_an_entry(raw: Seq<u8>)
    requires
        parsed(raw) is Ok,
        raw.len() > 0,
    ensures
        parsed(raw)->Ok_0.len() > 0,
{
}

/// A segment is named by its ID in twenty digits, between `wal-` and `.seg`. A path
/// states an ID exactly where its file name is one such pair around a number.
pub proof fn file_name_states_the_segment(path: Seq<char>, id: u64, digits: Seq<char>)
    ensures
        name_of(id) == seq!['w', 'a', 'l', '-'] + text::decimal(id as nat, 20) + seq![
            '.',
            's',
            'e',
            'g',
        ],
        text::final_name(path) == Some(
            seq!['w', 'a', 'l', '-'] + digits + seq!['.', 's', 'e', 'g'],
        ) ==> match text::parsed_u64(digits) {
            Some(stated) => id_of(path) == Ok::<u64, WalErrorView>(stated),
            None => id_of(path) is Err,
        },
        id_of(path) is Ok ==> ({
            let name = text::final_name(path)->0;
            &&& text::final_name(path) is Some
            &&& name.len() >= 8
            &&& name.take(4) == seq!['w', 'a', 'l', '-']
            &&& name.skip(name.len() - 4) == seq!['.', 's', 'e', 'g']
        }),
{
    let name = seq!['w', 'a', 'l', '-'] + digits + seq!['.', 's', 'e', 'g'];
    let rest = digits + seq!['.', 's', 'e', 'g'];
    assert(name.take(4) =~= prefix());
    assert(name.subrange(0, 4) =~= prefix());
    assert(name.skip(4) =~= rest);
    assert(rest.skip(digits.len() as int) =~= suffix());
    assert(rest.take(digits.len() as int) =~= digits);
    if id_of(path) is Ok {
        let found = text::final_name(path)->0;
        assert(found.take(4) =~= found.subrange(0, 4));
        let tail = found.skip(4);
        assert(tail.skip(tail.len() - 4) =~= found.skip(found.len() - 4));
    }
}

/// A segment takes an append exactly where that leaves it within its cap, and grows by
/// as many bytes where the disk took it. One that does not fit is refused with nothing
/// done, and one that the disk did not take changes nothing.
pub proof fn segment_takes_what_fits(s: SegmentView, bytes: Seq<u8>, io: OutcomeView)
    requires
        s.size + bytes.len() <= u64::MAX,
    ensures
        ({
            let len = bytes.len() as int;
            let result = s.append_result(len, io);
            let after = s.appended(len, io);
            &&& after.id == s.id && after.path == s.path && after.max_bytes == s.max_bytes
            &&& if s.size + len > s.max_bytes {
                &&& result == Err::<(), WalErrorView>(
                    WalErrorView::SegmentFull {
                        size: s.size as int,
                        max: s.max_bytes as int,
                        entry: len,
                    },
                )
                &&& after.size == s.size
                &&& s.append_ops(bytes).len() == 0
            } else {
                &&& s.append_ops(bytes) == seq![storage::FileOp::Append(s.path, bytes)]
                &&& match io {
                    OutcomeView::Failed(at, fault) if at == 0 => {
                        &&& result == Err::<(), WalErrorView>(WalErrorView::Io(fault))
                        &&& after.size == s.size
                    },
                    _ => result is Ok && after.size == s.size + len,
                }
            }
        }),
{
}

/// A new segment is empty, and one that is opened has the length of its file.
pub proof fn segment_opens_with_its_length(
    dir: Seq<char>,
    id: u64,
    max_bytes: u64,
    length: u64,
    fault: FaultView,
)
    ensures
        ({
            let path = text::joined(dir, name_of(id));
            let fresh = created(dir, id, max_bytes);
            &&& fresh.id == id && fresh.path == path && fresh.size == 0 && fresh.max_bytes
                == max_bytes
            &&& opened(path, Ok(length), max_bytes, OutcomeView::Done) == Ok::<
                SegmentView,
                WalErrorView,
            >(SegmentView { id, path, size: length, max_bytes })
            &&& opened(path, Err(fault), max_bytes, OutcomeView::Done) == Err::<
                SegmentView,
                WalErrorView,
            >(WalErrorView::Io(fault))
            &&& opened(path, Ok(length), max_bytes, OutcomeView::Failed(0, fault)) == Err::<
                SegmentView,
                WalErrorView,
            >(WalErrorView::Io(fault))
        }),
        settled(OutcomeView::Done) is Ok,
        settled(OutcomeView::Failed(0, fault)) == Err::<(), WalErrorView>(WalErrorView::Io(fault)),
{
    segment_path_states_its_id(dir, id);
}

} // verus!
