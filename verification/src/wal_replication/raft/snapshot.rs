//! Snapshot persistence for Raft log compaction (§7).
//!
//! A snapshot captures the state of the replicated log up to
//! `last_included_index`, allowing earlier WAL segments to be deleted.
//!
//! # File format
//!
//! ```text
//! ┌──────────────────────┬───────────────────────┬──────────────────┬──────────────────┐
//! │ last_index (u64 LE)  │  last_term (u64 LE)   │  data_len (u32)  │  data (N bytes)  │
//! └──────────────────────┴───────────────────────┴──────────────────┴──────────────────┘
//! ```
//!
//! Written atomically: data goes to `snapshot.tmp`, then renamed to `snapshot`.
use vstd::prelude::*;
use vstd::slice::slice_subrange;
use vstd::string::*;

use crate::bytes;
use crate::bytes::{copy_bytes, get_u32, get_u64, put_bytes, put_len, put_u64};
use crate::storage;
use crate::storage::{Contents, Disk, FaultView, FileAction, FileOp, Files, IoFault, Outcome};
use crate::text;
use crate::wal_replication::raft::log;
use crate::wal_replication::raft::log::{LogEntry, LogEntryView};

verus! {

broadcast use vstd::slice::group_slice_axioms;

/// A point-in-time snapshot of the replicated log.
#[derive(Debug)]
pub struct Snapshot {
    /// Index of the last log entry included in this snapshot.
    pub last_included_index: u64,
    /// Term of the last log entry included in this snapshot.
    pub last_included_term: u64,
    /// Serialised application state — for this WAL service, the committed
    /// log entries encoded as `[count: u32][index: u64, term: u64, len: u32, data: bytes...]`.
    pub data: Vec<u8>,
}

/// A [`Snapshot`] with its data as a sequence.
pub struct SnapshotView {
    pub last_included_index: u64,
    pub last_included_term: u64,
    pub data: Seq<u8>,
}

impl View for Snapshot {
    type V = SnapshotView;

    open spec fn view(&self) -> SnapshotView {
        SnapshotView {
            last_included_index: self.last_included_index,
            last_included_term: self.last_included_term,
            data: self.data@,
        }
    }
}

impl Clone for Snapshot {
    fn clone(&self) -> (copy: Self)
        ensures
            copy@ == self@,
    {
        Snapshot {
            last_included_index: self.last_included_index,
            last_included_term: self.last_included_term,
            data: copy_bytes(&self.data),
        }
    }
}

// ─── The snapshot file ───────────────────────────────────────────────────────

/// Where the snapshot of the node in `dir` is kept.
pub open spec fn file_path(dir: Seq<char>) -> Seq<char> {
    text::joined(dir, "snapshot"@)
}

/// Where a new snapshot is written before it replaces the old one.
pub open spec fn temp_path(dir: Seq<char>) -> Seq<char> {
    text::joined(dir, "snapshot.tmp"@)
}

/// The contents of the snapshot file.
pub open spec fn encoded(s: SnapshotView) -> Seq<u8> {
    bytes::le_bytes(s.last_included_index as nat, 8) + bytes::le_bytes(
        s.last_included_term as nat,
        8,
    ) + bytes::le_bytes(s.data.len(), 4) + s.data
}

/// The snapshot that file contents state, or what is wrong with them.
pub open spec fn decoded(raw: Seq<u8>) -> Result<SnapshotView, FaultView> {
    let len = bytes::le_value(raw.subrange(16, 20)) as int;
    if raw.len() < 20 {
        Err(FaultView::InvalidData("snapshot file too short"@))
    } else if raw.len() < 20 + len {
        Err(FaultView::InvalidData("snapshot data truncated"@))
    } else {
        Ok(
            SnapshotView {
                last_included_index: bytes::le_value(raw.subrange(0, 8)) as u64,
                last_included_term: bytes::le_value(raw.subrange(8, 16)) as u64,
                data: raw.subrange(20, 20 + len),
            },
        )
    }
}

/// The snapshot that a file of these contents holds; a missing file holds none.
pub open spec fn loaded(contents: Contents) -> Result<Option<SnapshotView>, FaultView> {
    match contents {
        Err(FaultView::NotFound) => Ok(None),
        Err(fault) => Err(fault),
        Ok(raw) => match decoded(raw) {
            Ok(s) => Ok(Some(s)),
            Err(fault) => Err(fault),
        },
    }
}

impl SnapshotView {
    /// What has to be done on disk to save the snapshot in `dir`.
    pub open spec fn save_ops(self, dir: Seq<char>) -> Seq<FileOp> {
        seq![
            FileOp::Write(temp_path(dir), encoded(self)),
            FileOp::Sync(temp_path(dir)),
            FileOp::Rename(temp_path(dir), file_path(dir)),
        ]
    }
}

impl Snapshot {
    /// What has to be done on disk to persist the snapshot atomically.
    ///
    /// Writes to `<dir>/snapshot.tmp` then renames to `<dir>/snapshot`
    /// so a crash during the write never leaves a partial file.
    pub fn save_actions(&self, dir: &str) -> (actions: Vec<FileAction>)
        ensures
            storage::ops(actions@) == self@.save_ops(dir@),
    {
        let tmp = text::join(dir, "snapshot.tmp");
        let dest = text::join(dir, "snapshot");
        let mut buf: Vec<u8> = Vec::new();
        put_u64(&mut buf, self.last_included_index);
        put_u64(&mut buf, self.last_included_term);
        put_len(&mut buf, self.data.len());
        put_bytes(&mut buf, self.data.as_slice());
        assert(buf@ =~= encoded(self@));
        let mut actions: Vec<FileAction> = Vec::new();
        actions.push(FileAction::Write { path: tmp.clone(), bytes: buf });
        actions.push(FileAction::Sync { path: tmp.clone() });
        actions.push(FileAction::Rename { from: tmp, to: dest });
        assert(storage::ops(actions@) =~= self@.save_ops(dir@));
        actions
    }

    /// Persist the snapshot atomically; `io` is the outcome of
    /// [`Snapshot::save_actions`].
    pub fn save(&self, io: &Outcome) -> (result: Result<(), IoFault>)
        ensures
            match (result, io@.fault_before(3)) {
                (Ok(()), None) => true,
                (Err(fault), Some(view)) => fault@ == view,
                _ => false,
            },
    {
        match io.fault_before(3) {
            Some(fault) => Err(fault),
            None => Ok(()),
        }
    }

    /// Load the snapshot from `<dir>/snapshot`, returning `None` if it does
    /// not exist yet.
    pub fn load(dir: &str, files: &Files) -> (snapshot: Result<Option<Snapshot>, IoFault>)
        ensures
            match (snapshot, loaded(storage::lookup(files@, file_path(dir@)))) {
                (Ok(Some(s)), Ok(Some(view))) => s@ == view,
                (Ok(None), Ok(None)) => true,
                (Err(fault), Err(view)) => fault@ == view,
                _ => false,
            },
    {
        let path = text::join(dir, "snapshot");
        match files.get(&path) {
            Err(IoFault::NotFound) => Ok(None),
            Err(fault) => Err(fault),
            Ok(raw) => match decode_file(raw.as_slice()) {
                Ok(s) => Ok(Some(s)),
                Err(fault) => Err(fault),
            },
        }
    }
}

fn decode_file(raw: &[u8]) -> (snapshot: Result<Snapshot, IoFault>)
    ensures
        match (snapshot, decoded(raw@)) {
            (Ok(s), Ok(view)) => s@ == view,
            (Err(fault), Err(view)) => fault@ == view,
            _ => false,
        },
{
    if raw.len() < 20 {
        return Err(IoFault::InvalidData("snapshot file too short".to_owned()));
    }
    let last_included_index: u64 = get_u64(raw, 0);
    let last_included_term: u64 = get_u64(raw, 8);
    let len: usize = get_u32(raw, 16) as usize;
    if raw.len() - 20 < len {
        return Err(IoFault::InvalidData("snapshot data truncated".to_owned()));
    }
    let data = copy_bytes(slice_subrange(raw, 20, 20 + len));
    Ok(Snapshot { last_included_index, last_included_term, data })
}

// ─── Entries in a snapshot ───────────────────────────────────────────────────

/// The bytes of one entry.
pub open spec fn encoded_entry(e: LogEntryView) -> Seq<u8> {
    bytes::le_bytes(e.index as nat, 8) + bytes::le_bytes(e.term as nat, 8) + bytes::le_bytes(
        e.data.len(),
        4,
    ) + e.data
}

/// The bytes of entries, one behind the other.
pub open spec fn encoded_each(entries: Seq<LogEntryView>) -> Seq<u8>
    decreases entries.len(),
{
    if entries.len() == 0 {
        Seq::empty()
    } else {
        encoded_each(entries.drop_last()) + encoded_entry(entries.last())
    }
}

/// The bytes of a list of entries: their number, then each of them.
pub open spec fn encoded_entries(entries: Seq<LogEntryView>) -> Seq<u8> {
    bytes::le_bytes(entries.len(), 4) + encoded_each(entries)
}

/// The payload length of the entry at `pos`.
pub open spec fn len_at(data: Seq<u8>, pos: int) -> int {
    bytes::le_value(data.subrange(pos + 16, pos + 20)) as int
}

/// There is a whole entry at `pos`.
pub open spec fn entry_fits(data: Seq<u8>, pos: int) -> bool {
    pos + 20 <= data.len() && pos + 20 + len_at(data, pos) <= data.len()
}

/// The entry at `pos`.
pub open spec fn entry_at(data: Seq<u8>, pos: int) -> LogEntryView {
    LogEntryView {
        index: bytes::le_value(data.subrange(pos, pos + 8)) as u64,
        term: bytes::le_value(data.subrange(pos + 8, pos + 16)) as u64,
        data: data.subrange(pos + 20, pos + 20 + len_at(data, pos)),
    }
}

/// The `count` entries from `pos` on, if they are all there.
pub open spec fn decoded_each(data: Seq<u8>, pos: int, count: nat) -> Option<Seq<LogEntryView>>
    decreases count,
{
    if count == 0 {
        Some(Seq::empty())
    } else if !entry_fits(data, pos) {
        None
    } else {
        match decoded_each(data, pos + 20 + len_at(data, pos), (count - 1) as nat) {
            None => None,
            Some(rest) => Some(seq![entry_at(data, pos)] + rest),
        }
    }
}

/// The entries that snapshot data holds, if they are all there; data too short
/// to state a number holds none.
pub open spec fn decoded_entries(data: Seq<u8>) -> Option<Seq<LogEntryView>> {
    if data.len() < 4 {
        Some(Seq::empty())
    } else {
        decoded_each(data, 4, bytes::le_value(data.subrange(0, 4)))
    }
}

/// Serialise a list of log entries into snapshot payload bytes.
pub fn encode_entries(entries: &[LogEntry]) -> (buf: Vec<u8>)
    ensures
        buf@ == encoded_entries(log::views(entries@)),
{
    let ghost all = log::views(entries@);
    let mut buf: Vec<u8> = Vec::new();
    put_len(&mut buf, entries.len());
    let mut i: usize = 0;
    assert(buf@ =~= bytes::le_bytes(all.len(), 4) + encoded_each(all.take(0)));
    while i < entries.len()
        invariant
            i <= entries@.len(),
            all == log::views(entries@),
            buf@ == bytes::le_bytes(all.len(), 4) + encoded_each(all.take(i as int)),
        decreases entries@.len() - i,
    {
        let ghost start = buf@;
        proof {
            assert(all.take(i + 1).drop_last() =~= all.take(i as int));
            assert(all.take(i + 1).last() == entries@[i as int]@);
        }
        let e = &entries[i];
        put_u64(&mut buf, e.index);
        put_u64(&mut buf, e.term);
        put_len(&mut buf, e.data.len());
        put_bytes(&mut buf, e.data.as_slice());
        assert(buf@ =~= start + encoded_entry(e@));
        assert(buf@ =~= bytes::le_bytes(all.len(), 4) + encoded_each(all.take(i + 1)));
        i = i + 1;
    }
    assert(all.take(i as int) =~= all);
    buf
}

/// Deserialise snapshot payload bytes back into log entries.
pub fn decode_entries(data: &[u8]) -> (entries: Option<Vec<LogEntry>>)
    ensures
        match entries {
            Some(list) => decoded_entries(data@) == Some(log::views(list@)),
            None => decoded_entries(data@) is None,
        },
{
    let mut entries: Vec<LogEntry> = Vec::new();
    if data.len() < 4 {
        assert(log::views(entries@) =~= Seq::<LogEntryView>::empty());
        return Some(entries);
    }
    let count: u32 = get_u32(data, 0);
    let mut pos: usize = 4;
    let mut i: u32 = 0;
    assert(prepended(log::views(entries@), decoded_each(data@, 4, count as nat))
        == decoded_entries(data@)) by {
        match decoded_each(data@, 4, count as nat) {
            Some(rest) => assert(log::views(entries@) + rest =~= rest),
            None => {},
        }
    }
    while i < count
        invariant
            i <= count,
            4 <= pos <= data.len(),
            prepended(
                log::views(entries@),
                decoded_each(data@, pos as int, (count - i) as nat),
            ) == decoded_entries(data@),
        decreases count - i,
    {
        if data.len() - pos < 20 {
            return None;
        }
        let index: u64 = get_u64(data, pos);
        let term: u64 = get_u64(data, pos + 8);
        let len: usize = get_u32(data, pos + 16) as usize;
        if data.len() - pos - 20 < len {
            return None;
        }
        let payload = copy_bytes(slice_subrange(data, pos + 20, pos + 20 + len));
        let ghost before = log::views(entries@);
        let ghost e = entry_at(data@, pos as int);
        entries.push(LogEntry { index, term, data: payload });
        proof {
            assert(log::views(entries@) =~= before + seq![e]);
            match decoded_each(data@, pos + 20 + len, (count - i - 1) as nat) {
                Some(rest) => assert(before + (seq![e] + rest) =~= (before + seq![e]) + rest),
                None => {},
            }
        }
        pos = pos + 20 + len;
        i = i + 1;
    }
    assert(log::views(entries@) + Seq::<LogEntryView>::empty() =~= log::views(entries@));
    Some(entries)
}

spec fn prepended(first: Seq<LogEntryView>, rest: Option<Seq<LogEntryView>>) -> Option<
    Seq<LogEntryView>,
> {
    match rest {
        Some(entries) => Some(first + entries),
        None => None,
    }
}

// ─── Laws ────────────────────────────────────────────────────────────────────

/// Reading back a snapshot file gives the snapshot that was written, whatever
/// follows it, for all data whose length the file can state.
pub proof fn snapshot_reads_back(s: SnapshotView, rest: Seq<u8>)
    requires
        s.data.len() <= u32::MAX,
    ensures
        decoded(encoded(s) + rest) == Ok::<SnapshotView, FaultView>(s),
{
    let raw = encoded(s) + rest;
    let a = bytes::le_bytes(s.last_included_index as nat, 8);
    let b = bytes::le_bytes(s.last_included_term as nat, 8);
    let c = bytes::le_bytes(s.data.len(), 4);
    bytes::lemma_le_bytes_len(s.last_included_index as nat, 8);
    bytes::lemma_le_bytes_len(s.last_included_term as nat, 8);
    bytes::lemma_le_bytes_len(s.data.len(), 4);
    bytes::lemma_byte_range_values();
    bytes::lemma_le_roundtrip(s.last_included_index as nat, 8);
    bytes::lemma_le_roundtrip(s.last_included_term as nat, 8);
    bytes::lemma_le_roundtrip(s.data.len(), 4);
    assert(raw.subrange(0, 8) =~= a);
    assert(raw.subrange(8, 16) =~= b);
    assert(raw.subrange(16, 20) =~= c);
    assert(raw.subrange(20, 20 + s.data.len() as int) =~= s.data);
}

/// A snapshot file that was cut short is refused.
pub proof fn cut_snapshot_file_is_refused(s: SnapshotView, kept: int)
    requires
        s.data.len() <= u32::MAX,
        0 <= kept < encoded(s).len(),
    ensures
        decoded(encoded(s).take(kept)) == Err::<SnapshotView, FaultView>(
            FaultView::InvalidData(
                if kept < 20 {
                    "snapshot file too short"@
                } else {
                    "snapshot data truncated"@
                },
            ),
        ),
{
    let part = encoded(s).take(kept);
    bytes::lemma_le_bytes_len(s.last_included_index as nat, 8);
    bytes::lemma_le_bytes_len(s.last_included_term as nat, 8);
    bytes::lemma_le_bytes_len(s.data.len(), 4);
    bytes::lemma_byte_range_values();
    bytes::lemma_le_roundtrip(s.data.len(), 4);
    if kept >= 20 {
        assert(part.subrange(16, 20) =~= bytes::le_bytes(s.data.len(), 4));
    }
}

proof fn lemma_paths_differ(dir: Seq<char>)
    ensures
        file_path(dir) != temp_path(dir),
{
    reveal_strlit("snapshot");
    reveal_strlit("snapshot.tmp");
    if file_path(dir) == temp_path(dir) {
        text::lemma_joined_injective(dir, "snapshot"@, "snapshot.tmp"@);
        assert("snapshot"@.len() != "snapshot.tmp"@.len());
    }
}

/// A saved snapshot is what the next start loads.
pub proof fn saved_snapshot_is_loaded(s: SnapshotView, dir: Seq<char>, disk: Disk)
    requires
        s.data.len() <= u32::MAX,
    ensures
        loaded(storage::on_disk(storage::all_applied(disk, s.save_ops(dir)), file_path(dir)))
            == Ok::<Option<SnapshotView>, FaultView>(Some(s)),
{
    let list = s.save_ops(dir);
    reveal_with_fuel(storage::all_applied, 4);
    assert(list.drop_last().last() == list[1]);
    assert(list.drop_last().drop_last().last() == list[0]);
    assert(list.drop_last().drop_last().drop_last() =~= Seq::<FileOp>::empty());
    snapshot_reads_back(s, Seq::empty());
    assert(encoded(s) + Seq::<u8>::empty() =~= encoded(s));
}

/// A crash while a snapshot is saved leaves the old snapshot file or the new one,
/// never a partial one.
pub proof fn snapshot_survives_a_crash(s: SnapshotView, dir: Seq<char>, disk: Disk, after: Disk)
    requires
        storage::crashed(disk, s.save_ops(dir), after),
    ensures
        ({
            let path = file_path(dir);
            let done = storage::all_applied(disk, s.save_ops(dir));
            storage::same_file(after, disk, path) || storage::same_file(after, done, path)
        }),
{
    lemma_paths_differ(dir);
    storage::lemma_replacement_is_atomic(
        disk,
        temp_path(dir),
        file_path(dir),
        s.save_ops(dir),
        after,
    );
}

/// Decoding gives back the entries that were encoded, whatever follows them, for
/// every list whose lengths the format can state.
pub proof fn entries_read_back(entries: Seq<LogEntryView>, rest: Seq<u8>)
    requires
        entries.len() <= u32::MAX,
        forall|i: int| 0 <= i < entries.len() ==> (#[trigger] entries[i]).data.len() <= u32::MAX,
    ensures
        decoded_entries(encoded_entries(entries) + rest) == Some(entries),
{
    let count = bytes::le_bytes(entries.len(), 4);
    let data = encoded_entries(entries) + rest;
    bytes::lemma_le_bytes_len(entries.len(), 4);
    bytes::lemma_byte_range_values();
    bytes::lemma_le_roundtrip(entries.len(), 4);
    assert(data.subrange(0, 4) =~= count);
    assert(data =~= count + encoded_each(entries) + rest);
    lemma_each_reads_back(count, entries, rest);
}

proof fn lemma_each_reads_back(head: Seq<u8>, entries: Seq<LogEntryView>, rest: Seq<u8>)
    requires
        forall|i: int| 0 <= i < entries.len() ==> (#[trigger] entries[i]).data.len() <= u32::MAX,
    ensures
        decoded_each(
            head + encoded_each(entries) + rest,
            head.len() as int,
            entries.len(),
        ) == Some(entries),
    decreases entries.len(),
{
    let data = head + encoded_each(entries) + rest;
    if entries.len() == 0 {
        assert(entries =~= Seq::<LogEntryView>::empty());
    } else {
        let e = entries[0];
        let tail = entries.drop_first();
        let pos = head.len() as int;
        assert forall|i: int| 0 <= i < tail.len() implies (#[trigger] tail[i]).data.len()
            <= u32::MAX by {
            assert(tail[i] == entries[i + 1]);
        }
        lemma_each_from_front(entries);
        let a = bytes::le_bytes(e.index as nat, 8);
        let b = bytes::le_bytes(e.term as nat, 8);
        let c = bytes::le_bytes(e.data.len(), 4);
        bytes::lemma_le_bytes_len(e.index as nat, 8);
        bytes::lemma_le_bytes_len(e.term as nat, 8);
        bytes::lemma_le_bytes_len(e.data.len(), 4);
        bytes::lemma_byte_range_values();
        bytes::lemma_le_roundtrip(e.index as nat, 8);
        bytes::lemma_le_roundtrip(e.term as nat, 8);
        bytes::lemma_le_roundtrip(e.data.len(), 4);
        let head2 = head + encoded_entry(e);
        assert(data =~= head2 + encoded_each(tail) + rest);
        assert(data.subrange(pos, pos + 8) =~= a);
        assert(data.subrange(pos + 8, pos + 16) =~= b);
        assert(data.subrange(pos + 16, pos + 20) =~= c);
        assert(data.subrange(pos + 20, pos + 20 + e.data.len()) =~= e.data);
        lemma_each_reads_back(head2, tail, rest);
        assert(seq![e] + tail =~= entries);
    }
}

/// Snapshot data that was cut short is refused, unless not even the number of
/// entries is there: then it holds none.
pub proof fn cut_entries_are_refused(entries: Seq<LogEntryView>, kept: int)
    requires
        entries.len() <= u32::MAX,
        forall|i: int| 0 <= i < entries.len() ==> (#[trigger] entries[i]).data.len() <= u32::MAX,
        0 <= kept < encoded_entries(entries).len(),
    ensures
        decoded_entries(encoded_entries(entries).take(kept)) == if kept < 4 {
            Some(Seq::<LogEntryView>::empty())
        } else {
            None
        },
{
    let count = bytes::le_bytes(entries.len(), 4);
    let data = encoded_entries(entries).take(kept);
    bytes::lemma_le_bytes_len(entries.len(), 4);
    bytes::lemma_byte_range_values();
    bytes::lemma_le_roundtrip(entries.len(), 4);
    if kept >= 4 {
        assert(data.subrange(0, 4) =~= count);
        assert(data =~= count + encoded_each(entries).take(kept - 4));
        lemma_each_cut(count, entries, kept - 4);
    }
}

proof fn lemma_each_cut(head: Seq<u8>, entries: Seq<LogEntryView>, kept: int)
    requires
        forall|i: int| 0 <= i < entries.len() ==> (#[trigger] entries[i]).data.len() <= u32::MAX,
        0 <= kept < encoded_each(entries).len(),
    ensures
        decoded_each(
            head + encoded_each(entries).take(kept),
            head.len() as int,
            entries.len(),
        ) is None,
    decreases entries.len(),
{
    let data = head + encoded_each(entries).take(kept);
    let e = entries[0];
    let tail = entries.drop_first();
    let pos = head.len() as int;
    lemma_each_from_front(entries);
    bytes::lemma_le_bytes_len(e.index as nat, 8);
    bytes::lemma_le_bytes_len(e.term as nat, 8);
    bytes::lemma_le_bytes_len(e.data.len(), 4);
    bytes::lemma_byte_range_values();
    bytes::lemma_le_roundtrip(e.data.len(), 4);
    if kept >= 20 {
        assert(data.subrange(pos + 16, pos + 20) =~= bytes::le_bytes(e.data.len(), 4));
        let used = encoded_entry(e).len() as int;
        if kept >= used {
            assert forall|i: int| 0 <= i < tail.len() implies (#[trigger] tail[i]).data.len()
                <= u32::MAX by {
                assert(tail[i] == entries[i + 1]);
            }
            let head2 = head + encoded_entry(e);
            assert(data =~= head2 + encoded_each(tail).take(kept - used));
            lemma_each_cut(head2, tail, kept - used);
        }
    }
}

/// The bytes of a list start with those of its first entry.
proof fn lemma_each_from_front(entries: Seq<LogEntryView>)
    requires
        entries.len() > 0,
    ensures
        encoded_each(entries) == encoded_entry(entries[0]) + encoded_each(entries.drop_first()),
    decreases entries.len(),
{
    let e = entries[0];
    if entries.len() == 1 {
        assert(entries.drop_last() =~= Seq::<LogEntryView>::empty());
        assert(entries.drop_first() =~= Seq::<LogEntryView>::empty());
        assert(encoded_each(entries.drop_last()) == Seq::<u8>::empty());
        assert(encoded_each(entries.drop_first()) == Seq::<u8>::empty());
        assert(encoded_each(entries) =~= encoded_entry(e) + Seq::<u8>::empty());
    } else {
        let head = entries.drop_last();
        lemma_each_from_front(head);
        assert(head.drop_first() =~= entries.drop_first().drop_last());
        assert(encoded_each(entries) =~= encoded_entry(e) + (encoded_each(head.drop_first())
            + encoded_entry(entries.last())));
    }
}

/// A snapshot file is the last index and the last term in eight bytes each, the length
/// of the data in four, and the data.
pub proof fn snapshot_is_index_term_length_data(s: SnapshotView)
    ensures
        encoded(s) == bytes::le_bytes(s.last_included_index as nat, 8) + bytes::le_bytes(
            s.last_included_term as nat,
            8,
        ) + bytes::le_bytes(s.data.len(), 4) + s.data,
{
}

/// A file holds the snapshot `s` exactly where it starts with the bytes of `s`. It is
/// refused exactly where it is under twenty bytes, or under as many more as it states.
pub proof fn snapshot_is_read_where_it_was_written(raw: Seq<u8>, s: SnapshotView)
    requires
        s.data.len() <= u32::MAX,
    ensures
        decoded(raw) == Ok::<SnapshotView, FaultView>(s) <==> encoded(s).is_prefix_of(raw),
        decoded(raw) is Err <==> raw.len() < 20 || raw.len() < 20 + bytes::le_value(
            raw.subrange(16, 20),
        ),
{
    let n = encoded(s).len() as int;
    if encoded(s).is_prefix_of(raw) {
        let rest = raw.skip(n);
        assert(raw =~= encoded(s) + rest) by {
            assert(raw.take(n) =~= encoded(s)) by {
                assert forall|i: int| 0 <= i < n implies raw[i] == encoded(s)[i] by {
                    assert(encoded(s) == raw.subrange(0, n));
                }
            }
        }
        snapshot_reads_back(s, rest);
    }
    if decoded(raw) == Ok::<SnapshotView, FaultView>(s) {
        let a = raw.subrange(0, 8);
        let b = raw.subrange(8, 16);
        let c = raw.subrange(16, 20);
        let len = bytes::le_value(c) as int;
        bytes::lemma_le_value_bound(a);
        bytes::lemma_le_value_bound(b);
        bytes::lemma_le_value_bound(c);
        bytes::lemma_byte_range_values();
        bytes::lemma_le_bytes_of_value(a);
        bytes::lemma_le_bytes_of_value(b);
        bytes::lemma_le_bytes_of_value(c);
        assert(s.data.len() == len);
        assert(encoded(s) =~= a + b + c + raw.subrange(20, 20 + len));
        assert(a + b + c + raw.subrange(20, 20 + len) =~= raw.subrange(0, 20 + len));
    }
}

/// A missing file holds no snapshot; one that cannot be read, or that is refused, is
/// an error.
pub proof fn missing_file_holds_no_snapshot(raw: Seq<u8>, fault: FaultView)
    ensures
        fault is NotFound ==> loaded(Err(fault)) == Ok::<Option<SnapshotView>, FaultView>(None),
        !(fault is NotFound) ==> loaded(Err(fault)) == Err::<Option<SnapshotView>, FaultView>(
            fault,
        ),
        decoded(raw) is Ok ==> loaded(Ok(raw)) == Ok::<Option<SnapshotView>, FaultView>(
            Some(decoded(raw)->Ok_0),
        ),
        decoded(raw) is Err ==> loaded(Ok(raw)) == Err::<Option<SnapshotView>, FaultView>(
            decoded(raw)->Err_0,
        ),
{
}

/// A snapshot is written to a file beside the snapshot file, which it replaces once it
/// has reached the disk.
pub proof fn snapshot_is_written_beside_synced_and_renamed(s: SnapshotView, dir: Seq<char>)
    ensures
        ({
            let tmp = text::joined(dir, "snapshot.tmp"@);
            let kept = text::joined(dir, "snapshot"@);
            let list = s.save_ops(dir);
            &&& list.len() == 3
            &&& list[0] == FileOp::Write(tmp, encoded(s))
            &&& list[1] == FileOp::Sync(tmp)
            &&& list[2] == FileOp::Rename(tmp, kept)
        }),
{
}

/// Entries are stored as their number in four bytes and, of each in turn, index and
/// term in eight bytes, the length of the data in four, and the data.
pub proof fn entries_are_stored_one_behind_the_other(entries: Seq<LogEntryView>, e: LogEntryView)
    ensures
        encoded_entries(Seq::empty()) == bytes::le_bytes(0, 4),
        encoded_entries(entries.push(e)).len() == encoded_entries(entries).len() + 20
            + e.data.len(),
        encoded_entries(entries.push(e)).take(4) == bytes::le_bytes(entries.len() + 1, 4),
        encoded_entries(entries.push(e)).skip(4) == encoded_entries(entries).skip(4)
            + bytes::le_bytes(e.index as nat, 8) + bytes::le_bytes(e.term as nat, 8)
            + bytes::le_bytes(e.data.len(), 4) + e.data,
{
    let count = bytes::le_bytes(entries.len() + 1, 4);
    bytes::lemma_le_bytes_len(entries.len(), 4);
    bytes::lemma_le_bytes_len(entries.len() + 1, 4);
    bytes::lemma_le_bytes_len(e.index as nat, 8);
    bytes::lemma_le_bytes_len(e.term as nat, 8);
    bytes::lemma_le_bytes_len(e.data.len(), 4);
    assert(entries.push(e).drop_last() =~= entries);
    assert(encoded_entries(entries.push(e)).skip(4) =~= encoded_each(entries.push(e)));
    assert(encoded_entries(entries).skip(4) =~= encoded_each(entries));
    assert(encoded_entries(entries.push(e)).take(4) =~= count);
}

/// Data of four bytes or more holds the list `entries` exactly where it starts with the
/// bytes of that list; shorter data holds none.
pub proof fn entries_are_read_where_they_were_written(data: Seq<u8>, entries: Seq<LogEntryView>)
    requires
        entries.len() <= u32::MAX,
        forall|i: int| 0 <= i < entries.len() ==> (#[trigger] entries[i]).data.len() <= u32::MAX,
    ensures
        data.len() >= 4 ==> (decoded_entries(data) == Some(entries) <==> encoded_entries(
            entries,
        ).is_prefix_of(data)),
        data.len() < 4 ==> decoded_entries(data) == Some(Seq::<LogEntryView>::empty()),
{
    let n = encoded_entries(entries).len() as int;
    if encoded_entries(entries).is_prefix_of(data) {
        let rest = data.skip(n);
        assert(data =~= encoded_entries(entries) + rest) by {
            assert forall|i: int| 0 <= i < n implies data[i] == encoded_entries(entries)[i] by {
                assert(encoded_entries(entries) == data.subrange(0, n));
            }
        }
        entries_read_back(entries, rest);
    }
    if data.len() >= 4 && decoded_entries(data) == Some(entries) {
        let c = data.subrange(0, 4);
        bytes::lemma_le_value_bound(c);
        bytes::lemma_byte_range_values();
        bytes::lemma_le_bytes_of_value(c);
        lemma_decoded_is_encoded(data, 4, bytes::le_value(c), entries);
        let each = encoded_each(entries);
        assert(encoded_entries(entries) =~= data.subrange(0, 4 + each.len() as int)) by {
            assert(each == data.subrange(4, 4 + each.len() as int));
            assert(encoded_entries(entries) =~= c + each);
        }
    }
}

/// What was read from `pos` on is stored there.
proof fn lemma_decoded_is_encoded(data: Seq<u8>, pos: int, count: nat, entries: Seq<LogEntryView>)
    requires
        0 <= pos <= data.len(),
        decoded_each(data, pos, count) == Some(entries),
    ensures
        entries.len() == count,
        pos + encoded_each(entries).len() <= data.len(),
        encoded_each(entries) == data.subrange(pos, pos + encoded_each(entries).len() as int),
    decreases count,
{
    if count == 0 {
        assert(encoded_each(entries) =~= data.subrange(pos, pos));
    } else {
        let len = len_at(data, pos);
        let a = data.subrange(pos, pos + 8);
        let b = data.subrange(pos + 8, pos + 16);
        let c = data.subrange(pos + 16, pos + 20);
        let d = data.subrange(pos + 20, pos + 20 + len);
        let next = pos + 20 + len;
        bytes::lemma_le_value_bound(a);
        bytes::lemma_le_value_bound(b);
        bytes::lemma_le_value_bound(c);
        bytes::lemma_byte_range_values();
        bytes::lemma_le_bytes_of_value(a);
        bytes::lemma_le_bytes_of_value(b);
        bytes::lemma_le_bytes_of_value(c);
        let e = entry_at(data, pos);
        assert(d.len() == len);
        assert(encoded_entry(e) =~= a + b + c + d);
        assert(a + b + c + d =~= data.subrange(pos, next));
        let rest = decoded_each(data, next, (count - 1) as nat)->0;
        lemma_decoded_is_encoded(data, next, (count - 1) as nat, rest);
        lemma_encoded_from_the_front(e, rest);
        let m = encoded_each(rest).len() as int;
        assert(data.subrange(pos, next) + data.subrange(next, next + m) =~= data.subrange(
            pos,
            next + m,
        ));
    }
}

proof fn lemma_encoded_from_the_front(e: LogEntryView, rest: Seq<LogEntryView>)
    ensures
        encoded_each(seq![e] + rest) == encoded_entry(e) + encoded_each(rest),
    decreases rest.len(),
{
    let all = seq![e] + rest;
    if rest.len() == 0 {
        assert(all.drop_last() =~= rest);
        assert(encoded_each(rest) =~= Seq::<u8>::empty());
        assert(all.last() == e);
        assert(encoded_each(all) =~= encoded_entry(e));
        assert(encoded_entry(e) + encoded_each(rest) =~= encoded_entry(e));
    } else {
        lemma_encoded_from_the_front(e, rest.drop_last());
        assert(all.drop_last() =~= seq![e] + rest.drop_last());
        assert(encoded_each(all) =~= encoded_entry(e) + encoded_each(rest));
    }
}

} // verus!
