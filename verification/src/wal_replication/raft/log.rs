//! The replicated Raft log.
//!
//! Each log entry carries a `term` (the leader's term when it was appended)
//! plus the application payload.  The term is what lets Raft detect and
//! resolve divergence between nodes after a leader change.
//!
//! # Persistence
//!
//! Entries are kept in an in-memory `Vec` for fast indexed access.
//! Every mutation (append / truncate / compact) is also written to the
//! underlying WAL so the log survives crashes.
//!
//! ## WAL payload encoding
//!
//! | kind | payload |
//! |------|---------|
//! | `0x01` APPEND   | `[index: u64 LE][term: u64 LE][data: bytes]` |
//! | `0x02` TRUNCATE | `[from_index: u64 LE]` |
//! | `0x03` SNAPSHOT | `[last_index: u64 LE][last_term: u64 LE]` |
//!
//! On recovery we replay the WAL and apply each record.  A SNAPSHOT record
//! marks that all entries before `last_index` have been compacted away; the
//! in-memory log restarts from that point.
use vstd::prelude::*;
use vstd::slice::slice_subrange;

use crate::bytes;
use crate::bytes::{copy_bytes, get_u64, put_bytes, put_u64, same_bytes};
use crate::storage;
use crate::storage::{FileAction, FileOp, Files, FilesView, Outcome, OutcomeView};
use crate::wal_core::entry;
use crate::wal_core::entry::{Entry, EntryView};
use crate::wal_core::wal;
use crate::wal_core::wal::{Wal, WalConfig, WalView};
use crate::wal_replication::error;
use crate::wal_replication::error::{RaftError, RaftErrorView};

verus! {

broadcast use vstd::slice::group_slice_axioms;

// ─── On-disk record kinds ────────────────────────────────────────────────────

pub const KIND_APPEND: u8 = 0x01;

pub const KIND_TRUNCATE: u8 = 0x02;

pub const KIND_SNAPSHOT: u8 = 0x03;

// ─── Types ───────────────────────────────────────────────────────────────────

/// One entry in the replicated log.
#[derive(Debug, PartialEq, Eq)]
pub struct LogEntry {
    pub term: u64,
    /// 1-based position in the log (Raft convention).
    pub index: u64,
    pub data: Vec<u8>,
}

/// A [`LogEntry`] with its payload as a sequence.
pub struct LogEntryView {
    pub term: u64,
    pub index: u64,
    pub data: Seq<u8>,
}

impl View for LogEntry {
    type V = LogEntryView;

    open spec fn view(&self) -> LogEntryView {
        LogEntryView { term: self.term, index: self.index, data: self.data@ }
    }
}

impl Clone for LogEntry {
    fn clone(&self) -> (copy: Self)
        ensures
            copy@ == self@,
    {
        LogEntry { term: self.term, index: self.index, data: copy_bytes(&self.data) }
    }
}

/// The views of a list of entries.
pub open spec fn views(entries: Seq<LogEntry>) -> Seq<LogEntryView> {
    Seq::new(entries.len(), |i: int| entries[i]@)
}

/// In-memory replicated log backed by a WAL for crash recovery.
///
/// Log indices are **1-based** throughout, matching the Raft paper.
///
/// After a snapshot is taken at `snapshot_index`, entries before that point
/// are discarded.  `entries[0]` holds the entry with
/// `index == snapshot_index + 1`.
pub struct RaftLog {
    /// In-memory log entries *after* the snapshot point.
    entries: Vec<LogEntry>,
    wal: Wal,
    /// Index of the last entry included in the most recent snapshot.
    /// 0 = no snapshot taken yet.
    snapshot_index: u64,
    /// Term of the entry at `snapshot_index`.
    snapshot_term: u64,
}

/// The log proper: what a replay of the WAL gives.
pub struct LogView {
    pub entries: Seq<LogEntryView>,
    pub snapshot_index: u64,
    pub snapshot_term: u64,
}

/// A [`RaftLog`]: the log and the WAL under it.
pub struct RaftLogView {
    pub log: LogView,
    pub wal: WalView,
}

impl View for RaftLog {
    type V = RaftLogView;

    closed spec fn view(&self) -> RaftLogView {
        RaftLogView {
            log: LogView {
                entries: views(self.entries@),
                snapshot_index: self.snapshot_index,
                snapshot_term: self.snapshot_term,
            },
            wal: self.wal@,
        }
    }
}

// ─── Records ─────────────────────────────────────────────────────────────────

/// The record of an appended entry.
pub open spec fn append_record(e: LogEntryView) -> Seq<u8> {
    seq![KIND_APPEND] + bytes::le_bytes(e.index as nat, 8) + bytes::le_bytes(e.term as nat, 8)
        + e.data
}

/// The record of a truncation.
pub open spec fn truncate_record(from_index: u64) -> Seq<u8> {
    seq![KIND_TRUNCATE] + bytes::le_bytes(from_index as nat, 8)
}

/// The record of a snapshot.
pub open spec fn snapshot_record(last_index: u64, last_term: u64) -> Seq<u8> {
    seq![KIND_SNAPSHOT] + bytes::le_bytes(last_index as nat, 8) + bytes::le_bytes(
        last_term as nat,
        8,
    )
}

/// The number in the eight bytes of `raw` from `at` on.
pub open spec fn number_at(raw: Seq<u8>, at: int) -> u64 {
    bytes::le_value(raw.subrange(at, at + 8)) as u64
}

pub(crate) fn encode_append(e: &LogEntry) -> (buf: Vec<u8>)
    ensures
        buf@ == append_record(e@),
        buf@.len() == 17 + e.data@.len(),
{
    let mut buf: Vec<u8> = Vec::new();
    buf.push(KIND_APPEND);
    put_u64(&mut buf, e.index);
    put_u64(&mut buf, e.term);
    put_bytes(&mut buf, e.data.as_slice());
    assert(buf@ =~= append_record(e@));
    proof {
        lemma_record_lens(e@, 0, 0);
    }
    buf
}

/// The entry that an APPEND record holds, behind its kind.
pub open spec fn decoded_append(payload: Seq<u8>) -> Option<LogEntryView> {
    if payload.len() < 16 {
        None
    } else {
        Some(
            LogEntryView {
                term: number_at(payload, 8),
                index: number_at(payload, 0),
                data: payload.skip(16),
            },
        )
    }
}

fn decode_append(payload: &[u8]) -> (e: Option<LogEntry>)
    ensures
        match e {
            Some(e) => decoded_append(payload@) == Some(e@),
            None => decoded_append(payload@) is None,
        },
{
    if payload.len() < 16 {
        return None;
    }
    let index: u64 = get_u64(payload, 0);
    let term: u64 = get_u64(payload, 8);
    let data = copy_bytes(slice_subrange(payload, 16, payload.len()));
    assert(data@ =~= payload@.skip(16));
    Some(LogEntry { term, index, data })
}

fn encode_truncate(from_index: u64) -> (buf: Vec<u8>)
    ensures
        buf@ == truncate_record(from_index),
        buf@.len() == 9,
{
    let mut buf: Vec<u8> = Vec::new();
    buf.push(KIND_TRUNCATE);
    put_u64(&mut buf, from_index);
    assert(buf@ =~= truncate_record(from_index));
    proof {
        bytes::lemma_le_bytes_len(from_index as nat, 8);
    }
    buf
}

fn encode_snapshot(last_index: u64, last_term: u64) -> (buf: Vec<u8>)
    ensures
        buf@ == snapshot_record(last_index, last_term),
        buf@.len() == 17,
{
    let mut buf: Vec<u8> = Vec::new();
    buf.push(KIND_SNAPSHOT);
    put_u64(&mut buf, last_index);
    put_u64(&mut buf, last_term);
    assert(buf@ =~= snapshot_record(last_index, last_term));
    proof {
        bytes::lemma_le_bytes_len(last_index as nat, 8);
        bytes::lemma_le_bytes_len(last_term as nat, 8);
    }
    buf
}

pub proof fn lemma_record_lens(e: LogEntryView, a: u64, b: u64)
    ensures
        append_record(e).len() == 17 + e.data.len(),
        truncate_record(a).len() == 9,
        snapshot_record(a, b).len() == 17,
{
    bytes::lemma_le_bytes_len(e.index as nat, 8);
    bytes::lemma_le_bytes_len(e.term as nat, 8);
    bytes::lemma_le_bytes_len(a as nat, 8);
    bytes::lemma_le_bytes_len(b as nat, 8);
}

// ─── Replay ──────────────────────────────────────────────────────────────────

/// A log without entries and without a snapshot.
pub open spec fn empty_log() -> LogView {
    LogView { entries: Seq::empty(), snapshot_index: 0, snapshot_term: 0 }
}

/// The entries behind index `index`.
pub open spec fn after(entries: Seq<LogEntryView>, index: u64) -> Seq<LogEntryView>
    decreases entries.len(),
{
    if entries.len() == 0 {
        Seq::empty()
    } else if entries.last().index > index {
        after(entries.drop_last(), index).push(entries.last())
    } else {
        after(entries.drop_last(), index)
    }
}

impl LogView {
    /// The index of the last entry, or of the snapshot where there is none.
    pub open spec fn last_index(self) -> int {
        self.snapshot_index + self.entries.len()
    }

    pub open spec fn last_term(self) -> u64 {
        if self.entries.len() > 0 {
            self.entries.last().term
        } else {
            self.snapshot_term
        }
    }

    /// The term of the entry at `index`, if the log still knows it.
    pub open spec fn term_at(self, index: u64) -> Option<u64> {
        if index == 0 || index < self.snapshot_index {
            None
        } else if index == self.snapshot_index {
            Some(self.snapshot_term)
        } else if index <= self.last_index() {
            Some(self.entries[index - self.snapshot_index - 1].term)
        } else {
            None
        }
    }

    /// The entries from `from` on.
    pub open spec fn from_index(self, from: u64) -> Seq<LogEntryView> {
        if from <= self.snapshot_index {
            self.entries
        } else if from > self.last_index() {
            Seq::empty()
        } else {
            self.entries.skip(from - self.snapshot_index - 1)
        }
    }

    /// The log with `e` recorded as appended: behind the entries, unless there
    /// is one at its index, which it replaces. What the snapshot covers is done.
    pub open spec fn with_entry(self, e: LogEntryView) -> LogView {
        if e.index <= self.snapshot_index {
            self
        } else if e.index <= self.last_index() {
            LogView {
                entries: self.entries.update(e.index - self.snapshot_index - 1, e),
                ..self
            }
        } else {
            LogView { entries: self.entries.push(e), ..self }
        }
    }

    /// The log without the entries from index `from` on; a record of a truncation
    /// that reaches into the snapshot is passed over.
    pub open spec fn cut_at(self, from: u64) -> LogView {
        if from <= self.snapshot_index || from > self.last_index() {
            self
        } else {
            LogView { entries: self.entries.take(from - self.snapshot_index - 1), ..self }
        }
    }

    /// The log with everything up to `index` replaced by a snapshot.
    pub open spec fn with_snapshot(self, index: u64, term: u64) -> LogView {
        LogView {
            entries: after(self.entries, index),
            snapshot_index: index,
            snapshot_term: term,
        }
    }

    /// The log after the record `payload` was replayed; one that makes no sense
    /// is passed over.
    pub open spec fn replayed(self, payload: Seq<u8>) -> LogView {
        if payload.len() == 0 {
            self
        } else if payload[0] == KIND_APPEND {
            match decoded_append(payload.skip(1)) {
                Some(e) => self.with_entry(e),
                None => self,
            }
        } else if payload[0] == KIND_TRUNCATE {
            if payload.len() >= 9 {
                self.cut_at(number_at(payload, 1))
            } else {
                self
            }
        } else if payload[0] == KIND_SNAPSHOT {
            if payload.len() >= 17 {
                self.with_snapshot(number_at(payload, 1), number_at(payload, 9))
            } else {
                self
            }
        } else {
            self
        }
    }
}

/// The log that the records in `records` give, one after the other.
pub open spec fn replay(records: Seq<EntryView>) -> LogView
    decreases records.len(),
{
    if records.len() == 0 {
        empty_log()
    } else {
        replay(records.drop_last()).replayed(records.last().data)
    }
}

/// What opening the log gives, where `files` is what the WAL's directory holds,
/// `io` the outcome of opening the WAL, and `reread` what the directory holds
/// after that.
pub open spec fn open_result(
    dir: Seq<char>,
    max_segment_bytes: u64,
    sync_writes: bool,
    files: FilesView,
    io: OutcomeView,
    reread: FilesView,
) -> Result<RaftLogView, RaftErrorView> {
    match wal::open_result(dir, max_segment_bytes, sync_writes, files, io) {
        Err(e) => Err(RaftErrorView::Wal(e)),
        Ok(w) => match w.read_result(1, reread) {
            Err(e) => Err(RaftErrorView::Wal(e)),
            Ok(records) => Ok(RaftLogView { log: replay(records), wal: w }),
        },
    }
}

/// `result` is what `expected` says.
pub open spec fn opens_to(
    result: Result<RaftLog, RaftError>,
    expected: Result<RaftLogView, RaftErrorView>,
) -> bool {
    match (result, expected) {
        (Ok(log), Ok(view)) => log@ == view,
        (Err(e), Err(view)) => e@ == view,
        _ => false,
    }
}

/// Keep the entries behind `index`.
fn retain_after(entries: &mut Vec<LogEntry>, index: u64)
    ensures
        views(final(entries)@) == after(views(old(entries)@), index),
{
    let ghost all = views(entries@);
    let mut kept: Vec<LogEntry> = Vec::new();
    let mut i: usize = 0;
    assert(views(kept@) =~= after(all.take(0), index));
    while i < entries.len()
        invariant
            i <= entries@.len(),
            all == views(entries@),
            views(kept@) == after(all.take(i as int), index),
        decreases entries@.len() - i,
    {
        let ghost before = views(kept@);
        proof {
            assert(all.take(i + 1).drop_last() =~= all.take(i as int));
            assert(all.take(i + 1).last() == entries@[i as int]@);
        }
        if entries[i].index > index {
            kept.push(entries[i].clone());
            assert(views(kept@) =~= before.push(all[i as int]));
        }
        i = i + 1;
    }
    assert(all.take(i as int) =~= all);
    *entries = kept;
}

/// A log as far as a replay has rebuilt it.
struct Replay {
    entries: Vec<LogEntry>,
    snapshot_index: u64,
    snapshot_term: u64,
}

impl View for Replay {
    type V = LogView;

    closed spec fn view(&self) -> LogView {
        LogView {
            entries: views(self.entries@),
            snapshot_index: self.snapshot_index,
            snapshot_term: self.snapshot_term,
        }
    }
}

impl Replay {
    /// Apply one record of the WAL.
    fn apply(&mut self, payload: &[u8])
        ensures
            final(self)@ == old(self)@.replayed(payload@),
    {
        let ghost start = self@;
        if payload.len() == 0 {
            return;
        }
        let kind: u8 = payload[0];
        if kind == KIND_APPEND {
            let rest = slice_subrange(payload, 1, payload.len());
            assert(rest@ =~= payload@.skip(1));
            match decode_append(rest) {
                None => {},
                Some(e) => {
                    if e.index > self.snapshot_index {
                        let offset: u64 = e.index - self.snapshot_index - 1;
                        let ghost view = e@;
                        if offset < self.entries.len() as u64 {
                            self.entries.set(offset as usize, e);
                            assert(self@.entries =~= start.entries.update(offset as int, view));
                        } else {
                            self.entries.push(e);
                            assert(self@.entries =~= start.entries.push(view));
                        }
                    }
                },
            }
        } else if kind == KIND_TRUNCATE {
            if payload.len() >= 9 {
                let from: u64 = get_u64(payload, 1);
                if from > self.snapshot_index {
                    let keep: u64 = from - self.snapshot_index - 1;
                    if keep < self.entries.len() as u64 {
                        self.entries.truncate(keep as usize);
                        assert(self@.entries =~= start.entries.take(keep as int));
                    }
                }
            }
        } else if kind == KIND_SNAPSHOT {
            if payload.len() >= 17 {
                self.snapshot_index = get_u64(payload, 1);
                self.snapshot_term = get_u64(payload, 9);
                retain_after(&mut self.entries, self.snapshot_index);
            }
        }
    }
}

/// Replay the records from position `start` on.
fn replay_from(records: &Vec<Entry>, start: usize) -> (log: Replay)
    requires
        start <= records@.len(),
    ensures
        log@ == replay(entry::entry_views(records@).skip(start as int)),
{
    let ghost all = entry::entry_views(records@).skip(start as int);
    let mut log = Replay { entries: Vec::new(), snapshot_index: 0, snapshot_term: 0 };
    let mut i: usize = start;
    assert(log@.entries =~= Seq::<LogEntryView>::empty());
    assert(all.take(0) =~= Seq::<EntryView>::empty());
    while i < records.len()
        invariant
            start <= i <= records@.len(),
            all == entry::entry_views(records@).skip(start as int),
            log@ == replay(all.take(i - start)),
        decreases records@.len() - i,
    {
        proof {
            assert(all.take(i - start + 1).drop_last() =~= all.take(i - start));
            assert(all.take(i - start + 1).last() == records@[i as int]@);
        }
        log.apply(records[i].data.as_slice());
        i = i + 1;
    }
    assert(all.take(i - start) =~= all);
    log
}

impl RaftLog {
    /// Open the log, replaying the WAL to rebuild in-memory state. `files` is
    /// what the WAL's directory holds, `io` the outcome of
    /// [`Wal::open_actions`], and `reread` what the directory holds after that.
    pub fn open(wal_config: WalConfig, files: &Files, io: &Outcome, reread: &Files) -> (log: Result<
        RaftLog,
        RaftError,
    >)
        requires
            wal::openable(wal_config.dir@, files@, io@),
        ensures
            opens_to(
                log,
                open_result(
                    wal_config.dir@,
                    wal_config.max_segment_bytes,
                    wal_config.sync_writes,
                    files@,
                    io@,
                    reread@,
                ),
            ),
    {
        match Wal::open(wal_config, files, io) {
            Ok(wal) => RaftLog::replaying(wal, reread),
            Err(e) => Err(RaftError::Wal(e)),
        }
    }

    /// The log that the records of `wal` give, as `files` hold them.
    fn replaying(wal: Wal, files: &Files) -> (log: Result<RaftLog, RaftError>)
        ensures
            opens_to(
                log,
                match wal@.read_result(1, files@) {
                    Err(e) => Err(RaftErrorView::Wal(e)),
                    Ok(records) => Ok(RaftLogView { log: replay(records), wal: wal@ }),
                },
            ),
    {
        let all = match wal.read_from(1, files) {
            Ok(all) => all,
            Err(e) => return Err(RaftError::Wal(e)),
        };
        let log = replay_from(&all, 0);
        assert(entry::entry_views(all@).skip(0) =~= entry::entry_views(all@));
        Ok(
            RaftLog {
                entries: log.entries,
                wal,
                snapshot_index: log.snapshot_index,
                snapshot_term: log.snapshot_term,
            },
        )
    }

    /// [`RaftLog::open`] for a directory of which nothing is known: `None` where
    /// opening the WAL gets as far as a sealed segment whose name has no ID, or finds
    /// the sequence numbers used up.
    pub fn try_open(wal_config: WalConfig, files: &Files, io: &Outcome, reread: &Files) -> (log:
        Option<Result<RaftLog, RaftError>>)
        ensures
            log is None <==> !wal::openable(wal_config.dir@, files@, io@),
            log matches Some(result) ==> opens_to(
                result,
                open_result(
                    wal_config.dir@,
                    wal_config.max_segment_bytes,
                    wal_config.sync_writes,
                    files@,
                    io@,
                    reread@,
                ),
            ),
    {
        match Wal::try_open(wal_config, files, io) {
            None => None,
            Some(Ok(wal)) => Some(RaftLog::replaying(wal, reread)),
            Some(Err(e)) => Some(Err(RaftError::Wal(e))),
        }
    }
}

// ─── What a snapshot covers ──────────────────────────────────────────────────

/// Without the first `k` of them, `records` still give the entries `left` behind
/// `index`.
pub open spec fn is_safe(
    records: Seq<EntryView>,
    k: int,
    index: u64,
    left: Seq<LogEntryView>,
) -> bool {
    k <= records.len() && after(replay(records.skip(k)).entries, index) == left
}

/// The records up to each of `bounds` can be dropped.
pub open spec fn all_safe(
    records: Seq<EntryView>,
    bounds: Seq<int>,
    index: u64,
    left: Seq<LogEntryView>,
) -> bool {
    forall|j: int|
        0 <= j < bounds.len() ==> is_safe(records, #[trigger] bounds[j], index, left)
}

/// How many records can be dropped from the front, bound by bound: up to the last of
/// `bounds` before the first that is not safe.
pub open spec fn droppable(
    records: Seq<EntryView>,
    bounds: Seq<int>,
    index: u64,
    left: Seq<LogEntryView>,
) -> int
    decreases bounds.len(),
{
    if bounds.len() == 0 {
        0
    } else if all_safe(records, bounds, index, left) {
        bounds.last()
    } else {
        droppable(records, bounds.drop_last(), index, left)
    }
}

/// The sequence number before which the WAL of `l` holds nothing that is still
/// needed once a snapshot up to `index` is recorded: whatever segments before it are
/// dropped, the records that are left give the same entries behind `index`. Where
/// the segments cannot be read, everything is needed.
pub open spec fn needed_from(l: RaftLogView, index: u64, files: FilesView) -> u64 {
    let marked = l.wal.appended(SNAPSHOT_LEN as int, OutcomeView::Done);
    match (l.wal.all_entries(files), marked.sealed_entries(files)) {
        (Ok(records), Ok(_)) => {
            let k = droppable(
                records,
                wal::bounds_of(files, wal::paths_of(marked.dir, marked.sealed)),
                index,
                after(l.log.entries, index),
            );
            if k < records.len() {
                records[k].sequence
            } else {
                l.wal.next_sequence
            }
        },
        _ => 0,
    }
}

/// Whether two lists hold the same entries.
fn same_entries(a: &Vec<LogEntry>, b: &Vec<LogEntry>) -> (r: bool)
    ensures
        r == (views(a@) == views(b@)),
{
    if a.len() != b.len() {
        assert(views(a@).len() != views(b@).len());
        return false;
    }
    let mut i: usize = 0;
    while i < a.len()
        invariant
            i <= a@.len() == b@.len(),
            forall|j: int| 0 <= j < i ==> (#[trigger] a@[j])@ == b@[j]@,
        decreases a@.len() - i,
    {
        if a[i].term != b[i].term || a[i].index != b[i].index || !same_bytes(
            a[i].data.as_slice(),
            b[i].data.as_slice(),
        ) {
            assert(views(a@)[i as int] != views(b@)[i as int]);
            return false;
        }
        i = i + 1;
    }
    assert(views(a@) =~= views(b@));
    true
}

/// Count how many of `records` can be dropped from the front.
fn count_droppable(
    records: &Vec<Entry>,
    bounds: &Vec<usize>,
    index: u64,
    left: &Vec<LogEntry>,
) -> (k: usize)
    ensures
        k == droppable(
            entry::entry_views(records@),
            wal::positions(bounds@),
            index,
            views(left@),
        ),
{
    let ghost all = entry::entry_views(records@);
    let ghost at = wal::positions(bounds@);
    let ghost kept = views(left@);
    let mut k: usize = 0;
    let mut j: usize = 0;
    assert(at.take(0) =~= Seq::<int>::empty());
    while j < bounds.len()
        invariant
            j <= bounds@.len(),
            all == entry::entry_views(records@),
            at == wal::positions(bounds@),
            kept == views(left@),
            all_safe(all, at.take(j as int), index, kept),
            k == droppable(all, at.take(j as int), index, kept),
        decreases bounds@.len() - j,
    {
        let bound: usize = bounds[j];
        assert(at[j as int] == bound);
        let mut safe: bool = false;
        if bound <= records.len() {
            let mut log = replay_from(records, bound);
            retain_after(&mut log.entries, index);
            safe = same_entries(&log.entries, left);
        }
        if !safe {
            proof {
                lemma_droppable_stops(all, at, index, kept, j as int);
            }
            return k;
        }
        proof {
            let more = at.take(j + 1);
            assert(more.drop_last() =~= at.take(j as int));
            assert forall|i: int| 0 <= i < more.len() implies is_safe(
                all,
                #[trigger] more[i],
                index,
                kept,
            ) by {
                if i < j {
                    assert(more[i] == at.take(j as int)[i]);
                }
            }
        }
        k = bound;
        j = j + 1;
    }
    assert(at.take(j as int) =~= at);
    k
}

/// Bounds from the first that is not safe on make no difference.
proof fn lemma_droppable_stops(
    records: Seq<EntryView>,
    bounds: Seq<int>,
    index: u64,
    left: Seq<LogEntryView>,
    j: int,
)
    requires
        0 <= j < bounds.len(),
        !is_safe(records, bounds[j], index, left),
    ensures
        droppable(records, bounds, index, left) == droppable(
            records,
            bounds.take(j),
            index,
            left,
        ),
    decreases bounds.len(),
{
    let head = bounds.drop_last();
    if j == head.len() {
        assert(head =~= bounds.take(j));
    } else {
        assert(head[j] == bounds[j]);
        assert(head.take(j) =~= bounds.take(j));
        lemma_droppable_stops(records, head, index, left, j);
    }
}

/// What can be dropped is safe to drop, and so is everything up to each bound before
/// it.
pub proof fn lemma_droppable_is_safe(
    records: Seq<EntryView>,
    bounds: Seq<int>,
    index: u64,
    left: Seq<LogEntryView>,
) -> (m: int)
    requires
        bounds.len() > 0,
        is_safe(records, bounds[0], index, left),
    ensures
        0 <= m < bounds.len(),
        bounds[m] == droppable(records, bounds, index, left),
        forall|j: int| 0 <= j <= m ==> is_safe(records, #[trigger] bounds[j], index, left),
    decreases bounds.len(),
{
    if all_safe(records, bounds, index, left) {
        bounds.len() - 1
    } else {
        let head = bounds.drop_last();
        if bounds.len() == 1 {
            assert(all_safe(records, bounds, index, left));
        }
        assert(head[0] == bounds[0]);
        let m = lemma_droppable_is_safe(records, head, index, left);
        assert forall|j: int| 0 <= j <= m implies is_safe(
            records,
            #[trigger] bounds[j],
            index,
            left,
        ) by {
            assert(head[j] == bounds[j]);
        }
        assert(bounds[m] == head[m]);
        m
    }
}

// ─── Write path ──────────────────────────────────────────────────────────────

/// The length of a SNAPSHOT record as an entry of the WAL.
pub const SNAPSHOT_LEN: usize = 33;

/// The length of a TRUNCATE record as an entry of the WAL.
pub const TRUNCATE_LEN: usize = 25;

/// The length of an APPEND record of an empty payload as an entry of the WAL.
pub const APPEND_OVERHEAD: usize = 33;

impl RaftLogView {
    /// The entry that an append would add.
    pub open spec fn next_entry(self, term: u64, data: Seq<u8>) -> LogEntryView {
        LogEntryView { term, index: (self.log.last_index() + 1) as u64, data }
    }

    /// An entry of `len` payload bytes can be numbered and placed.
    pub open spec fn can_append(self, len: int) -> bool {
        &&& self.log.last_index() < u64::MAX
        &&& APPEND_OVERHEAD + len <= usize::MAX
        &&& self.wal.can_append(APPEND_OVERHEAD + len)
    }

    /// What has to be done on disk to append an entry.
    pub open spec fn append_ops(self, term: u64, data: Seq<u8>) -> Seq<FileOp> {
        self.wal.append_ops(append_record(self.next_entry(term, data)))
    }

    /// The result of appending an entry of `len` payload bytes.
    pub open spec fn append_result(self, len: int, io: OutcomeView) -> Result<u64, RaftErrorView> {
        match self.wal.append_result(APPEND_OVERHEAD + len, io) {
            Ok(_) => Ok((self.log.last_index() + 1) as u64),
            Err(e) => Err(RaftErrorView::Wal(e)),
        }
    }

    /// The log after an append; without the entry where that failed.
    pub open spec fn appended(self, term: u64, data: Seq<u8>, io: OutcomeView) -> RaftLogView {
        RaftLogView {
            log: if self.append_result(data.len() as int, io) is Ok {
                LogView {
                    entries: self.log.entries.push(self.next_entry(term, data)),
                    ..self.log
                }
            } else {
                self.log
            },
            wal: self.wal.appended(APPEND_OVERHEAD + data.len(), io),
        }
    }

    /// There are entries from `from` on to remove.
    pub open spec fn can_cut(self, from: u64) -> bool {
        self.log.entries.len() > 0 && from <= self.log.last_index()
    }

    /// The first index behind the snapshot that a removal from `from` on reaches.
    pub open spec fn cut_point(self, from: u64) -> u64 {
        if from > self.log.snapshot_index {
            from
        } else {
            (self.log.snapshot_index + 1) as u64
        }
    }

    /// What has to be done on disk to remove the entries from `from` on.
    pub open spec fn truncate_ops(self, from: u64) -> Seq<FileOp> {
        if self.can_cut(from) {
            self.wal.append_ops(truncate_record(self.cut_point(from)))
        } else {
            Seq::empty()
        }
    }

    /// The result of removing the entries from `from` on.
    pub open spec fn truncate_result(self, from: u64, io: OutcomeView) -> Result<
        (),
        RaftErrorView,
    > {
        if !self.can_cut(from) {
            Ok(())
        } else {
            match self.wal.append_result(TRUNCATE_LEN as int, io) {
                Ok(_) => Ok(()),
                Err(e) => Err(RaftErrorView::Wal(e)),
            }
        }
    }

    /// The log after removing the entries from `from` on; with them where that
    /// failed.
    pub open spec fn truncated(self, from: u64, io: OutcomeView) -> RaftLogView {
        if !self.can_cut(from) {
            self
        } else {
            RaftLogView {
                log: if self.truncate_result(from, io) is Ok {
                    self.log.cut_at(self.cut_point(from))
                } else {
                    self.log
                },
                wal: self.wal.appended(TRUNCATE_LEN as int, io),
            }
        }
    }

    /// What has to be done on disk to record a snapshot: write its marker, make
    /// that the checkpoint, and drop the WAL segments that the snapshot covers.
    pub open spec fn snapshot_ops(self, index: u64, term: u64, files: FilesView) -> Seq<FileOp> {
        let marker = self.wal.append_ops(snapshot_record(index, term));
        let sequence = self.wal.next_sequence;
        let marked = self.wal.appended(SNAPSHOT_LEN as int, OutcomeView::Done);
        if index <= self.log.snapshot_index {
            Seq::empty()
        } else if self.wal.append_result(SNAPSHOT_LEN as int, OutcomeView::Done) is Err {
            marker
        } else {
            marker + marked.checkpoint.advance_ops(sequence) + marked.truncate_ops(
                needed_from(self, index, files),
                files,
            )
        }
    }

    /// The result of recording a snapshot, and the WAL after that.
    pub open spec fn snapshot_outcome(
        self,
        index: u64,
        term: u64,
        files: FilesView,
        io: OutcomeView,
    ) -> (Result<(), RaftErrorView>, WalView) {
        let marked = self.wal.appended(SNAPSHOT_LEN as int, io);
        match self.wal.append_result(SNAPSHOT_LEN as int, io) {
            Err(e) => (Err(RaftErrorView::Wal(e)), marked),
            Ok(sequence) => {
                let io2 = io.skip(self.wal.append_ops(snapshot_record(index, term)).len() as int);
                let checked = WalView {
                    checkpoint: marked.checkpoint.advanced(sequence, io2),
                    ..marked
                };
                match marked.checkpoint.advance_result(sequence, io2) {
                    Err(e) => (Err(RaftErrorView::Wal(e)), checked),
                    Ok(_) => {
                        let io3 = io2.skip(
                            marked.checkpoint.advance_ops(sequence).len() as int,
                        );
                        let before = needed_from(self, index, files);
                        (
                            error::lifted(checked.truncate_result(before, files, io3)),
                            checked.truncated(before, files, io3),
                        )
                    },
                }
            },
        }
    }

    /// The result of replacing everything up to `index` by a snapshot. What the
    /// log has compacted already is no work and no error.
    pub open spec fn snapshot_result(
        self,
        index: u64,
        term: u64,
        files: FilesView,
        io: OutcomeView,
    ) -> Result<(), RaftErrorView> {
        if index <= self.log.snapshot_index {
            Ok(())
        } else {
            self.snapshot_outcome(index, term, files, io).0
        }
    }

    /// The log after a snapshot, where `left` are the entries that stay.
    pub open spec fn snapshotted(
        self,
        index: u64,
        term: u64,
        files: FilesView,
        io: OutcomeView,
        left: Seq<LogEntryView>,
    ) -> RaftLogView {
        if index <= self.log.snapshot_index {
            self
        } else {
            RaftLogView {
                log: if self.snapshot_result(index, term, files, io) is Ok {
                    LogView { entries: left, snapshot_index: index, snapshot_term: term }
                } else {
                    self.log
                },
                wal: self.snapshot_outcome(index, term, files, io).1,
            }
        }
    }

    /// The log after compacting it up to `index`.
    pub open spec fn compacted(
        self,
        index: u64,
        term: u64,
        files: FilesView,
        io: OutcomeView,
    ) -> RaftLogView {
        let upto = if index < self.log.last_index() {
            index as int
        } else {
            self.log.last_index()
        };
        self.snapshotted(
            index,
            term,
            files,
            io,
            self.log.entries.skip(upto - self.log.snapshot_index),
        )
    }

    /// The log after installing a snapshot that reaches to `index`.
    pub open spec fn installed(
        self,
        index: u64,
        term: u64,
        files: FilesView,
        io: OutcomeView,
    ) -> RaftLogView {
        self.snapshotted(index, term, files, io, after(self.log.entries, index))
    }
}

impl RaftLog {
    /// Whether an entry of `len` payload bytes can be numbered and placed.
    pub fn can_append(&self, len: usize) -> (r: bool)
        ensures
            r == self@.can_append(len as int),
    {
        self.entries.len() as u64 <= u64::MAX - self.snapshot_index && self.last_index() < u64::MAX
            && len <= usize::MAX - APPEND_OVERHEAD && self.wal.can_append(APPEND_OVERHEAD + len)
    }

    /// Whether the log has an index left for a further entry.
    pub fn can_count(&self) -> (r: bool)
        ensures
            r == (self@.log.last_index() < u64::MAX),
    {
        (self.entries.len() as u64) < u64::MAX - self.snapshot_index
    }

    /// What has to be done on disk to append a new entry.
    pub fn append_actions(&self, term: u64, data: &[u8]) -> (actions: Vec<FileAction>)
        requires
            self@.can_append(data@.len() as int),
        ensures
            storage::ops(actions@) == self@.append_ops(term, data@),
    {
        let entry = LogEntry { term, index: self.last_index() + 1, data: copy_bytes(data) };
        let payload = encode_append(&entry);
        self.wal.append_actions(payload.as_slice())
    }

    /// Append a new entry at the end of the log. Returns the assigned index;
    /// `io` is the outcome of [`RaftLog::append_actions`].
    pub fn append(&mut self, term: u64, data: &[u8], io: &Outcome) -> (result: Result<
        u64,
        RaftError,
    >)
        requires
            old(self)@.can_append(data@.len() as int),
        ensures
            error::agrees(result, old(self)@.append_result(data@.len() as int, io@)),
            final(self)@ == old(self)@.appended(term, data@, io@),
    {
        let ghost start = self@;
        let index: u64 = self.last_index() + 1;
        let entry = LogEntry { term, index, data: copy_bytes(data) };
        let payload = encode_append(&entry);
        match self.wal.append(payload.as_slice(), io) {
            Err(e) => return Err(RaftError::Wal(e)),
            Ok(_) => {},
        }
        self.entries.push(entry);
        assert(self@.log.entries =~= start.log.entries.push(start.next_entry(term, data@)));
        Ok(index)
    }

    /// Where a removal from `from_index` on begins, if there is anything to remove.
    fn first_removed(&self, from_index: u64) -> (first: Option<u64>)
        requires
            self@.log.last_index() <= u64::MAX,
        ensures
            match first {
                Some(first) => self@.can_cut(from_index) && first == self@.cut_point(from_index),
                None => !self@.can_cut(from_index),
            },
    {
        if self.entries.len() == 0 || from_index > self.last_index() {
            None
        } else if from_index > self.snapshot_index {
            Some(from_index)
        } else {
            Some(self.snapshot_index + 1)
        }
    }

    /// What has to be done on disk to remove all entries with
    /// `index >= from_index`.
    pub fn truncate_actions(&self, from_index: u64) -> (actions: Vec<FileAction>)
        requires
            self@.log.last_index() <= u64::MAX,
            self@.can_cut(from_index) ==> self@.wal.can_append(TRUNCATE_LEN as int),
        ensures
            storage::ops(actions@) == self@.truncate_ops(from_index),
    {
        match self.first_removed(from_index) {
            None => {
                let actions: Vec<FileAction> = Vec::new();
                assert(storage::ops(actions@) =~= Seq::<FileOp>::empty());
                actions
            },
            Some(first) => {
                let payload = encode_truncate(first);
                self.wal.append_actions(payload.as_slice())
            },
        }
    }

    /// Remove all entries with `index >= from_index`. Crash-safe; `io` is the
    /// outcome of [`RaftLog::truncate_actions`].
    pub fn truncate_from(&mut self, from_index: u64, io: &Outcome) -> (result: Result<
        (),
        RaftError,
    >)
        requires
            old(self)@.log.last_index() <= u64::MAX,
            old(self)@.can_cut(from_index) ==> old(self)@.wal.can_append(TRUNCATE_LEN as int),
        ensures
            error::agrees(result, old(self)@.truncate_result(from_index, io@)),
            final(self)@ == old(self)@.truncated(from_index, io@),
    {
        let ghost start = self@;
        let first: u64 = match self.first_removed(from_index) {
            None => return Ok(()),
            Some(first) => first,
        };
        let payload = encode_truncate(first);
        match self.wal.append(payload.as_slice(), io) {
            Err(e) => return Err(RaftError::Wal(e)),
            Ok(_) => {},
        }
        let trim_to: usize = (first - self.snapshot_index - 1) as usize;
        self.entries.truncate(trim_to);
        assert(self@.log.entries =~= start.log.entries.take(trim_to as int));
        Ok(())
    }

    /// What has to be done on disk to compact the log, or to install a snapshot,
    /// up to and including `last_included_index`. `files` is what the WAL's
    /// directory holds.
    pub fn snapshot_actions(
        &self,
        last_included_index: u64,
        last_included_term: u64,
        files: &Files,
    ) -> (actions: Vec<FileAction>)
        requires
            last_included_index > self@.log.snapshot_index ==> self@.wal.can_append(
                SNAPSHOT_LEN as int,
            ),
        ensures
            storage::ops(actions@) == self@.snapshot_ops(
                last_included_index,
                last_included_term,
                files@,
            ),
    {
        if last_included_index <= self.snapshot_index {
            let actions: Vec<FileAction> = Vec::new();
            assert(storage::ops(actions@) =~= Seq::<FileOp>::empty());
            return actions;
        }
        let payload = encode_snapshot(last_included_index, last_included_term);
        let mut actions = self.wal.append_actions(payload.as_slice());
        if self.wal.fits(SNAPSHOT_LEN) {
            let sequence: u64 = self.wal.next_sequence();
            let mut more = self.wal.checkpoint_actions(sequence);
            let before: u64 = self.first_needed(last_included_index, files);
            let mut gone = self.wal.truncate_actions_after_append(SNAPSHOT_LEN, before, files);
            proof {
                storage::lemma_ops_concat(actions@, more@);
                storage::lemma_ops_concat(actions@ + more@, gone@);
            }
            actions.append(&mut more);
            actions.append(&mut gone);
        }
        actions
    }

    /// The sequence number before which the WAL holds nothing that is still needed
    /// once a snapshot up to `index` is recorded.
    fn first_needed(&self, index: u64, files: &Files) -> (before: u64)
        requires
            self@.wal.can_append(SNAPSHOT_LEN as int),
        ensures
            before == needed_from(self@, index, files@),
    {
        let records = match self.wal.all_entries(files) {
            Ok(records) => records,
            Err(_) => return 0,
        };
        let bounds = match self.wal.sealed_bounds_after_append(SNAPSHOT_LEN, files) {
            Some(bounds) => bounds,
            None => return 0,
        };
        let mut left: Vec<LogEntry> = Vec::new();
        let mut i: usize = 0;
        while i < self.entries.len()
            invariant
                i <= self.entries@.len(),
                views(left@) == views(self.entries@).take(i as int),
            decreases self.entries@.len() - i,
        {
            let ghost before = views(left@);
            left.push(self.entries[i].clone());
            proof {
                assert(views(left@) =~= before.push(self.entries@[i as int]@));
                assert(views(left@) =~= views(self.entries@).take(i + 1));
            }
            i = i + 1;
        }
        assert(views(left@) =~= views(self.entries@));
        retain_after(&mut left, index);
        let k: usize = count_droppable(&records, &bounds, index, &left);
        if k < records.len() {
            records[k].sequence
        } else {
            self.wal.next_sequence()
        }
    }

    /// Write the marker of a snapshot, make it the WAL's checkpoint, and drop the
    /// WAL segments that the snapshot covers.
    fn record_snapshot(&mut self, index: u64, term: u64, files: &Files, io: &Outcome) -> (result:
        Result<(), RaftError>)
        requires
            old(self)@.wal.can_append(SNAPSHOT_LEN as int),
        ensures
            error::agrees(result, old(self)@.snapshot_outcome(index, term, files@, io@).0),
            final(self)@ == (RaftLogView {
                wal: old(self)@.snapshot_outcome(index, term, files@, io@).1,
                ..old(self)@
            }),
    {
        let before: u64 = self.first_needed(index, files);
        let payload = encode_snapshot(index, term);
        let marker: usize = self.wal.append_actions(payload.as_slice()).len();
        let sequence: u64 = match self.wal.append(payload.as_slice(), io) {
            Err(e) => return Err(RaftError::Wal(e)),
            Ok(sequence) => sequence,
        };
        proof {
            let w = old(self)@.wal;
            entry::lemma_encoded_len(w.next_sequence, payload@);
            assert(w.append_result(SNAPSHOT_LEN as int, io@) is Ok);
            assert(marker == if w.active.overflows(SNAPSHOT_LEN as int) {
                4
            } else {
                2int
            });
        }
        let io2 = io.skip(marker);
        let mark: usize = self.wal.checkpoint_actions(sequence).len();
        match self.wal.checkpoint(sequence, &io2) {
            Err(e) => return Err(RaftError::Wal(e)),
            Ok(()) => {},
        }
        let io3 = io2.skip(mark);
        match self.wal.truncate_before(before, files, &io3) {
            Err(e) => Err(RaftError::Wal(e)),
            Ok(()) => Ok(()),
        }
    }

    /// Compact the log up to and including `last_included_index`; `files` is what
    /// the WAL's directory held before, and `io` the outcome of
    /// [`RaftLog::snapshot_actions`].
    ///
    /// Writes a SNAPSHOT marker to the WAL, checkpoints it, truncates old
    /// WAL segments, and removes compacted entries from memory. A segment stays as
    /// long as an entry behind `last_included_index` needs it.
    pub fn compact(
        &mut self,
        last_included_index: u64,
        last_included_term: u64,
        files: &Files,
        io: &Outcome,
    ) -> (result: Result<(), RaftError>)
        requires
            last_included_index > old(self)@.log.snapshot_index ==> {
                &&& old(self)@.log.last_index() <= u64::MAX
                &&& old(self)@.wal.can_append(SNAPSHOT_LEN as int)
            },
        ensures
            error::agrees(
                result,
                old(self)@.snapshot_result(
                    last_included_index,
                    last_included_term,
                    files@,
                    io@,
                ),
            ),
            final(self)@ == old(self)@.compacted(
                last_included_index,
                last_included_term,
                files@,
                io@,
            ),
    {
        let ghost start = self@;
        if last_included_index <= self.snapshot_index {
            return Ok(()); // already compacted past this point
        }
        match self.record_snapshot(last_included_index, last_included_term, files, io) {
            Err(e) => return Err(e),
            Ok(()) => {},
        }
        // Drop in-memory entries that are now in the snapshot
        let last: u64 = self.last_index();
        let upto: u64 = if last_included_index < last {
            last_included_index
        } else {
            last
        };
        assert(upto - self.snapshot_index <= self.entries.len());
        let trim: usize = (upto - self.snapshot_index) as usize;
        let left = self.entries.split_off(trim);
        self.entries = left;
        assert(views(self.entries@) =~= start.log.entries.skip(trim as int));
        self.snapshot_index = last_included_index;
        self.snapshot_term = last_included_term;
        Ok(())
    }

    /// Install a snapshot received from the leader; `files` is what the WAL's
    /// directory held before, and `io` the outcome of
    /// [`RaftLog::snapshot_actions`].
    ///
    /// Resets the log to start after `last_included_index`.  Entries the
    /// follower already had *after* `last_included_index` are preserved.
    pub fn install_snapshot(
        &mut self,
        last_included_index: u64,
        last_included_term: u64,
        files: &Files,
        io: &Outcome,
    ) -> (result: Result<(), RaftError>)
        requires
            last_included_index > old(self)@.log.snapshot_index ==> old(self)@.wal.can_append(
                SNAPSHOT_LEN as int,
            ),
        ensures
            error::agrees(
                result,
                old(self)@.snapshot_result(
                    last_included_index,
                    last_included_term,
                    files@,
                    io@,
                ),
            ),
            final(self)@ == old(self)@.installed(
                last_included_index,
                last_included_term,
                files@,
                io@,
            ),
    {
        if last_included_index <= self.snapshot_index {
            return Ok(()); // we're already ahead of this snapshot
        }
        match self.record_snapshot(last_included_index, last_included_term, files, io) {
            Err(e) => return Err(e),
            Ok(()) => {},
        }
        // Keep any entries we have that come after the snapshot
        retain_after(&mut self.entries, last_included_index);
        self.snapshot_index = last_included_index;
        self.snapshot_term = last_included_term;
        Ok(())
    }
}

// ─── Read path ───────────────────────────────────────────────────────────────

/// The index of the first entry of term `term` among `entries`.
pub open spec fn first_of_term(entries: Seq<LogEntryView>, term: u64) -> Option<u64>
    decreases entries.len(),
{
    if entries.len() == 0 {
        None
    } else if entries[0].term == term {
        Some(entries[0].index)
    } else {
        first_of_term(entries.drop_first(), term)
    }
}

impl LogView {
    /// The first index whose entry has the term `term`; the snapshot stands for
    /// its last entry.
    pub open spec fn first_index_of_term(self, term: u64) -> Option<u64> {
        if term == self.snapshot_term && self.snapshot_index > 0 {
            Some(self.snapshot_index)
        } else {
            first_of_term(self.entries, term)
        }
    }
}

impl RaftLog {
    pub fn last_index(&self) -> (index: u64)
        requires
            self@.log.last_index() <= u64::MAX,
        ensures
            index == self@.log.last_index(),
    {
        self.snapshot_index + self.entries.len() as u64
    }

    pub fn last_term(&self) -> (term: u64)
        ensures
            term == self@.log.last_term(),
    {
        if self.entries.len() > 0 {
            assert(self@.log.entries.last() == self.entries@.last()@);
            self.entries[self.entries.len() - 1].term
        } else {
            self.snapshot_term
        }
    }

    /// Term of the entry at `index`, or `None` if out of range / compacted.
    pub fn term_at(&self, index: u64) -> (term: Option<u64>)
        ensures
            term == self@.log.term_at(index),
    {
        if index == 0 {
            return None;
        }
        if index == self.snapshot_index {
            return Some(self.snapshot_term);
        }
        if index < self.snapshot_index {
            return None; // compacted
        }
        let offset: u64 = index - self.snapshot_index - 1;
        if offset < self.entries.len() as u64 {
            Some(self.entries[offset as usize].term)
        } else {
            None
        }
    }

    /// Return a copy of the entries starting at `from_index` (inclusive).
    ///
    /// Returns an empty vec if all entries at or after `from_index` have
    /// been compacted into a snapshot.
    pub fn entries_from(&self, from_index: u64) -> (list: Vec<LogEntry>)
        requires
            self@.log.last_index() <= u64::MAX,
            self@.log.snapshot_index < u64::MAX,
        ensures
            views(list@) == self@.log.from_index(from_index),
    {
        let start: u64 = if from_index > self.snapshot_index + 1 {
            from_index
        } else {
            self.snapshot_index + 1
        };
        let mut list: Vec<LogEntry> = Vec::new();
        if start > self.last_index() {
            assert(views(list@) =~= self@.log.from_index(from_index));
            return list;
        }
        let offset: usize = (start - self.snapshot_index - 1) as usize;
        let mut i: usize = offset;
        while i < self.entries.len()
            invariant
                offset <= i <= self.entries@.len(),
                list@.len() == i - offset,
                forall|j: int|
                    0 <= j < list@.len() ==> (#[trigger] list@[j])@ == self.entries@[offset + j]@,
            decreases self.entries@.len() - i,
        {
            list.push(self.entries[i].clone());
            i = i + 1;
        }
        assert(views(list@) =~= self@.log.entries.skip(offset as int));
        assert(self@.log.entries.skip(0) =~= self@.log.entries);
        list
    }

    /// Return the first index whose entry has `term == t`, or `None`.
    pub fn first_index_of_term(&self, term: u64) -> (index: Option<u64>)
        ensures
            index == self@.log.first_index_of_term(term),
    {
        if term == self.snapshot_term && self.snapshot_index > 0 {
            return Some(self.snapshot_index);
        }
        let ghost all = self@.log.entries;
        let mut i: usize = 0;
        assert(all.skip(0) =~= all);
        while i < self.entries.len()
            invariant
                i <= self.entries@.len(),
                all == self@.log.entries,
                !(term == self.snapshot_term && self.snapshot_index > 0),
                first_of_term(all, term) == first_of_term(all.skip(i as int), term),
            decreases self.entries@.len() - i,
        {
            assert(all.skip(i as int)[0] == self.entries@[i as int]@);
            if self.entries[i].term == term {
                return Some(self.entries[i].index);
            }
            assert(all.skip(i as int).drop_first() =~= all.skip(i + 1));
            i = i + 1;
        }
        None
    }

    /// All entries currently in memory (after the snapshot point).
    pub fn all_entries(&self) -> (entries: &[LogEntry])
        ensures
            views(entries@) == self@.log.entries,
    {
        self.entries.as_slice()
    }

    /// Index of the last entry included in the current snapshot (0 = none).
    pub fn snapshot_index(&self) -> (index: u64)
        ensures
            index == self@.log.snapshot_index,
    {
        self.snapshot_index
    }

    /// Term of the entry at `snapshot_index`.
    pub fn snapshot_term(&self) -> (term: u64)
        ensures
            term == self@.log.snapshot_term,
    {
        self.snapshot_term
    }

    /// The files that compaction has to look at: the segments of the WAL.
    pub fn segment_files(&self) -> (list: Vec<String>)
        ensures
            storage::texts(list@) == self@.wal.segment_paths(),
    {
        self.wal.segment_files()
    }
}

} // verus!
