//! Durable checkpoint file.
//!
//! The checkpoint records the highest sequence number whose corresponding
//! entry has been *applied* to stable state (e.g. flushed to a database).
//! Entries at or below the checkpoint are safe to truncate; entries above
//! it must be replayed on the next startup.
//!
//! # On-disk format
//!
//! A single little-endian `u64` stored in `<dir>/checkpoint`.
//! A missing or empty file is treated as checkpoint 0 (nothing applied yet).
use vstd::prelude::*;

use crate::bytes;
use crate::bytes::{get_u64, put_u64};
use crate::storage;
use crate::storage::{
    Contents, Disk, FaultView, FileAction, FileOp, Files, FilesView, IoFault, Outcome, OutcomeView,
};
use crate::text;
use crate::wal_core::error;
use crate::wal_core::error::{WalError, WalErrorView};

verus! {

/// Manages the durable checkpoint value for a WAL directory.
pub struct Checkpoint {
    dir: String,
    sequence: u64,
}

/// A [`Checkpoint`] with its directory as a sequence of characters.
pub struct CheckpointView {
    pub dir: Seq<char>,
    pub sequence: u64,
}

impl View for Checkpoint {
    type V = CheckpointView;

    closed spec fn view(&self) -> CheckpointView {
        CheckpointView { dir: self.dir@, sequence: self.sequence }
    }
}

/// Where the checkpoint of the WAL in `dir` is kept.
pub open spec fn file_path(dir: Seq<char>) -> Seq<char> {
    text::joined(dir, "checkpoint"@)
}

/// Where a new checkpoint is written before it replaces the old one.
pub open spec fn temp_path(dir: Seq<char>) -> Seq<char> {
    text::joined(dir, "checkpoint.tmp"@)
}

/// The checkpoint that a file of these contents states. A missing file means
/// that there is none yet, and a truncated one is tolerated as the same.
pub open spec fn stated(contents: Contents) -> Result<u64, WalErrorView> {
    match contents {
        Ok(bytes) => if bytes.len() >= 8 {
            Ok(bytes::le_value(bytes.subrange(0, 8)) as u64)
        } else {
            Ok(0)
        },
        Err(FaultView::NotFound) => Ok(0),
        Err(fault) => Err(WalErrorView::Io(fault)),
    }
}

/// The checkpoint that `files` hold for the WAL in `dir`.
pub open spec fn loaded(files: FilesView, dir: Seq<char>) -> Result<CheckpointView, WalErrorView> {
    match stated(storage::lookup(files, file_path(dir))) {
        Ok(sequence) => Ok(CheckpointView { dir, sequence }),
        Err(e) => Err(e),
    }
}

impl CheckpointView {
    /// What has to be done on disk to advance to `sequence`: write a temporary
    /// file, then move it over the old one.
    pub open spec fn advance_ops(self, sequence: u64) -> Seq<FileOp> {
        if sequence > self.sequence {
            seq![
                FileOp::Write(temp_path(self.dir), bytes::le_bytes(sequence as nat, 8)),
                FileOp::Rename(temp_path(self.dir), file_path(self.dir)),
            ]
        } else {
            Seq::empty()
        }
    }

    /// The result of advancing to `sequence` with the outcome `io`.
    pub open spec fn advance_result(self, sequence: u64, io: OutcomeView) -> Result<
        (),
        WalErrorView,
    > {
        match io.fault_before(self.advance_ops(sequence).len() as int) {
            Some(fault) => Err(WalErrorView::Io(fault)),
            None => Ok(()),
        }
    }

    /// The checkpoint after advancing to `sequence` with the outcome `io`.
    pub open spec fn advanced(self, sequence: u64, io: OutcomeView) -> CheckpointView {
        if sequence > self.sequence && self.advance_result(sequence, io) is Ok {
            CheckpointView { sequence, ..self }
        } else {
            self
        }
    }
}

impl Checkpoint {
    /// Load from disk, or initialise at 0 if the file does not exist yet.
    pub fn open(dir: &str, files: &Files) -> (checkpoint: Result<Checkpoint, WalError>)
        ensures
            match (checkpoint, loaded(files@, dir@)) {
                (Ok(c), Ok(view)) => c@ == view,
                (Err(e), Err(view)) => e@ == view,
                _ => false,
            },
    {
        let path = text::join(dir, "checkpoint");
        let sequence: u64 = match files.get(&path) {
            Ok(found) => if found.len() >= 8 {
                get_u64(found.as_slice(), 0)
            } else {
                0
            },
            Err(IoFault::NotFound) => 0,
            Err(fault) => return Err(WalError::Io(fault)),
        };
        Ok(Checkpoint { dir: dir.to_owned(), sequence })
    }

    /// The last persisted checkpoint sequence (0 means nothing checkpointed).
    pub fn sequence(&self) -> (sequence: u64)
        ensures
            sequence == self@.sequence,
    {
        self.sequence
    }

    /// What has to be done on disk to advance the checkpoint to `sequence`.
    pub fn advance_actions(&self, sequence: u64) -> (actions: Vec<FileAction>)
        ensures
            storage::ops(actions@) == self@.advance_ops(sequence),
    {
        let mut actions: Vec<FileAction> = Vec::new();
        if sequence > self.sequence {
            let tmp = text::join(self.dir.as_str(), "checkpoint.tmp");
            let path = text::join(self.dir.as_str(), "checkpoint");
            let mut bytes: Vec<u8> = Vec::new();
            put_u64(&mut bytes, sequence);
            assert(bytes@ =~= bytes::le_bytes(sequence as nat, 8));
            actions.push(FileAction::Write { path: tmp.clone(), bytes });
            actions.push(FileAction::Rename { from: tmp, to: path });
        }
        assert(storage::ops(actions@) =~= self@.advance_ops(sequence));
        actions
    }

    /// Advance the checkpoint to `sequence`, where `io` is the outcome of
    /// [`Checkpoint::advance_actions`].
    ///
    /// Silently ignores calls where `sequence ≤ current`, so it is safe to
    /// call with a value that was already recorded.
    pub fn advance(&mut self, sequence: u64, io: &Outcome) -> (result: Result<(), WalError>)
        ensures
            error::agrees(result, old(self)@.advance_result(sequence, io@)),
            final(self)@ == old(self)@.advanced(sequence, io@),
    {
        if sequence > self.sequence {
            match io.fault_before(2) {
                Some(fault) => return Err(WalError::Io(fault)),
                None => {
                    self.sequence = sequence;
                },
            }
        }
        Ok(())
    }
}

// ─── Laws ────────────────────────────────────────────────────────────────────

/// The two files of the checkpoint are apart.
pub proof fn lemma_paths_differ(dir: Seq<char>)
    ensures
        file_path(dir) != temp_path(dir),
{
    reveal_strlit("checkpoint");
    reveal_strlit("checkpoint.tmp");
    if file_path(dir) == temp_path(dir) {
        text::lemma_joined_injective(dir, "checkpoint"@, "checkpoint.tmp"@);
        assert("checkpoint"@.len() != "checkpoint.tmp"@.len());
    }
}

/// A checkpoint never moves back, whatever it is asked for and however the
/// disk behaves.
pub proof fn checkpoint_never_moves_back(c: CheckpointView, sequence: u64, io: OutcomeView)
    ensures
        c.advanced(sequence, io).sequence >= c.sequence,
        c.advance_result(sequence, io) is Ok ==> c.advanced(sequence, io).sequence >= sequence,
{
}

/// A checkpoint that was advanced is what the next start loads.
pub proof fn advanced_checkpoint_is_reloaded(c: CheckpointView, sequence: u64, disk: Disk)
    requires
        sequence > c.sequence,
    ensures
        ({
            let after = storage::all_applied(disk, c.advance_ops(sequence));
            &&& after.contains_key(file_path(c.dir))
            &&& stated(Ok(after[file_path(c.dir)])) == Ok::<u64, WalErrorView>(sequence)
        }),
{
    let list = c.advance_ops(sequence);
    let value = bytes::le_bytes(sequence as nat, 8);
    reveal_with_fuel(storage::all_applied, 3);
    assert(list.drop_last().last() == list[0]);
    assert(list.drop_last().drop_last() =~= Seq::<FileOp>::empty());
    bytes::lemma_le_bytes_len(sequence as nat, 8);
    bytes::lemma_byte_range_values();
    bytes::lemma_le_roundtrip(sequence as nat, 8);
    assert(value.subrange(0, 8) =~= value);
}

/// A crash while the checkpoint is advanced leaves the checkpoint file as it was
/// or as it was meant to be, never anything in between.
pub proof fn checkpoint_survives_a_crash(
    c: CheckpointView,
    sequence: u64,
    disk: Disk,
    after: Disk,
)
    requires
        storage::crashed(disk, c.advance_ops(sequence), after),
    ensures
        ({
            let path = file_path(c.dir);
            let done = storage::all_applied(disk, c.advance_ops(sequence));
            storage::same_file(after, disk, path) || storage::same_file(after, done, path)
        }),
{
    lemma_paths_differ(c.dir);
    storage::lemma_replacement_is_atomic(
        disk,
        temp_path(c.dir),
        file_path(c.dir),
        c.advance_ops(sequence),
        after,
    );
}

} // verus!
