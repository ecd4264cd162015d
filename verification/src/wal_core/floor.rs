//! Durable floor of the sequence numbers.
//!
//! The next sequence number is recovered from the last entry on disk. Where a
//! truncation leaves no entry behind, the number is recorded in a file of its own
//! first, so that no number is ever given out twice. As long as there is an entry,
//! nobody looks at that file.
//!
//! # On-disk format
//!
//! An entry without a payload, stored in `<dir>/sequence`: its sequence number is
//! the lowest one that is still free. A missing file, or one that holds anything
//! else, records nothing.
use vstd::prelude::*;

use crate::storage;
use crate::storage::{Contents, Disk, FaultView, FileAction, FileOp, Files, FilesView, IoFault};
use crate::text;
use crate::wal_core::entry;
use crate::wal_core::entry::HEADER_SIZE;
use crate::wal_core::error;
use crate::wal_core::error::{WalError, WalErrorView};

verus! {

/// Where the floor of the WAL in `dir` is kept.
pub open spec fn file_path(dir: Seq<char>) -> Seq<char> {
    text::joined(dir, "sequence"@)
}

/// Where a new floor is written before it replaces the old one.
pub open spec fn temp_path(dir: Seq<char>) -> Seq<char> {
    text::joined(dir, "sequence.tmp"@)
}

/// The floor that a file of these contents records, 0 where it records none.
pub open spec fn stated(contents: Contents) -> Result<u64, WalErrorView> {
    match contents {
        Ok(raw) => match entry::decoded(raw, 0) {
            Ok((e, used)) => if used == HEADER_SIZE && raw.len() == HEADER_SIZE {
                Ok(e.sequence)
            } else {
                Ok(0)
            },
            Err(_) => Ok(0),
        },
        Err(FaultView::NotFound) => Ok(0),
        Err(fault) => Err(WalErrorView::Io(fault)),
    }
}

/// The floor that `files` hold for the WAL in `dir`.
pub open spec fn loaded(files: FilesView, dir: Seq<char>) -> Result<u64, WalErrorView> {
    stated(storage::lookup(files, file_path(dir)))
}

/// The floor of the WAL in `dir` that is on `disk`.
pub open spec fn kept(disk: Disk, dir: Seq<char>) -> Result<u64, WalErrorView> {
    stated(storage::on_disk(disk, file_path(dir)))
}

/// What has to be done on disk to record `sequence` as the floor.
pub open spec fn raise_ops(dir: Seq<char>, sequence: u64) -> Seq<FileOp> {
    seq![
        FileOp::Write(temp_path(dir), entry::encoded(sequence, Seq::empty())),
        FileOp::Sync(temp_path(dir)),
        FileOp::Rename(temp_path(dir), file_path(dir)),
    ]
}

/// Load the floor of the WAL in `dir`.
pub(crate) fn load(dir: &str, files: &Files) -> (floor: Result<u64, WalError>)
    ensures
        error::agrees(floor, loaded(files@, dir@)),
{
    match files.get(&text::join(dir, "sequence")) {
        Ok(raw) => match entry::decode(raw.as_slice(), 0) {
            Ok((e, used)) => if used == HEADER_SIZE && raw.len() == HEADER_SIZE {
                Ok(e.sequence)
            } else {
                Ok(0)
            },
            Err(_) => Ok(0),
        },
        Err(IoFault::NotFound) => Ok(0),
        Err(fault) => Err(WalError::Io(fault)),
    }
}

/// What has to be done on disk to record `sequence` as the floor.
pub(crate) fn raise_actions(dir: &str, sequence: u64) -> (actions: Vec<FileAction>)
    ensures
        storage::ops(actions@) == raise_ops(dir@, sequence),
{
    let tmp = text::join(dir, "sequence.tmp");
    let none: Vec<u8> = Vec::new();
    let bytes = entry::encode(sequence, none.as_slice());
    assert(none@ =~= Seq::<u8>::empty());
    let mut actions: Vec<FileAction> = Vec::new();
    actions.push(FileAction::Write { path: tmp.clone(), bytes });
    actions.push(FileAction::Sync { path: tmp.clone() });
    actions.push(FileAction::Rename { from: tmp, to: text::join(dir, "sequence") });
    assert(storage::ops(actions@) =~= raise_ops(dir@, sequence));
    actions
}

// ─── Laws ────────────────────────────────────────────────────────────────────

/// A file that records a floor states it.
pub proof fn recorded_floor_is_stated(sequence: u64)
    ensures
        stated(Ok(entry::encoded(sequence, Seq::empty()))) == Ok::<u64, WalErrorView>(sequence),
{
    let raw = entry::encoded(sequence, Seq::empty());
    entry::lemma_encoded_len(sequence, Seq::empty());
    entry::decode_returns_what_was_encoded(sequence, Seq::empty(), Seq::empty(), 0);
    assert(raw + Seq::<u8>::empty() =~= raw);
}

/// A floor that was recorded is what the next start loads.
pub proof fn raised_floor_is_reloaded(dir: Seq<char>, sequence: u64, disk: Disk)
    ensures
        ({
            let after = storage::all_applied(disk, raise_ops(dir, sequence));
            &&& kept(after, dir) == Ok::<u64, WalErrorView>(sequence)
            &&& after.contains_key(file_path(dir))
            &&& after[file_path(dir)] == entry::encoded(sequence, Seq::empty())
        }),
{
    let list = raise_ops(dir, sequence);
    reveal_with_fuel(storage::all_applied, 4);
    assert(list.drop_last().last() == list[1]);
    assert(list.drop_last().drop_last().last() == list[0]);
    assert(list.drop_last().drop_last().drop_last() =~= Seq::<FileOp>::empty());
    recorded_floor_is_stated(sequence);
}

/// The two files of the floor are apart.
pub proof fn lemma_paths_differ(dir: Seq<char>)
    ensures
        file_path(dir) != temp_path(dir),
{
    reveal_strlit("sequence");
    reveal_strlit("sequence.tmp");
    if file_path(dir) == temp_path(dir) {
        text::lemma_joined_injective(dir, "sequence"@, "sequence.tmp"@);
        assert("sequence"@.len() != "sequence.tmp"@.len());
    }
}

/// A crash while the floor is recorded leaves the old floor or the new one.
pub proof fn floor_survives_a_crash(dir: Seq<char>, sequence: u64, disk: Disk, after: Disk)
    requires
        storage::crashed(disk, raise_ops(dir, sequence), after),
    ensures
        kept(after, dir) == kept(disk, dir) || kept(after, dir) == Ok::<u64, WalErrorView>(
            sequence,
        ),
{
    lemma_paths_differ(dir);
    raised_floor_is_reloaded(dir, sequence, disk);
    storage::lemma_replacement_is_atomic(
        disk,
        temp_path(dir),
        file_path(dir),
        raise_ops(dir, sequence),
        after,
    );
}

/// A file states a floor other than 0 only where it is, byte for byte, the record of
/// that floor. A missing file states 0, and one that cannot be read is an error.
pub proof fn only_a_record_states_a_floor(raw: Seq<u8>, floor: u64, fault: FaultView)
    requires
        floor > 0,
    ensures
        stated(Ok(raw)) == Ok::<u64, WalErrorView>(floor) <==> raw == entry::encoded(
            floor,
            Seq::empty(),
        ),
        stated(Ok(raw)) is Ok,
        fault is NotFound ==> stated(Err(fault)) == Ok::<u64, WalErrorView>(0),
        !(fault is NotFound) ==> stated(Err(fault)) == Err::<u64, WalErrorView>(
            WalErrorView::Io(fault),
        ),
{
    recorded_floor_is_stated(floor);
    if stated(Ok(raw)) == Ok::<u64, WalErrorView>(floor) {
        entry::only_encoded_entries_decode(raw, 0);
        let (e, used) = entry::decoded(raw, 0)->Ok_0;
        entry::lemma_encoded_len(e.sequence, e.data);
        assert(e.data =~= Seq::<u8>::empty());
        assert(raw.take(used as int) =~= raw);
    }
}

/// A floor is written to a file beside that of the floor, which it replaces once it has
/// reached the disk.
pub proof fn floor_is_written_beside_synced_and_renamed(dir: Seq<char>, floor: u64)
    ensures
        ({
            let tmp = text::joined(dir, "sequence.tmp"@);
            let list = raise_ops(dir, floor);
            &&& list.len() == 3
            &&& list[0] == FileOp::Write(tmp, entry::encoded(floor, Seq::empty()))
            &&& list[1] == FileOp::Sync(tmp)
            &&& list[2] == FileOp::Rename(tmp, text::joined(dir, "sequence"@))
        }),
{
}

} // verus!
