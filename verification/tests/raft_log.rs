use std::collections::BTreeMap;

use replicated_wal::storage::{FileAction, Files, IoFault, Outcome};
use replicated_wal::wal_core::error::WalError;
use replicated_wal::wal_core::wal::{Wal, WalConfig};
use replicated_wal::wal_replication::error::RaftError;
use replicated_wal::wal_replication::raft::log::RaftLog;

const DIR: &str = "/node/wal";

#[derive(Default)]
struct Disk {
    files: BTreeMap<String, Vec<u8>>,
    fail_at: Option<usize>,
}

impl Disk {
    fn perform(&mut self, actions: &[FileAction]) -> Outcome {
        for (at, action) in actions.iter().enumerate() {
            if self.fail_at == Some(at) {
                return Outcome::Failed { at, fault: IoFault::Other("disk full".to_string()) };
            }
            match action {
                FileAction::CreateNew { path } => {
                    assert!(!self.files.contains_key(path));
                    self.files.insert(path.clone(), Vec::new());
                }
                FileAction::OpenAppend { path }
                | FileAction::Flush { path }
                | FileAction::Sync { path } => assert!(self.files.contains_key(path)),
                FileAction::Append { path, bytes } => {
                    self.files.get_mut(path).unwrap().extend_from_slice(bytes);
                }
                FileAction::Write { path, bytes } => {
                    self.files.insert(path.clone(), bytes.clone());
                }
                FileAction::Rename { from, to } => {
                    let bytes = self.files.remove(from).unwrap();
                    self.files.insert(to.clone(), bytes);
                }
                FileAction::Remove { path } => {
                    self.files.remove(path).unwrap();
                }
                FileAction::Shorten { path, len } => {
                    self.files.get_mut(path).unwrap().truncate(*len as usize);
                }
            }
        }
        Outcome::Done
    }

    fn files(&self) -> Files {
        let mut files = Files::new();
        for (path, bytes) in &self.files {
            files.add(path.clone(), Ok(bytes.clone()));
        }
        files
    }

    fn open(&mut self, max_segment_bytes: u64) -> RaftLog {
        let config = WalConfig { dir: DIR.to_string(), max_segment_bytes, sync_writes: false };
        let files = self.files();
        let io = self.perform(&Wal::open_actions(&config, &files));
        RaftLog::try_open(config, &files, &io, &self.files()).unwrap().unwrap()
    }

    fn open_log(&mut self) -> RaftLog {
        self.open(1024 * 1024)
    }

    fn append(&mut self, log: &mut RaftLog, term: u64, data: &[u8]) -> Result<u64, RaftError> {
        assert!(log.can_append(data.len()));
        let io = self.perform(&log.append_actions(term, data));
        log.append(term, data, &io)
    }

    fn truncate_from(&mut self, log: &mut RaftLog, from: u64) -> Result<(), RaftError> {
        let io = self.perform(&log.truncate_actions(from));
        log.truncate_from(from, &io)
    }

    fn compact(&mut self, log: &mut RaftLog, index: u64, term: u64) -> Result<(), RaftError> {
        let files = self.files();
        let io = self.perform(&log.snapshot_actions(index, term, &files));
        log.compact(index, term, &files, &io)
    }

    fn install_snapshot(&mut self, log: &mut RaftLog, index: u64, term: u64) -> Result<(), RaftError> {
        let files = self.files();
        let io = self.perform(&log.snapshot_actions(index, term, &files));
        log.install_snapshot(index, term, &files, &io)
    }
}

#[test]
fn append_assigns_sequential_indices() {
    let mut disk = Disk::default();
    let mut log = disk.open_log();
    assert_eq!(disk.append(&mut log, 1, b"a").unwrap(), 1);
    assert_eq!(disk.append(&mut log, 1, b"b").unwrap(), 2);
    assert_eq!(disk.append(&mut log, 2, b"c").unwrap(), 3);
    assert_eq!(log.last_index(), 3);
    assert_eq!(log.last_term(), 2);
}

#[test]
fn term_at_returns_correct_term() {
    let mut disk = Disk::default();
    let mut log = disk.open_log();
    disk.append(&mut log, 1, b"entry in term 1").unwrap();
    disk.append(&mut log, 2, b"entry in term 2").unwrap();
    assert_eq!(log.term_at(1), Some(1));
    assert_eq!(log.term_at(2), Some(2));
    assert_eq!(log.term_at(3), None);
}

#[test]
fn truncate_removes_trailing_entries() {
    let mut disk = Disk::default();
    let mut log = disk.open_log();
    for t in 1u64..=5 {
        disk.append(&mut log, 1, format!("e{t}").as_bytes()).unwrap();
    }
    disk.truncate_from(&mut log, 3).unwrap();
    assert_eq!(log.last_index(), 2);
    assert_eq!(log.entries_from(1).len(), 2);
}

#[test]
fn survives_crash_and_recovery() {
    let mut disk = Disk::default();
    {
        let mut log = disk.open_log();
        disk.append(&mut log, 1, b"x").unwrap();
        disk.append(&mut log, 1, b"y").unwrap();
        disk.append(&mut log, 2, b"z").unwrap();
    }
    let log = disk.open_log();
    assert_eq!(log.last_index(), 3);
    assert_eq!(log.term_at(3), Some(2));
    assert_eq!(log.entries_from(2)[0].data, b"y");
}

#[test]
fn truncation_survives_crash() {
    let mut disk = Disk::default();
    {
        let mut log = disk.open_log();
        disk.append(&mut log, 1, b"keep").unwrap();
        disk.append(&mut log, 1, b"discard").unwrap();
        disk.truncate_from(&mut log, 2).unwrap();
    }
    let log = disk.open_log();
    assert_eq!(log.last_index(), 1);
    assert_eq!(log.entries_from(1)[0].data, b"keep");
}

#[test]
fn compact_removes_entries_and_updates_snapshot_index() {
    let mut disk = Disk::default();
    let mut log = disk.open_log();
    for i in 1u64..=5 {
        disk.append(&mut log, 1, format!("e{i}").as_bytes()).unwrap();
    }
    // Compact up to index 3
    disk.compact(&mut log, 3, 1).unwrap();
    assert_eq!(log.snapshot_index(), 3);
    assert_eq!(log.snapshot_term(), 1);
    assert_eq!(log.last_index(), 5);
    // Entries 1–3 are gone
    assert!(log.entries_from(1).is_empty() || log.entries_from(1)[0].index > 3);
    // Entry 4 and 5 remain
    let tail = log.entries_from(4);
    assert_eq!(tail.len(), 2);
    assert_eq!(tail[0].index, 4);
}

#[test]
fn compact_survives_crash() {
    let mut disk = Disk::default();
    {
        let mut log = disk.open_log();
        for i in 1u64..=5 {
            disk.append(&mut log, 1, format!("e{i}").as_bytes()).unwrap();
        }
        disk.compact(&mut log, 3, 1).unwrap();
    }
    let log = disk.open_log();
    assert_eq!(log.snapshot_index(), 3);
    assert_eq!(log.last_index(), 5);
    let tail = log.entries_from(4);
    assert_eq!(tail.len(), 2);
    assert_eq!(tail[1].data, b"e5");
}

#[test]
fn install_snapshot_resets_log() {
    let mut disk = Disk::default();
    let mut log = disk.open_log();
    for i in 1u64..=3 {
        disk.append(&mut log, 1, format!("e{i}").as_bytes()).unwrap();
    }
    disk.install_snapshot(&mut log, 5, 2).unwrap();
    assert_eq!(log.snapshot_index(), 5);
    assert_eq!(log.last_index(), 5);
    assert_eq!(log.last_term(), 2);
    // No entries remain
    assert!(log.entries_from(1).is_empty());
}

#[test]
fn term_at_snapshot_index_returns_snapshot_term() {
    let mut disk = Disk::default();
    let mut log = disk.open_log();
    disk.append(&mut log, 1, b"a").unwrap();
    disk.append(&mut log, 1, b"b").unwrap();
    disk.compact(&mut log, 2, 1).unwrap();
    assert_eq!(log.term_at(2), Some(1)); // snapshot_term
    assert_eq!(log.term_at(1), None); // compacted
}

/// Compacting the log trims entries and the WAL survives the trim.
#[test]
fn log_compact_frees_entries_and_is_crash_safe() {
    let mut disk = Disk::default();

    // Write 20 entries then compact at 15
    {
        let mut log = disk.open(64 * 1024);
        for i in 1u64..=20 {
            disk.append(&mut log, 1, format!("entry-{i}").as_bytes()).unwrap();
        }
        disk.compact(&mut log, 15, 1).unwrap();
        assert_eq!(log.snapshot_index(), 15);
        assert_eq!(log.last_index(), 20);
        // Entries 16–20 still readable
        let tail = log.entries_from(16);
        assert_eq!(tail.len(), 5);
        assert_eq!(tail[0].index, 16);
    }

    // Crash-safe: reopen and verify
    let log = disk.open(64 * 1024);
    assert_eq!(log.snapshot_index(), 15);
    assert_eq!(log.last_index(), 20);
    let tail = log.entries_from(16);
    assert_eq!(tail.len(), 5);
    assert_eq!(tail[4].data, b"entry-20");
}

/// InstallSnapshot on a follower that has fewer entries than the snapshot.
#[test]
fn install_snapshot_resets_lagging_log() {
    let mut disk = Disk::default();
    let mut log = disk.open(64 * 1024);
    // Follower only has 5 entries but leader is at index 100
    for i in 1u64..=5 {
        disk.append(&mut log, 1, format!("e{i}").as_bytes()).unwrap();
    }

    disk.install_snapshot(&mut log, 100, 3).unwrap();

    assert_eq!(log.snapshot_index(), 100);
    assert_eq!(log.snapshot_term(), 3);
    assert_eq!(log.last_index(), 100);
    // term_at snapshot index returns snapshot_term
    assert_eq!(log.term_at(100), Some(3));
    // No entries below or at snapshot index
    assert!(log.entries_from(1).is_empty());
    // term_at compacted index is None
    assert_eq!(log.term_at(99), None);
}

#[test]
fn records_have_a_kind_and_little_endian_numbers() {
    let mut disk = Disk::default();
    let mut log = disk.open_log();
    disk.append(&mut log, 2, b"z").unwrap();
    match &log.append_actions(3, b"xy")[0] {
        FileAction::Append { bytes, .. } => {
            assert_eq!(
                &bytes[16..],
                &[1, 2, 0, 0, 0, 0, 0, 0, 0, 3, 0, 0, 0, 0, 0, 0, 0, b'x', b'y']
            );
        }
        _ => panic!("an entry is appended"),
    }
    match &log.truncate_actions(1)[0] {
        FileAction::Append { bytes, .. } => {
            assert_eq!(&bytes[16..], &[2, 1, 0, 0, 0, 0, 0, 0, 0]);
        }
        _ => panic!("a record is appended"),
    }
    match &log.snapshot_actions(1, 2, &disk.files())[0] {
        FileAction::Append { bytes, .. } => {
            assert_eq!(&bytes[16..], &[3, 1, 0, 0, 0, 0, 0, 0, 0, 2, 0, 0, 0, 0, 0, 0, 0]);
        }
        _ => panic!("a record is appended"),
    }
}

#[test]
fn truncation_behind_the_log_does_nothing() {
    let mut disk = Disk::default();
    let mut log = disk.open_log();
    for i in 1u64..=4 {
        disk.append(&mut log, i, b"e").unwrap();
    }
    disk.compact(&mut log, 2, 2).unwrap();
    assert!(log.truncate_actions(5).is_empty());
    disk.truncate_from(&mut log, 5).unwrap();
    assert_eq!(log.last_index(), 4);
    disk.truncate_from(&mut log, 3).unwrap();
    assert_eq!(log.last_index(), 2);
    assert_eq!(log.last_term(), 2);
    assert!(log.all_entries().is_empty());
    assert!(log.truncate_actions(1).is_empty());
}

#[test]
fn truncation_from_the_snapshot_on_removes_every_entry() {
    for from in 0u64..=3 {
        let mut disk = Disk::default();
        let mut log = disk.open_log();
        for i in 1u64..=4 {
            disk.append(&mut log, i, b"e").unwrap();
        }
        disk.compact(&mut log, 2, 2).unwrap();
        disk.truncate_from(&mut log, from).unwrap();
        assert_eq!(log.last_index(), 2);
        assert!(log.all_entries().is_empty());
        let again = disk.open_log();
        assert_eq!((again.snapshot_index(), again.last_index()), (2, 2));
        assert_eq!(disk.append(&mut log, 5, b"on").unwrap(), 3);
    }
}

#[test]
fn truncation_from_zero_empties_the_log() {
    let mut disk = Disk::default();
    let mut log = disk.open_log();
    disk.append(&mut log, 1, b"a").unwrap();
    disk.append(&mut log, 1, b"b").unwrap();
    disk.truncate_from(&mut log, 0).unwrap();
    assert_eq!(log.last_index(), 0);
    assert!(log.all_entries().is_empty());
    let again = disk.open_log();
    assert_eq!(again.last_index(), 0);
    assert!(again.all_entries().is_empty());
}

#[test]
fn first_index_of_a_term_is_found() {
    let mut disk = Disk::default();
    let mut log = disk.open_log();
    for t in [1u64, 1, 2, 2, 3] {
        disk.append(&mut log, t, b"e").unwrap();
    }
    assert_eq!(log.first_index_of_term(2), Some(3));
    assert_eq!(log.first_index_of_term(4), None);
    disk.compact(&mut log, 3, 2).unwrap();
    assert_eq!(log.first_index_of_term(2), Some(3)); // the snapshot's own
    assert_eq!(log.first_index_of_term(3), Some(5));
    assert_eq!(log.first_index_of_term(1), None);
}

#[test]
fn compacting_twice_to_one_point_is_no_work() {
    let mut disk = Disk::default();
    let mut log = disk.open_log();
    for i in 1u64..=3 {
        disk.append(&mut log, 1, format!("e{i}").as_bytes()).unwrap();
    }
    disk.compact(&mut log, 2, 1).unwrap();
    assert!(log.snapshot_actions(2, 9, &disk.files()).is_empty());
    disk.compact(&mut log, 1, 9).unwrap();
    disk.install_snapshot(&mut log, 2, 9).unwrap();
    assert_eq!((log.snapshot_index(), log.snapshot_term()), (2, 1));
    assert_eq!(log.entries_from(1)[0].data, b"e3");
}

#[test]
fn install_keeps_entries_behind_the_snapshot() {
    let mut disk = Disk::default();
    let mut log = disk.open_log();
    for i in 1u64..=5 {
        disk.append(&mut log, 1, format!("e{i}").as_bytes()).unwrap();
    }
    disk.install_snapshot(&mut log, 3, 1).unwrap();
    assert_eq!(log.last_index(), 5);
    let again = disk.open_log();
    assert_eq!(again.all_entries(), log.all_entries());
}

#[test]
fn overwritten_entries_replay_as_the_last_ones() {
    let mut disk = Disk::default();
    let mut log = disk.open_log();
    for i in 1u64..=3 {
        disk.append(&mut log, 1, format!("old{i}").as_bytes()).unwrap();
    }
    disk.truncate_from(&mut log, 2).unwrap();
    disk.append(&mut log, 2, b"new2").unwrap();
    let again = disk.open_log();
    assert_eq!(again.last_index(), 2);
    assert_eq!(again.entries_from(2)[0].data, b"new2");
    assert_eq!(again.last_term(), 2);
    assert_eq!(again.all_entries(), log.all_entries());
}

#[test]
fn compaction_drops_covered_segments() {
    let mut disk = Disk::default();
    // Each segment takes two of these records.
    let mut log = disk.open(80);
    for i in 1u64..=6 {
        disk.append(&mut log, 1, format!("e{i}").as_bytes()).unwrap();
    }
    assert_eq!(log.segment_files().len(), 3);
    disk.compact(&mut log, 6, 1).unwrap();
    assert_eq!(log.segment_files().len(), 1);
    let again = disk.open(80);
    assert_eq!(again.snapshot_index(), 6);
    assert_eq!(again.last_index(), 6);
    assert_eq!(disk.append(&mut log, 2, b"on").unwrap(), 7);
}

#[test]
fn failed_append_leaves_the_log() {
    let mut disk = Disk::default();
    let mut log = disk.open_log();
    disk.append(&mut log, 1, b"a").unwrap();
    disk.fail_at = Some(0);
    let result = disk.append(&mut log, 1, b"b");
    assert!(matches!(result, Err(RaftError::Wal(WalError::Io(IoFault::Other(_))))));
    assert_eq!(log.last_index(), 1);
    assert!(disk.truncate_from(&mut log, 1).is_err());
    assert_eq!(log.last_index(), 1);
    disk.fail_at = None;
    assert_eq!(disk.append(&mut log, 1, b"b").unwrap(), 2);
}

#[test]
fn failed_compaction_leaves_the_entries() {
    for at in 0..4 {
        let mut disk = Disk::default();
        let mut log = disk.open_log();
        disk.append(&mut log, 1, b"a").unwrap();
        disk.append(&mut log, 1, b"b").unwrap();
        disk.fail_at = Some(at);
        let result = disk.compact(&mut log, 1, 1);
        assert!(matches!(result, Err(RaftError::Wal(WalError::Io(_)))));
        assert_eq!(log.snapshot_index(), 0);
        assert_eq!(log.all_entries().len(), 2);
    }
}

#[test]
fn failed_compaction_whose_marker_was_written_is_found_at_a_restart() {
    for at in 2..4 {
        let mut disk = Disk::default();
        let mut log = disk.open_log();
        disk.append(&mut log, 1, b"a").unwrap();
        disk.append(&mut log, 1, b"b").unwrap();
        disk.fail_at = Some(at);
        assert!(disk.compact(&mut log, 1, 1).is_err());
        disk.fail_at = None;
        assert_eq!(log.snapshot_index(), 0);
        let again = disk.open_log();
        assert_eq!((again.snapshot_index(), again.snapshot_term()), (1, 1));
        assert_eq!(again.all_entries(), &log.all_entries()[1..]);
    }
}

#[test]
fn log_goes_on_after_a_failed_rotation() {
    let mut disk = Disk::default();
    let mut log = disk.open(50);
    disk.append(&mut log, 1, b"a").unwrap();
    for at in 0..3 {
        disk.fail_at = Some(at);
        assert!(disk.append(&mut log, 1, b"b").is_err());
        disk.fail_at = None;
        assert_eq!(log.last_index(), 1);
        assert_eq!(disk.open(50).all_entries(), log.all_entries());
    }
    // The next segment was created before the last failure.
    assert_eq!(disk.append(&mut log, 1, b"b").unwrap(), 2);
    assert_eq!(disk.open(50).all_entries(), log.all_entries());
}

#[test]
fn records_replay_by_position() {
    let mut disk = Disk::default();
    let config = WalConfig { dir: DIR.to_string(), max_segment_bytes: 4096, sync_writes: false };
    let files = disk.files();
    let io = disk.perform(&Wal::open_actions(&config, &files));
    let mut wal = Wal::try_open(config, &files, &io).unwrap().unwrap();
    let append = |term: u64, index: u64| {
        let mut record = vec![1u8];
        record.extend_from_slice(&index.to_le_bytes());
        record.extend_from_slice(&term.to_le_bytes());
        record
    };
    // A first record at index 5 stands first; one at index 1 then takes its place, and
    // one at index 9 comes behind it.
    for record in [append(1, 5), append(2, 1), append(3, 9)] {
        let io = disk.perform(&wal.append_actions(&record));
        wal.append(&record, &io).unwrap();
    }
    let log = disk.open_log();
    let found: Vec<(u64, u64)> = log.all_entries().iter().map(|e| (e.index, e.term)).collect();
    assert_eq!(found, vec![(1, 2), (9, 3)]);
    assert_eq!(log.last_index(), 2);
    assert_eq!(log.term_at(2), Some(3));
}

#[test]
fn oversized_record_is_refused() {
    let mut disk = Disk::default();
    let mut log = disk.open(64);
    let result = disk.append(&mut log, 1, &[0u8; 40]);
    assert!(matches!(result, Err(RaftError::Wal(WalError::SegmentFull { .. }))));
    assert_eq!(log.last_index(), 0);
}

#[test]
fn crash_in_a_compaction_leaves_the_log_or_the_snapshot() {
    for index in 1u64..=6 {
        let mut disk = Disk::default();
        let mut log = disk.open(80);
        for i in 1u64..=6 {
            disk.append(&mut log, 1, format!("e{i}").as_bytes()).unwrap();
        }
        let actions = log.snapshot_actions(index, 1, &disk.files());
        let before = disk.files.clone();
        for done in 0..=actions.len() {
            disk.files = before.clone();
            disk.perform(&actions[..done]);
            let again = disk.open(80);
            assert_eq!(again.last_index(), 6);
            if again.snapshot_index() == 0 {
                assert_eq!(again.all_entries(), log.all_entries());
            } else {
                assert_eq!((again.snapshot_index(), again.snapshot_term()), (index, 1));
                assert_eq!(again.all_entries(), &log.all_entries()[index as usize..]);
            }
        }
    }
}

#[test]
fn crash_in_a_record_leaves_the_log_before_or_after_it() {
    let mut disk = Disk::default();
    let mut log = disk.open_log();
    disk.append(&mut log, 1, b"a").unwrap();
    disk.append(&mut log, 1, b"b").unwrap();
    let path = log.segment_files()[0].clone();
    let whole = disk.files[&path].clone();
    disk.truncate_from(&mut log, 2).unwrap();
    let longer = disk.files[&path].clone();
    for kept in whole.len()..=longer.len() {
        disk.files.insert(path.clone(), longer[..kept].to_vec());
        let again = disk.open_log();
        assert_eq!(again.last_index(), if kept < longer.len() { 2 } else { 1 });
    }
}

#[test]
fn compaction_keeps_the_segments_of_entries_behind_it() {
    let mut disk = Disk::default();
    // Each segment takes two of these records.
    let mut log = disk.open(80);
    for i in 1u64..=5 {
        disk.append(&mut log, 1, format!("e{i}").as_bytes()).unwrap();
    }
    disk.compact(&mut log, 3, 1).unwrap();
    // The segment of entries 1 and 2 is gone, the one of 3 and 4 is not.
    assert_eq!(log.segment_files().len(), 2);
    let again = disk.open(80);
    assert_eq!(again.snapshot_index(), 3);
    assert_eq!(again.last_index(), 5);
    let tail = again.entries_from(4);
    assert_eq!(tail.len(), 2);
    assert_eq!((tail[0].index, tail[0].data.as_slice()), (4, b"e4".as_slice()));
    assert_eq!((tail[1].index, tail[1].data.as_slice()), (5, b"e5".as_slice()));
    assert_eq!(again.all_entries(), log.all_entries());
}

#[test]
fn compaction_after_truncations_keeps_what_was_written_last() {
    let mut disk = Disk::default();
    let mut log = disk.open(80);
    for i in 1u64..=4 {
        disk.append(&mut log, 1, format!("e{i}").as_bytes()).unwrap();
    }
    disk.truncate_from(&mut log, 3).unwrap();
    for i in 3u64..=5 {
        disk.append(&mut log, 2, format!("n{i}").as_bytes()).unwrap();
    }
    disk.compact(&mut log, 2, 1).unwrap();
    let again = disk.open(80);
    assert_eq!(again.snapshot_index(), 2);
    assert_eq!(again.all_entries(), log.all_entries());
    assert_eq!(again.entries_from(3)[0].data, b"n3");
    disk.compact(&mut log, 4, 2).unwrap();
    let again = disk.open(80);
    assert_eq!(again.all_entries(), log.all_entries());
    assert_eq!(again.entries_from(5)[0].data, b"n5");
}

#[test]
fn compaction_that_cannot_read_the_segments_drops_none() {
    let mut disk = Disk::default();
    let mut log = disk.open(80);
    for i in 1u64..=6 {
        disk.append(&mut log, 1, format!("e{i}").as_bytes()).unwrap();
    }
    let second = log.segment_files()[1].clone();
    disk.files.get_mut(&second).unwrap().truncate(5);
    let result = disk.compact(&mut log, 6, 1);
    assert!(matches!(result, Err(RaftError::Wal(WalError::UnexpectedEof { offset: 0 }))));
    assert_eq!(log.snapshot_index(), 0);
    assert!(log.segment_files().iter().all(|path| disk.files.contains_key(path)));
}

#[test]
fn compaction_of_covered_segments_keeps_the_entries_behind_it() {
    let mut disk = Disk::default();
    // Each segment takes two of these records.
    let mut log = disk.open(80);
    for i in 1u64..=5 {
        disk.append(&mut log, 1, format!("e{i}").as_bytes()).unwrap();
    }
    // The marker shares the last segment with entry 5.
    disk.compact(&mut log, 4, 1).unwrap();
    assert_eq!(log.segment_files().len(), 1);
    let again = disk.open(80);
    assert_eq!(again.snapshot_index(), 4);
    assert_eq!(again.all_entries(), log.all_entries());
    assert_eq!(again.entries_from(1)[0].data, b"e5");
}

#[test]
fn log_reopens_as_it_is_after_every_step() {
    let mut disk = Disk::default();
    // Each segment takes two or three of these records.
    let mut log = disk.open(100);
    for step in 0u64..48 {
        match step % 6 {
            4 => {
                let from = log.last_index().saturating_sub(1);
                disk.truncate_from(&mut log, from).unwrap();
            }
            5 => {
                let index = (log.snapshot_index() + log.last_index()) / 2;
                disk.compact(&mut log, index, 1).unwrap();
            }
            _ => {
                let next = log.last_index() + 1;
                assert_eq!(disk.append(&mut log, step, format!("e{step:02}").as_bytes()).unwrap(), next);
            }
        }
        let again = disk.open(100);
        assert_eq!(again.snapshot_index(), log.snapshot_index());
        assert_eq!(again.snapshot_term(), log.snapshot_term());
        assert_eq!(again.all_entries(), log.all_entries());
        for (i, e) in log.all_entries().iter().enumerate() {
            assert_eq!(e.index, log.snapshot_index() + 1 + i as u64);
        }
    }
    // Old segments do go.
    assert!(log.segment_files().len() < 12);
}

#[test]
fn compacting_one_log_and_installing_in_its_copy_agree() {
    for index in 1u64..=7 {
        let mut leader = Disk::default();
        let mut follower = Disk::default();
        let mut a = leader.open(80);
        let mut b = follower.open(200);
        for i in 1u64..=5 {
            leader.append(&mut a, 1, format!("e{i}").as_bytes()).unwrap();
            follower.append(&mut b, 1, format!("e{i}").as_bytes()).unwrap();
        }
        let tail = b.entries_from(index + 1);
        leader.compact(&mut a, index, 1).unwrap();
        follower.install_snapshot(&mut b, index, 1).unwrap();
        assert_eq!((a.snapshot_index(), a.snapshot_term()), (index, 1));
        assert_eq!((b.snapshot_index(), b.snapshot_term()), (index, 1));
        assert_eq!(a.all_entries(), b.all_entries());
        assert_eq!(b.all_entries(), &tail[..]);
    }
}
