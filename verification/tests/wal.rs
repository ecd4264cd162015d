use std::collections::BTreeMap;

use replicated_wal::storage::{FileAction, Files, IoFault, Outcome};
use replicated_wal::wal_core::entry;
use replicated_wal::wal_core::entry::Entry;
use replicated_wal::wal_core::error::WalError;
use replicated_wal::wal_core::wal::{highest_sequence_on_disk, Wal, WalConfig};

const DIR: &str = "/data";

#[derive(Default)]
struct Disk {
    files: BTreeMap<String, Vec<u8>>,
    fail_at: Option<usize>,
}

impl Disk {
    fn perform(&mut self, actions: &[FileAction]) -> Outcome {
        for (at, action) in actions.iter().enumerate() {
            if self.fail_at == Some(at) {
                return Outcome::Failed { at, fault: IoFault::Other("disk full".to_string()) };
            }
            match action {
                FileAction::CreateNew { path } => {
                    assert!(!self.files.contains_key(path));
                    self.files.insert(path.clone(), Vec::new());
                }
                FileAction::OpenAppend { path }
                | FileAction::Flush { path }
                | FileAction::Sync { path } => assert!(self.files.contains_key(path)),
                FileAction::Append { path, bytes } => {
                    self.files.get_mut(path).unwrap().extend_from_slice(bytes);
                }
                FileAction::Write { path, bytes } => {
                    self.files.insert(path.clone(), bytes.clone());
                }
                FileAction::Rename { from, to } => {
                    let bytes = self.files.remove(from).unwrap();
                    self.files.insert(to.clone(), bytes);
                }
                FileAction::Remove { path } => {
                    self.files.remove(path).unwrap();
                }
                FileAction::Shorten { path, len } => {
                    self.files.get_mut(path).unwrap().truncate(*len as usize);
                }
            }
        }
        Outcome::Done
    }

    fn files(&self) -> Files {
        let mut files = Files::new();
        for (path, bytes) in &self.files {
            files.add(path.clone(), Ok(bytes.clone()));
        }
        files
    }

    fn try_open(&mut self, config: WalConfig) -> Option<Result<Wal, WalError>> {
        let files = self.files();
        let io = self.perform(&Wal::open_actions(&config, &files));
        Wal::try_open(config, &files, &io)
    }

    fn open(&mut self, config: WalConfig) -> Wal {
        self.try_open(config).unwrap().unwrap()
    }

    /// Open a WAL with a small segment size (easy to trigger rotation).
    fn open_wal(&mut self) -> Wal {
        self.open(config(512, false))
    }

    fn append(&mut self, wal: &mut Wal, data: &[u8]) -> Result<u64, WalError> {
        assert!(wal.can_append(16 + data.len()));
        let io = self.perform(&wal.append_actions(data));
        wal.append(data, &io)
    }

    fn checkpoint(&mut self, wal: &mut Wal, sequence: u64) {
        let io = self.perform(&wal.checkpoint_actions(sequence));
        wal.checkpoint(sequence, &io).unwrap();
    }

    fn truncate_before(&mut self, wal: &mut Wal, before: u64) -> Result<(), WalError> {
        let files = self.files();
        let io = self.perform(&wal.truncate_actions(before, &files));
        wal.truncate_before(before, &files, &io)
    }

    fn read_from(&self, wal: &Wal, from: u64) -> Vec<Entry> {
        wal.read_from(from, &self.files()).unwrap()
    }

    fn recover(&self, wal: &Wal) -> Vec<Entry> {
        wal.recover(&self.files()).unwrap()
    }
}

fn config(max_segment_bytes: u64, sync_writes: bool) -> WalConfig {
    WalConfig { dir: DIR.to_string(), max_segment_bytes, sync_writes }
}

fn seg(id: u64) -> String {
    format!("/data/wal-{id:020}.seg")
}

// ── Basic append & read ───────────────────────────────────────────────────────

#[test]
fn append_returns_monotonic_sequence_numbers() {
    let mut disk = Disk::default();
    let mut wal = disk.open_wal();

    let seq1 = disk.append(&mut wal, b"first").unwrap();
    let seq2 = disk.append(&mut wal, b"second").unwrap();
    let seq3 = disk.append(&mut wal, b"third").unwrap();

    assert_eq!(seq1, 1);
    assert_eq!(seq2, 2);
    assert_eq!(seq3, 3);
}

#[test]
fn read_from_start_returns_all_entries() {
    let mut disk = Disk::default();
    let mut wal = disk.open_wal();

    disk.append(&mut wal, b"alpha").unwrap();
    disk.append(&mut wal, b"beta").unwrap();
    disk.append(&mut wal, b"gamma").unwrap();

    let entries = disk.read_from(&wal, 1);
    assert_eq!(entries.len(), 3);
    assert_eq!(entries[0].data, b"alpha");
    assert_eq!(entries[1].data, b"beta");
    assert_eq!(entries[2].data, b"gamma");
}

#[test]
fn read_from_filters_earlier_sequences() {
    let mut disk = Disk::default();
    let mut wal = disk.open_wal();

    for i in 1u64..=10 {
        disk.append(&mut wal, format!("entry {i}").as_bytes()).unwrap();
    }

    let entries = disk.read_from(&wal, 6);
    assert_eq!(entries.len(), 5);
    assert_eq!(entries[0].sequence, 6);
    assert_eq!(entries[4].sequence, 10);
}

// ── Segment rotation ──────────────────────────────────────────────────────────

#[test]
fn data_survives_rotation_across_multiple_segments() {
    let mut disk = Disk::default();
    // Very small cap to force many rotations
    let mut wal = disk.open(config(80, false));

    for i in 1u64..=30 {
        disk.append(&mut wal, format!("record-{i:04}").as_bytes()).unwrap();
    }

    let entries = disk.read_from(&wal, 1);
    assert_eq!(entries.len(), 30);
    for (i, e) in entries.iter().enumerate() {
        assert_eq!(e.sequence, (i + 1) as u64);
        assert_eq!(e.data, format!("record-{:04}", i + 1).as_bytes());
    }
}

// ── Checkpoint & recovery ─────────────────────────────────────────────────────

#[test]
fn recover_replays_only_entries_after_checkpoint() {
    let mut disk = Disk::default();

    // --- First run: write 3 entries, checkpoint after 2 ---
    {
        let mut wal = disk.open(config(4096, true));
        disk.append(&mut wal, b"tx-1 committed").unwrap();
        disk.append(&mut wal, b"tx-2 committed").unwrap();
        disk.checkpoint(&mut wal, 2);
        disk.append(&mut wal, b"tx-3 in-flight").unwrap(); // not checkpointed
    }

    // --- Recovery run ---
    {
        let wal = disk.open(config(4096, true));
        let pending = disk.recover(&wal);
        assert_eq!(pending.len(), 1, "only tx-3 should need re-applying");
        assert_eq!(pending[0].sequence, 3);
        assert_eq!(pending[0].data, b"tx-3 in-flight");
    }
}

#[test]
fn recover_returns_nothing_when_all_entries_are_checkpointed() {
    let mut disk = Disk::default();

    {
        let mut wal = disk.open(config(4096, true));
        disk.append(&mut wal, b"a").unwrap();
        disk.append(&mut wal, b"b").unwrap();
        disk.checkpoint(&mut wal, 2);
    }

    let wal = disk.open(config(4096, true));
    assert!(disk.recover(&wal).is_empty());
}

// ── Reopen / sequence continuity ─────────────────────────────────────────────

#[test]
fn sequence_continues_after_reopen() {
    let mut disk = Disk::default();

    let last_seq = {
        let mut wal = disk.open(config(4096, false));
        disk.append(&mut wal, b"entry A").unwrap();
        disk.append(&mut wal, b"entry B").unwrap()
    };

    let mut wal = disk.open(config(4096, false));
    let next = disk.append(&mut wal, b"entry C").unwrap();
    assert_eq!(next, last_seq + 1, "sequence must be gapless across reopens");
}

#[test]
fn all_entries_visible_after_reopen() {
    let mut disk = Disk::default();

    {
        let mut wal = disk.open(config(4096, false));
        disk.append(&mut wal, b"persisted-1").unwrap();
        disk.append(&mut wal, b"persisted-2").unwrap();
    }

    let mut wal = disk.open(config(4096, false));
    disk.append(&mut wal, b"new-3").unwrap();

    let entries = disk.read_from(&wal, 1);
    assert_eq!(entries.len(), 3);
    assert_eq!(entries[0].data, b"persisted-1");
    assert_eq!(entries[2].data, b"new-3");
}

// ── Truncation ────────────────────────────────────────────────────────────────

#[test]
fn truncate_removes_sealed_segments_before_threshold() {
    let mut disk = Disk::default();
    // small to generate several segments
    let mut wal = disk.open(config(80, false));

    for i in 1u64..=20 {
        disk.append(&mut wal, format!("data-{i:03}").as_bytes()).unwrap();
    }

    // Entries 1–9 will be removed; entries 10+ stay
    disk.truncate_before(&mut wal, 10).unwrap();

    let entries = disk.read_from(&wal, 1);
    assert!(
        entries.iter().all(|e| e.sequence >= 10),
        "no entry before threshold should remain"
    );
    assert!(!entries.is_empty(), "entries at and above threshold must survive");
}

// ── Edge cases ────────────────────────────────────────────────────────────────

#[test]
fn empty_payload_is_valid() {
    let mut disk = Disk::default();
    let mut wal = disk.open_wal();
    let seq = disk.append(&mut wal, &[]).unwrap();
    let entries = disk.read_from(&wal, seq);
    assert_eq!(entries.len(), 1);
    assert!(entries[0].data.is_empty());
}

#[test]
fn large_single_entry() {
    let mut disk = Disk::default();
    let mut wal = disk.open(config(1024 * 1024, false)); // 1 MiB
    let big_payload = vec![0xAB_u8; 512 * 1024]; // 512 KiB
    let seq = disk.append(&mut wal, &big_payload).unwrap();
    let entries = disk.read_from(&wal, seq);
    assert_eq!(entries[0].data, big_payload);
}

#[test]
fn fresh_wal_has_no_pending_recovery_entries() {
    let mut disk = Disk::default();
    let wal = disk.open_wal();
    assert!(disk.recover(&wal).is_empty());
}

// ── What is done on disk ──────────────────────────────────────────────────────

#[test]
fn defaults_are_large_segments_and_synced_writes() {
    let config = WalConfig::new("/var/wal".to_string());
    assert_eq!(config.dir, "/var/wal");
    assert_eq!(config.max_segment_bytes, 64 * 1024 * 1024);
    assert!(config.sync_writes);
}

#[test]
fn fresh_wal_creates_its_first_segment() {
    let mut disk = Disk::default();
    let wal = disk.open_wal();
    assert_eq!(wal.next_sequence(), 1);
    assert_eq!(wal.checkpoint_sequence(), 0);
    assert_eq!(wal.segment_files(), vec![seg(1)]);
    assert_eq!(disk.files.keys().cloned().collect::<Vec<String>>(), vec![seg(1)]);
}

#[test]
fn append_writes_then_syncs_or_flushes() {
    let mut disk = Disk::default();
    let wal = disk.open(config(512, true));
    let actions = wal.append_actions(b"x");
    assert_eq!(actions.len(), 2);
    assert!(matches!(&actions[0], FileAction::Append { bytes, .. } if bytes.len() == 17));
    assert!(matches!(&actions[1], FileAction::Sync { .. }));
    let relaxed = disk.open(config(512, false));
    assert!(matches!(&relaxed.append_actions(b"x")[1], FileAction::Flush { .. }));
}

#[test]
fn rotation_syncs_the_old_segment_and_creates_the_next() {
    let mut disk = Disk::default();
    let mut wal = disk.open(config(40, false));
    disk.append(&mut wal, b"abcd").unwrap();
    disk.append(&mut wal, b"efgh").unwrap();
    let actions = wal.append_actions(b"i");
    assert!(matches!(&actions[0], FileAction::Sync { path } if *path == seg(1)));
    assert!(matches!(&actions[1], FileAction::CreateNew { path } if *path == seg(2)));
    assert!(matches!(&actions[2], FileAction::Append { path, .. } if *path == seg(2)));
    assert!(matches!(&actions[3], FileAction::Flush { path } if *path == seg(2)));
    assert_eq!(actions.len(), 4);
    disk.append(&mut wal, b"i").unwrap();
    assert_eq!(wal.segment_files(), vec![seg(1), seg(2)]);
    assert_eq!(disk.files[&seg(1)].len(), 40);
    assert_eq!(disk.files[&seg(2)].len(), 17);
}

#[test]
fn oversized_entry_is_refused_and_nothing_is_lost() {
    let mut disk = Disk::default();
    let mut wal = disk.open(config(40, false));
    disk.append(&mut wal, b"kept").unwrap();
    match disk.append(&mut wal, &[7u8; 25]) {
        Err(WalError::SegmentFull { size, max, entry }) => assert_eq!((size, max, entry), (0, 40, 41)),
        _ => panic!("no segment can hold this entry"),
    }
    assert!(!wal.fits(41));
    assert!(wal.fits(40));
    assert_eq!(wal.next_sequence(), 2);
    assert_eq!(disk.read_from(&wal, 1).len(), 1);
    assert_eq!(disk.append(&mut wal, b"next").unwrap(), 2);
    assert_eq!(disk.read_from(&wal, 1).len(), 2);
}

#[test]
fn failed_append_uses_no_sequence_number() {
    let mut disk = Disk::default();
    let mut wal = disk.open_wal();
    disk.append(&mut wal, b"one").unwrap();
    disk.fail_at = Some(0);
    assert!(matches!(disk.append(&mut wal, b"two"), Err(WalError::Io(IoFault::Other(_)))));
    assert_eq!(wal.next_sequence(), 2);
    disk.fail_at = None;
    assert_eq!(disk.append(&mut wal, b"two").unwrap(), 2);
    let io = disk.perform(&[wal.sync_action()]);
    wal.sync(&io).unwrap();
    assert_eq!(disk.read_from(&wal, 1).len(), 2);
}

#[test]
fn failed_rotation_is_reported() {
    let mut disk = Disk::default();
    let mut wal = disk.open(config(20, false));
    disk.append(&mut wal, b"full").unwrap();
    for at in 0..4 {
        let mut wal = disk.open(config(20, false));
        disk.fail_at = Some(at);
        assert!(matches!(disk.append(&mut wal, b"next"), Err(WalError::Io(IoFault::Other(_)))));
        assert_eq!(wal.next_sequence(), 2);
        disk.fail_at = None;
        // A segment that was to be replaced counts as sealed before its successor is
        // there.
        let segments = match at {
            0 => vec![seg(1)],
            1 => vec![seg(1), seg(1)],
            _ => vec![seg(1), seg(2)],
        };
        assert_eq!(wal.segment_files(), segments);
        let again = disk.open(config(20, false));
        assert_eq!(again.next_sequence(), if at < 3 { 2 } else { 3 });
        assert_eq!(disk.read_from(&again, 1).len(), if at < 3 { 1 } else { 2 });
        if at < 3 {
            assert_eq!(disk.append(&mut wal, b"next").unwrap(), 2);
            let read: Vec<u64> = disk.read_from(&wal, 1).iter().map(|e| e.sequence).collect();
            assert_eq!(read, if at == 1 { vec![1, 1, 2] } else { vec![1, 2] });
        }
        disk.files.remove(&seg(2));
    }
}

#[test]
fn truncation_after_a_failed_rotation_keeps_the_active_segment() {
    let mut disk = Disk::default();
    let mut wal = disk.open(config(20, false));
    disk.append(&mut wal, b"full").unwrap();
    disk.fail_at = Some(1);
    assert!(disk.append(&mut wal, b"next").is_err());
    disk.fail_at = None;
    disk.truncate_before(&mut wal, 100).unwrap();
    assert!(disk.files.contains_key(&seg(1)));
    let again = disk.open(config(20, false));
    assert_eq!(again.next_sequence(), 2);
    assert_eq!(disk.read_from(&again, 1).len(), 1);
}

#[test]
fn unsettled_entry_is_found_at_a_restart() {
    let mut disk = Disk::default();
    let mut wal = disk.open(config(512, true));
    disk.append(&mut wal, b"first").unwrap();
    disk.fail_at = Some(1);
    assert!(matches!(disk.append(&mut wal, b"second"), Err(WalError::Io(IoFault::Other(_)))));
    disk.fail_at = None;
    assert_eq!(wal.next_sequence(), 2);
    let again = disk.open(config(512, true));
    assert_eq!(again.next_sequence(), 3);
    assert_eq!(disk.read_from(&again, 2)[0].data, b"second");
}

#[test]
fn failed_checkpoint_changes_nothing() {
    for at in 0..2 {
        let mut disk = Disk::default();
        let mut wal = disk.open_wal();
        for _ in 0..3 {
            disk.append(&mut wal, b"x").unwrap();
        }
        disk.checkpoint(&mut wal, 1);
        disk.fail_at = Some(at);
        let io = disk.perform(&wal.checkpoint_actions(2));
        assert!(matches!(wal.checkpoint(2, &io), Err(WalError::Io(IoFault::Other(_)))));
        disk.fail_at = None;
        assert_eq!(wal.checkpoint_sequence(), 1);
        assert_eq!(disk.recover(&wal).len(), 2);
        assert_eq!(disk.append(&mut wal, b"y").unwrap(), 4);
        let again = disk.open_wal();
        assert_eq!(again.checkpoint_sequence(), 1);
        assert_eq!(disk.recover(&again).len(), 3);
    }
}

#[test]
fn failed_truncation_is_put_right_by_a_restart() {
    let mut disk = Disk::default();
    let mut wal = disk.open(config(80, false));
    for i in 1u64..=20 {
        disk.append(&mut wal, format!("data-{i:03}").as_bytes()).unwrap();
    }
    let later = disk.read_from(&wal, 12);
    let listed = wal.segment_files();
    disk.fail_at = Some(1);
    assert!(matches!(disk.truncate_before(&mut wal, 12), Err(WalError::Io(IoFault::Other(_)))));
    disk.fail_at = None;
    // The WAL still lists the segment that went.
    assert_eq!(wal.segment_files(), listed);
    assert!(!disk.files.contains_key(&seg(1)));
    let files = disk.files();
    assert!(matches!(wal.read_from(12, &files), Err(WalError::Io(IoFault::NotFound))));
    assert_eq!(disk.append(&mut wal, b"more").unwrap(), 21);
    let again = disk.open(config(80, false));
    assert_eq!(again.segment_files(), listed[1..]);
    assert_eq!(again.next_sequence(), 22);
    assert_eq!(disk.read_from(&again, 12)[..later.len()], later[..]);
}

#[test]
fn truncation_keeps_what_is_read_from_the_threshold_on() {
    let mut disk = Disk::default();
    let mut wal = disk.open(config(80, false));
    for i in 1u64..=20 {
        disk.append(&mut wal, format!("data-{i:03}").as_bytes()).unwrap();
    }
    let before = disk.read_from(&wal, 8);
    disk.truncate_before(&mut wal, 8).unwrap();
    assert_eq!(disk.read_from(&wal, 8), before);
    // Segments hold three entries each: 7 to 9 share one.
    assert_eq!(disk.read_from(&wal, 1)[0].sequence, 7);
    assert!(!disk.files.contains_key(&seg(2)));
    assert!(disk.files.contains_key(&seg(3)));
    let again = disk.open(config(80, false));
    assert_eq!(again.next_sequence(), 21);
    assert_eq!(disk.read_from(&again, 8), before);
}

#[test]
fn truncation_never_touches_the_active_segment() {
    let mut disk = Disk::default();
    let mut wal = disk.open_wal();
    disk.append(&mut wal, b"a").unwrap();
    disk.truncate_before(&mut wal, u64::MAX).unwrap();
    assert_eq!(disk.read_from(&wal, 1).len(), 1);
}

#[test]
fn truncation_stops_at_an_unreadable_segment() {
    let mut disk = Disk::default();
    let mut wal = disk.open(config(20, false));
    for _ in 0..4 {
        disk.append(&mut wal, b"abcd").unwrap();
    }
    disk.files.get_mut(&seg(2)).unwrap().truncate(5);
    assert!(matches!(disk.truncate_before(&mut wal, 4), Err(WalError::UnexpectedEof { offset: 0 })));
    assert!(!disk.files.contains_key(&seg(1)));
    assert_eq!(wal.segment_files().len(), 4);
}

#[test]
fn torn_last_entry_is_cut_off() {
    let mut disk = Disk::default();
    let mut wal = disk.open_wal();
    disk.append(&mut wal, b"whole").unwrap();
    disk.append(&mut wal, b"torn").unwrap();
    disk.files.get_mut(&seg(1)).unwrap().truncate(21 + 18);
    let torn = disk.files();
    let mut again = disk.open_wal();
    assert_eq!(disk.files[&seg(1)].len(), 21);
    assert_eq!(again.next_sequence(), 2);
    let entries = disk.read_from(&again, 1);
    assert_eq!(entries.len(), 1);
    assert_eq!(entries[0].sequence, 1);
    assert_eq!(entries[0].data, b"whole");
    // Only opening passes over it: to an open WAL an incomplete entry is an error.
    assert!(matches!(again.read_from(1, &torn), Err(WalError::UnexpectedEof { offset: 21 })));
    assert!(matches!(again.recover(&torn), Err(WalError::UnexpectedEof { offset: 21 })));
    assert_eq!(disk.append(&mut again, b"second").unwrap(), 2);
    let last = disk.open_wal();
    assert_eq!(disk.read_from(&last, 1).len(), 2);
    assert_eq!(disk.read_from(&last, 2)[0].data, b"second");
}

#[test]
fn torn_entry_that_cannot_be_cut_off_is_an_error() {
    let mut disk = Disk::default();
    let mut wal = disk.open_wal();
    disk.append(&mut wal, b"torn").unwrap();
    disk.files.get_mut(&seg(1)).unwrap().truncate(3);
    disk.fail_at = Some(1);
    let result = disk.try_open(config(512, false)).unwrap();
    assert!(matches!(result, Err(WalError::Io(IoFault::Other(_)))));
    disk.fail_at = None;
    assert_eq!(disk.open_wal().next_sequence(), 1);
}

#[test]
fn sealed_segment_that_was_cut_short_is_an_error() {
    let mut disk = Disk::default();
    let mut wal = disk.open(config(20, false));
    for _ in 0..3 {
        disk.append(&mut wal, b"abcd").unwrap();
    }
    disk.files.get_mut(&seg(2)).unwrap().truncate(5);
    let again = disk.open(config(20, false));
    assert_eq!(again.next_sequence(), 4);
    let result = again.read_from(1, &disk.files());
    assert!(matches!(result, Err(WalError::UnexpectedEof { offset: 0 })));
}

#[test]
fn damaged_last_entry_keeps_the_wal_from_opening() {
    let mut disk = Disk::default();
    let mut wal = disk.open_wal();
    disk.append(&mut wal, b"whole").unwrap();
    disk.append(&mut wal, b"damaged").unwrap();
    *disk.files.get_mut(&seg(1)).unwrap().last_mut().unwrap() ^= 1;
    let result = disk.try_open(config(512, false)).unwrap();
    assert!(matches!(result, Err(WalError::ChecksumMismatch { offset: 21, .. })));
}

#[test]
fn dropped_numbers_are_not_given_out_again() {
    let mut disk = Disk::default();
    let mut wal = disk.open(config(80, false));
    assert_eq!(disk.append(&mut wal, b"x").unwrap(), 1);
    // Too large for any segment: the WAL rotates, and the active segment is empty.
    assert!(matches!(disk.append(&mut wal, &[0u8; 65]), Err(WalError::SegmentFull { .. })));
    let actions = wal.truncate_actions(2, &disk.files());
    assert_eq!(actions.len(), 4);
    assert!(matches!(&actions[0], FileAction::Write { path, bytes }
        if path == "/data/sequence.tmp" && *bytes == entry::encode(2, b"")));
    assert!(matches!(&actions[1], FileAction::Sync { path } if path == "/data/sequence.tmp"));
    assert!(matches!(&actions[2], FileAction::Rename { to, .. } if to == "/data/sequence"));
    assert!(matches!(&actions[3], FileAction::Remove { path } if *path == seg(1)));
    let before = disk.files.clone();
    for done in 0..=actions.len() {
        disk.files = before.clone();
        disk.perform(&actions[..done]);
        assert_eq!(disk.open(config(80, false)).next_sequence(), 2);
    }
    disk.files = before;
    disk.truncate_before(&mut wal, 2).unwrap();
    assert!(disk.read_from(&wal, 0).is_empty());
    let mut again = disk.open(config(80, false));
    assert_eq!(again.next_sequence(), 2);
    assert_eq!(disk.append(&mut again, b"y").unwrap(), 2);
    assert_eq!(disk.open(config(80, false)).next_sequence(), 3);
}

#[test]
fn truncation_without_a_recorded_number_is_reported() {
    for at in 0..4 {
        let mut disk = Disk::default();
        let mut wal = disk.open(config(80, false));
        disk.append(&mut wal, b"x").unwrap();
        assert!(disk.append(&mut wal, &[0u8; 65]).is_err());
        disk.fail_at = Some(at);
        assert!(matches!(disk.truncate_before(&mut wal, 2), Err(WalError::Io(IoFault::Other(_)))));
        assert_eq!(wal.segment_files(), vec![seg(1), seg(2)]);
        disk.fail_at = None;
        assert_eq!(disk.read_from(&wal, 1).len(), 1);
    }
}

#[test]
fn unreadable_records_keep_the_wal_from_opening() {
    for name in ["/data/checkpoint", "/data/sequence"] {
        let mut disk = Disk::default();
        disk.open_wal();
        let mut files = disk.files();
        files.add(name.to_string(), Err(IoFault::Other("bad sector".to_string())));
        let wal = Wal::try_open(config(512, false), &files, &Outcome::Done).unwrap();
        assert!(matches!(wal, Err(WalError::Io(IoFault::Other(_)))));
    }
}

#[test]
fn recorded_number_counts_only_without_an_entry() {
    let foreign: [&[u8]; 4] = [b"", b"42", &[7u8; 8], &[7u8; 40]];
    for contents in foreign {
        let mut disk = Disk::default();
        disk.files.insert("/data/sequence".to_string(), contents.to_vec());
        assert_eq!(disk.open_wal().next_sequence(), 1);
    }
    let mut disk = Disk::default();
    disk.files.insert("/data/sequence".to_string(), entry::encode(9, b""));
    let mut wal = disk.open_wal();
    assert_eq!(wal.next_sequence(), 9);
    disk.append(&mut wal, b"x").unwrap();
    disk.files.insert("/data/sequence".to_string(), entry::encode(50, b""));
    assert_eq!(disk.open_wal().next_sequence(), 10);
    let mut files = Files::new();
    files.add("/data/sequence".to_string(), Err(IoFault::Other("bad sector".to_string())));
    files.add(seg(1), Ok(disk.files[&seg(1)].clone()));
    let again = Wal::try_open(config(512, false), &files, &Outcome::Done).unwrap().unwrap();
    assert_eq!(again.next_sequence(), 10);
}

#[test]
fn errors_before_the_names_matter_come_first() {
    let mut disk = Disk::default();
    disk.files.insert("/data/wal-x.seg".to_string(), Vec::new());
    disk.files.insert("/data/wal-y.seg".to_string(), Vec::new());
    let mut files = disk.files();
    files.add("/data/checkpoint".to_string(), Err(IoFault::Other("bad sector".to_string())));
    let wal = Wal::try_open(config(512, false), &files, &Outcome::Done).unwrap();
    assert!(matches!(wal, Err(WalError::Io(IoFault::Other(_)))));
    // Used-up numbers do not matter either where the last segment does not open.
    let mut disk = Disk::default();
    disk.files.insert(seg(1), replicated_wal::wal_core::entry::encode(u64::MAX, b"last"));
    disk.fail_at = Some(0);
    let wal = disk.try_open(config(512, false)).unwrap();
    assert!(matches!(wal, Err(WalError::Io(IoFault::Other(_)))));
}

#[test]
fn nothing_is_above_the_highest_checkpoint() {
    let mut disk = Disk::default();
    let mut wal = disk.open_wal();
    disk.append(&mut wal, b"a").unwrap();
    disk.checkpoint(&mut wal, u64::MAX);
    assert!(disk.recover(&wal).is_empty());
    let again = disk.open_wal();
    assert_eq!(again.checkpoint_sequence(), u64::MAX);
    assert!(disk.recover(&again).is_empty());
    assert_eq!(disk.read_from(&again, 1).len(), 1);
}

#[test]
fn empty_active_segment_continues_from_the_sealed_ones() {
    let mut disk = Disk::default();
    let mut wal = disk.open_wal();
    disk.append(&mut wal, b"a").unwrap();
    disk.append(&mut wal, b"b").unwrap();
    disk.files.insert(seg(2), Vec::new());
    let again = disk.open_wal();
    assert_eq!(again.next_sequence(), 3);
    let found = highest_sequence_on_disk(&seg(2), &vec![1], DIR, &disk.files()).unwrap();
    assert_eq!(found, Some(2));
    let none = highest_sequence_on_disk(&seg(2), &vec![], DIR, &disk.files()).unwrap();
    assert_eq!(none, None);
}

#[test]
fn unnumbered_segment_before_the_last_cannot_be_opened() {
    let mut disk = Disk::default();
    disk.files.insert("/data/wal-x.seg".to_string(), Vec::new());
    disk.files.insert("/data/wal-y.seg".to_string(), Vec::new());
    assert!(disk.try_open(config(512, false)).is_none());
    disk.files.remove("/data/wal-y.seg");
    let result = disk.try_open(config(512, false)).unwrap();
    assert!(matches!(result, Err(WalError::InvalidSegmentFilename { .. })));
}

#[test]
fn used_up_sequence_numbers_cannot_be_opened() {
    let mut disk = Disk::default();
    let last = replicated_wal::wal_core::entry::encode(u64::MAX, b"last");
    disk.files.insert(seg(1), last);
    assert!(disk.try_open(config(512, false)).is_none());
}

#[test]
fn crash_in_an_append_loses_at_most_the_new_entry() {
    let mut disk = Disk::default();
    let mut wal = disk.open_wal();
    disk.append(&mut wal, b"old").unwrap();
    let whole = disk.files[&seg(1)].clone();
    disk.append(&mut wal, b"new").unwrap();
    let longer = disk.files[&seg(1)].clone();
    for kept in whole.len()..=longer.len() {
        disk.files.insert(seg(1), longer[..kept].to_vec());
        let again = disk.open_wal();
        let expected = if kept < longer.len() { 1 } else { 2 };
        assert_eq!(disk.read_from(&again, 1).len(), expected);
        assert_eq!(again.next_sequence(), expected as u64 + 1);
        assert!(disk.files[&seg(1)] == whole || disk.files[&seg(1)] == longer);
    }
}

#[test]
fn crash_in_a_truncation_keeps_later_entries() {
    let mut disk = Disk::default();
    let mut wal = disk.open(config(80, false));
    for i in 1u64..=20 {
        disk.append(&mut wal, format!("data-{i:03}").as_bytes()).unwrap();
    }
    let later = disk.read_from(&wal, 12);
    let actions = wal.truncate_actions(12, &disk.files());
    assert_eq!(actions.len(), 3);
    let before = disk.files.clone();
    for done in 0..=actions.len() {
        disk.files = before.clone();
        disk.perform(&actions[..done]);
        let again = disk.open(config(80, false));
        assert_eq!(again.next_sequence(), 21);
        assert_eq!(disk.read_from(&again, 12), later);
    }
}

#[test]
fn crash_in_a_checkpoint_keeps_the_old_or_the_new_one() {
    let mut disk = Disk::default();
    let mut wal = disk.open_wal();
    for _ in 0..3 {
        disk.append(&mut wal, b"x").unwrap();
    }
    disk.checkpoint(&mut wal, 1);
    let actions = wal.checkpoint_actions(2);
    disk.perform(&actions[..1]);
    assert_eq!(disk.open_wal().checkpoint_sequence(), 1);
    disk.perform(&actions[1..]);
    let again = disk.open_wal();
    assert_eq!(again.checkpoint_sequence(), 2);
    assert_eq!(disk.recover(&again).len(), 1);
}

#[test]
fn wal_reopens_as_it_is_after_every_step() {
    let mut disk = Disk::default();
    let mut wal = disk.open(config(80, false));
    for step in 0u64..40 {
        match step % 8 {
            5 => disk.checkpoint(&mut wal, step / 2),
            6 => disk.truncate_before(&mut wal, step / 2).unwrap(),
            7 => assert!(disk.append(&mut wal, &[0u8; 65]).is_err()),
            _ => {
                let before = disk.read_from(&wal, 0);
                let next = wal.next_sequence();
                assert_eq!(disk.append(&mut wal, format!("data-{step:03}").as_bytes()).unwrap(), next);
                assert_eq!(wal.next_sequence(), next + 1);
                let after = disk.read_from(&wal, 0);
                assert_eq!(after[..before.len()], before[..]);
                assert_eq!(after.len(), before.len() + 1);
            }
        }
        let again = disk.open(config(80, false));
        assert_eq!(again.next_sequence(), wal.next_sequence());
        assert_eq!(again.checkpoint_sequence(), wal.checkpoint_sequence());
        assert_eq!(again.segment_files(), wal.segment_files());
        assert_eq!(disk.read_from(&again, 0), disk.read_from(&wal, 0));
    }
}

#[test]
fn entries_survive_crashes_at_every_byte() {
    let mut disk = Disk::default();
    let mut wal = disk.open(config(80, false));
    for round in 1u64..=6 {
        let actions = wal.append_actions(b"data-000");
        let before = disk.files.clone();
        // Stop before each action, and in the middle of each append.
        for (at, action) in actions.iter().enumerate() {
            disk.files = before.clone();
            disk.perform(&actions[..at]);
            if let FileAction::Append { path, bytes } = action {
                for kept in 0..bytes.len() {
                    disk.files = before.clone();
                    disk.perform(&actions[..at]);
                    disk.files.get_mut(path).unwrap().extend_from_slice(&bytes[..kept]);
                    let again = disk.open(config(80, false));
                    assert_eq!(again.next_sequence(), round);
                    assert_eq!(disk.read_from(&again, 1).len() as u64, round - 1);
                }
            } else {
                let again = disk.open(config(80, false));
                assert!(again.next_sequence() == round || again.next_sequence() == round + 1);
            }
        }
        disk.files = before;
        wal = disk.open(config(80, false));
        disk.append(&mut wal, b"data-000").unwrap();
    }
}

/// A disk that remembers how much of each file has reached the device.
#[derive(Default, Clone)]
struct Device {
    files: BTreeMap<String, Vec<u8>>,
    synced: BTreeMap<String, usize>,
}

impl Device {
    fn perform(&mut self, action: &FileAction) {
        let mut disk = Disk { files: std::mem::take(&mut self.files), fail_at: None };
        disk.perform(std::slice::from_ref(action));
        self.files = disk.files;
        match action {
            FileAction::CreateNew { path } | FileAction::Write { path, .. } => {
                self.synced.insert(path.clone(), 0);
            }
            FileAction::Sync { path } => {
                self.synced.insert(path.clone(), self.files[path].len());
            }
            FileAction::Rename { from, to } => {
                let synced = self.synced.remove(from).unwrap();
                self.synced.insert(to.clone(), synced);
            }
            FileAction::Remove { path } => {
                self.synced.remove(path);
            }
            _ => {}
        }
    }

    /// What a loss of power leaves at the worst: all that was not synced is gone. Of
    /// one file, `kept` bytes more are there.
    fn cut(&self, lucky: &str, kept: usize) -> Disk {
        let mut files = BTreeMap::new();
        for (path, bytes) in &self.files {
            let more = if path == lucky { kept } else { 0 };
            let left = (self.synced[path] + more).min(bytes.len());
            files.insert(path.clone(), bytes[..left].to_vec());
        }
        Disk { files, fail_at: None }
    }
}

#[test]
fn acknowledged_entries_survive_a_loss_of_power() {
    let mut device = Device::default();
    let opening = config(80, true);
    for action in Wal::open_actions(&opening, &Files::new()) {
        device.perform(&action);
    }
    let mut wal = Wal::try_open(opening, &Files::new(), &Outcome::Done).unwrap().unwrap();
    for round in 1u64..=12 {
        if round == 7 {
            for action in wal.checkpoint_actions(5) {
                device.perform(&action);
            }
            wal.checkpoint(5, &Outcome::Done).unwrap();
            // The checkpoint itself is not synced, and falls back.
            assert_eq!(device.cut("", 0).open(config(80, true)).checkpoint_sequence(), 0);
            assert_eq!(device.cut("/data/checkpoint", 8).open(config(80, true)).checkpoint_sequence(), 5);
        }
        let data = format!("data-{round:03}");
        for action in wal.append_actions(data.as_bytes()) {
            device.perform(&action);
            for path in device.files.keys() {
                for kept in 0..=24 {
                    let mut disk = device.cut(path, kept);
                    let again = disk.open(config(80, true));
                    let next = again.next_sequence();
                    assert!(next == round || next == round + 1);
                    let read: Vec<u64> =
                        disk.read_from(&again, 0).iter().map(|e| e.sequence).collect();
                    assert_eq!(read, (1..next).collect::<Vec<u64>>());
                }
            }
        }
        assert_eq!(wal.append(data.as_bytes(), &Outcome::Done).unwrap(), round);
        // Once the append has returned, the entry is there whatever is lost.
        let mut disk = device.cut("", 0);
        let again = disk.open(config(80, true));
        assert_eq!(again.next_sequence(), round + 1);
        assert_eq!(disk.read_from(&again, round)[0].data, data.as_bytes());
    }
}

#[test]
fn dropped_numbers_survive_a_loss_of_power() {
    let mut device = Device::default();
    let opening = config(80, true);
    for action in Wal::open_actions(&opening, &Files::new()) {
        device.perform(&action);
    }
    let mut wal = Wal::try_open(opening, &Files::new(), &Outcome::Done).unwrap().unwrap();
    for data in [&b"x"[..], &[0u8; 65]] {
        for action in wal.append_actions(data) {
            device.perform(&action);
        }
        let _ = wal.append(data, &Outcome::Done);
    }
    let files = device.cut("", 0).files();
    for action in wal.truncate_actions(2, &files) {
        device.perform(&action);
        assert_eq!(device.cut("", 0).open(config(80, true)).next_sequence(), 2);
    }
}
