use std::collections::BTreeMap;

use replicated_wal::storage::{FileAction, Files, IoFault, Outcome};
use replicated_wal::wal_replication::raft::log::LogEntry;
use replicated_wal::wal_replication::raft::snapshot::{decode_entries, encode_entries, Snapshot};

const DIR: &str = "/node";

#[derive(Default)]
struct Disk {
    files: BTreeMap<String, Vec<u8>>,
    fail_at: Option<usize>,
}

impl Disk {
    fn perform(&mut self, actions: &[FileAction]) -> Outcome {
        for (at, action) in actions.iter().enumerate() {
            if self.fail_at == Some(at) {
                return Outcome::Failed { at, fault: IoFault::Other("disk full".to_string()) };
            }
            match action {
                FileAction::Write { path, bytes } => {
                    self.files.insert(path.clone(), bytes.clone());
                }
                FileAction::Sync { path } => assert!(self.files.contains_key(path)),
                FileAction::Rename { from, to } => {
                    let bytes = self.files.remove(from).unwrap();
                    self.files.insert(to.clone(), bytes);
                }
                _ => panic!("a snapshot is written, synced and renamed"),
            }
        }
        Outcome::Done
    }

    fn files(&self) -> Files {
        let mut files = Files::new();
        for (path, bytes) in &self.files {
            files.add(path.clone(), Ok(bytes.clone()));
        }
        files
    }

    fn save(&mut self, snap: &Snapshot) -> Result<(), IoFault> {
        let io = self.perform(&snap.save_actions(DIR));
        snap.save(&io)
    }

    fn load(&self) -> Result<Option<Snapshot>, IoFault> {
        Snapshot::load(DIR, &self.files())
    }
}

#[test]
fn save_and_load_roundtrip() {
    let mut disk = Disk::default();
    let snap = Snapshot {
        last_included_index: 42,
        last_included_term: 3,
        data: b"hello snapshot".to_vec(),
    };
    disk.save(&snap).unwrap();
    let loaded = disk.load().unwrap().unwrap();
    assert_eq!(loaded.last_included_index, 42);
    assert_eq!(loaded.last_included_term, 3);
    assert_eq!(loaded.data, b"hello snapshot");
}

#[test]
fn load_returns_none_when_missing() {
    assert!(Disk::default().load().unwrap().is_none());
}

#[test]
fn encode_decode_entries_roundtrip() {
    let entries = vec![
        LogEntry { index: 1, term: 1, data: b"a".to_vec() },
        LogEntry { index: 2, term: 1, data: b"bb".to_vec() },
        LogEntry { index: 3, term: 2, data: b"ccc".to_vec() },
    ];
    let bytes = encode_entries(&entries);
    let decoded = decode_entries(&bytes).unwrap();
    assert_eq!(decoded.len(), 3);
    assert_eq!(decoded[2].data, b"ccc");
    assert_eq!(decoded, entries);
}

/// Snapshot file survives a process crash (save → load roundtrip).
#[test]
fn snapshot_save_load_is_crash_safe() {
    let mut disk = Disk::default();
    let data: Vec<u8> = (0u8..64).collect();
    let snap = Snapshot { last_included_index: 500, last_included_term: 7, data: data.clone() };
    disk.save(&snap).unwrap();

    let loaded = disk.load().unwrap().unwrap();
    assert_eq!(loaded.last_included_index, 500);
    assert_eq!(loaded.last_included_term, 7);
    assert_eq!(loaded.data, data);
}

#[test]
fn failed_save_keeps_the_old_snapshot() {
    let mut disk = Disk::default();
    let old = Snapshot { last_included_index: 1, last_included_term: 1, data: vec![1] };
    disk.save(&old).unwrap();
    let new = Snapshot { last_included_index: 2, last_included_term: 2, data: vec![2] };
    for at in 0..3 {
        disk.fail_at = Some(at);
        assert!(matches!(disk.save(&new), Err(IoFault::Other(_))));
        assert_eq!(disk.load().unwrap().unwrap().last_included_index, 1);
    }
    disk.fail_at = None;
    disk.save(&new.clone()).unwrap();
    assert_eq!(disk.load().unwrap().unwrap().data, vec![2]);
}

#[test]
fn file_holds_index_term_length_and_data() {
    let mut disk = Disk::default();
    let snap = Snapshot { last_included_index: 1, last_included_term: 2, data: vec![9, 8] };
    disk.save(&snap).unwrap();
    assert_eq!(
        disk.files.get("/node/snapshot"),
        Some(&vec![1, 0, 0, 0, 0, 0, 0, 0, 2, 0, 0, 0, 0, 0, 0, 0, 2, 0, 0, 0, 9, 8])
    );
    assert!(!disk.files.contains_key("/node/snapshot.tmp"));
}

#[test]
fn damaged_snapshots_are_refused() {
    let mut disk = Disk::default();
    let path = "/node/snapshot".to_string();
    disk.files.insert(path.clone(), vec![0; 19]);
    match disk.load() {
        Err(IoFault::InvalidData(why)) => assert_eq!(why, "snapshot file too short"),
        _ => panic!("too short a file was accepted"),
    }
    let mut raw = vec![0; 16];
    raw.extend_from_slice(&[3, 0, 0, 0, 1, 2]);
    disk.files.insert(path.clone(), raw);
    match disk.load() {
        Err(IoFault::InvalidData(why)) => assert_eq!(why, "snapshot data truncated"),
        _ => panic!("a truncated file was accepted"),
    }
    let mut files = Files::new();
    files.add(path, Err(IoFault::Other("denied".to_string())));
    assert!(matches!(Snapshot::load(DIR, &files), Err(IoFault::Other(_))));
}

#[test]
fn entries_are_a_count_and_one_block_each() {
    let entries = vec![LogEntry { index: 5, term: 6, data: vec![7] }];
    assert_eq!(
        encode_entries(&entries),
        vec![1, 0, 0, 0, 5, 0, 0, 0, 0, 0, 0, 0, 6, 0, 0, 0, 0, 0, 0, 0, 1, 0, 0, 0, 7]
    );
    assert_eq!(encode_entries(&[]), vec![0, 0, 0, 0]);
}

#[test]
fn incomplete_entries_are_refused() {
    let entries = vec![
        LogEntry { index: 1, term: 1, data: b"abc".to_vec() },
        LogEntry { index: 2, term: 1, data: b"de".to_vec() },
    ];
    let bytes = encode_entries(&entries);
    for kept in 4..bytes.len() {
        assert!(decode_entries(&bytes[..kept]).is_none());
    }
    for kept in 0..4 {
        assert_eq!(decode_entries(&bytes[..kept]), Some(vec![]));
    }
    let mut longer = bytes;
    longer.push(1);
    assert_eq!(decode_entries(&longer), Some(entries));
}
