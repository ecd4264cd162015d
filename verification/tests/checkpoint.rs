use std::collections::BTreeMap;

use replicated_wal::storage::{FileAction, Files, IoFault, Outcome};
use replicated_wal::wal_core::checkpoint::Checkpoint;
use replicated_wal::wal_core::error::WalError;

const DIR: &str = "/data";

#[derive(Default)]
struct Disk {
    files: BTreeMap<String, Vec<u8>>,
    fail_at: Option<usize>,
}

impl Disk {
    fn perform(&mut self, actions: &[FileAction]) -> Outcome {
        for (at, action) in actions.iter().enumerate() {
            if self.fail_at == Some(at) {
                return Outcome::Failed { at, fault: IoFault::Other("disk full".to_string()) };
            }
            match action {
                FileAction::Write { path, bytes } => {
                    self.files.insert(path.clone(), bytes.clone());
                }
                FileAction::Rename { from, to } => {
                    let bytes = self.files.remove(from).unwrap();
                    self.files.insert(to.clone(), bytes);
                }
                _ => panic!("a checkpoint is written and renamed"),
            }
        }
        Outcome::Done
    }

    fn files(&self) -> Files {
        let mut files = Files::new();
        for (path, bytes) in &self.files {
            files.add(path.clone(), Ok(bytes.clone()));
        }
        files
    }

    fn open(&self) -> Checkpoint {
        Checkpoint::open(DIR, &self.files()).unwrap()
    }

    fn advance(&mut self, cp: &mut Checkpoint, sequence: u64) -> Result<(), WalError> {
        let io = self.perform(&cp.advance_actions(sequence));
        cp.advance(sequence, &io)
    }
}

#[test]
fn starts_at_zero_on_fresh_dir() {
    let disk = Disk::default();
    let cp = disk.open();
    assert_eq!(cp.sequence(), 0);
}

#[test]
fn persists_across_reopen() {
    let mut disk = Disk::default();
    {
        let mut cp = disk.open();
        disk.advance(&mut cp, 100).unwrap();
    }
    let cp = disk.open();
    assert_eq!(cp.sequence(), 100);
}

#[test]
fn advance_is_monotonic() {
    let mut disk = Disk::default();
    let mut cp = disk.open();
    disk.advance(&mut cp, 50).unwrap();
    disk.advance(&mut cp, 30).unwrap(); // should be a no-op
    assert_eq!(cp.sequence(), 50);
    assert_eq!(disk.open().sequence(), 50);
}

#[test]
fn advance_same_value_is_idempotent() {
    let mut disk = Disk::default();
    let mut cp = disk.open();
    disk.advance(&mut cp, 7).unwrap();
    disk.advance(&mut cp, 7).unwrap();
    assert_eq!(cp.sequence(), 7);
}

#[test]
fn file_holds_eight_little_endian_bytes() {
    let mut disk = Disk::default();
    let mut cp = disk.open();
    disk.advance(&mut cp, 0x0A0B).unwrap();
    assert_eq!(disk.files.get("/data/checkpoint"), Some(&vec![0x0B, 0x0A, 0, 0, 0, 0, 0, 0]));
    assert_eq!(disk.files.len(), 1);
}

#[test]
fn truncated_checkpoint_file_counts_as_zero() {
    let mut disk = Disk::default();
    disk.files.insert("/data/checkpoint".to_string(), vec![1, 2, 3, 4, 5, 6, 7]);
    assert_eq!(disk.open().sequence(), 0);
}

#[test]
fn failed_advance_leaves_the_checkpoint() {
    let mut disk = Disk::default();
    let mut cp = disk.open();
    disk.advance(&mut cp, 5).unwrap();
    for at in 0..2 {
        disk.fail_at = Some(at);
        let result = disk.advance(&mut cp, 9);
        assert!(matches!(result, Err(WalError::Io(IoFault::Other(_)))));
        assert_eq!(cp.sequence(), 5);
        assert_eq!(disk.open().sequence(), 5);
    }
}

#[test]
fn unreadable_checkpoint_is_an_error() {
    let mut files = Files::new();
    files.add("/data/checkpoint".to_string(), Err(IoFault::Other("denied".to_string())));
    let result = Checkpoint::open(DIR, &files);
    assert!(matches!(result, Err(WalError::Io(IoFault::Other(_)))));
}
