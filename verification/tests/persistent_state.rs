use std::collections::BTreeMap;

use replicated_wal::storage::{FileAction, Files, IoFault, Outcome};
use replicated_wal::wal_replication::error::RaftError;
use replicated_wal::wal_replication::persistent_state::{decode, encode, PersistentState};

const DIR: &str = "/node";

#[derive(Default)]
struct Disk {
    files: BTreeMap<String, Vec<u8>>,
    fail_at: Option<usize>,
}

impl Disk {
    fn perform(&mut self, actions: &[FileAction]) -> Outcome {
        for (at, action) in actions.iter().enumerate() {
            if self.fail_at == Some(at) {
                return Outcome::Failed { at, fault: IoFault::Other("disk full".to_string()) };
            }
            match action {
                FileAction::Write { path, bytes } => {
                    self.files.insert(path.clone(), bytes.clone());
                }
                FileAction::Rename { from, to } => {
                    let bytes = self.files.remove(from).unwrap();
                    self.files.insert(to.clone(), bytes);
                }
                _ => panic!("the state is written and renamed"),
            }
        }
        Outcome::Done
    }

    fn open(&self) -> PersistentState {
        let mut files = Files::new();
        for (path, bytes) in &self.files {
            files.add(path.clone(), Ok(bytes.clone()));
        }
        PersistentState::open(DIR, &files).unwrap()
    }

    fn advance_term(&mut self, s: &mut PersistentState, term: u64) -> Result<(), RaftError> {
        let io = self.perform(&s.advance_term_actions(term));
        s.advance_term(term, &io)
    }

    fn record_vote(&mut self, s: &mut PersistentState, name: &str) -> Result<(), RaftError> {
        let name = name.to_string();
        let io = self.perform(&s.record_vote_actions(&name));
        s.record_vote(name, &io)
    }
}

#[test]
fn fresh_dir_is_term_zero_no_vote() {
    let s = Disk::default().open();
    assert_eq!(s.current_term, 0);
    assert!(s.voted_for.is_none());
}

#[test]
fn persists_and_reloads() {
    let mut disk = Disk::default();
    {
        let mut s = disk.open();
        disk.advance_term(&mut s, 5).unwrap();
        disk.record_vote(&mut s, "node-2").unwrap();
    }
    let s = disk.open();
    assert_eq!(s.current_term, 5);
    assert_eq!(s.voted_for.as_deref(), Some("node-2"));
}

#[test]
fn advance_term_clears_vote() {
    let mut disk = Disk::default();
    let mut s = disk.open();
    disk.advance_term(&mut s, 3).unwrap();
    disk.record_vote(&mut s, "node-1").unwrap();
    disk.advance_term(&mut s, 4).unwrap();
    assert!(s.voted_for.is_none());
    assert!(disk.open().voted_for.is_none());
}

#[test]
fn file_holds_term_length_and_name() {
    let mut disk = Disk::default();
    let mut s = disk.open();
    disk.advance_term(&mut s, 258).unwrap();
    disk.record_vote(&mut s, "n2").unwrap();
    assert_eq!(
        disk.files.get("/node/raft_state.bin"),
        Some(&vec![2, 1, 0, 0, 0, 0, 0, 0, 2, 0, 0, 0, b'n', b'2'])
    );
}

#[test]
fn names_of_any_script_come_back() {
    let mut disk = Disk::default();
    let mut s = disk.open();
    disk.record_vote(&mut s, "nœud-π").unwrap();
    assert_eq!(disk.open().voted_for.as_deref(), Some("nœud-π"));
}

#[test]
fn damaged_files_state_no_vote() {
    let mut disk = Disk::default();
    let path = "/node/raft_state.bin".to_string();
    // too short
    disk.files.insert(path.clone(), vec![9; 11]);
    assert_eq!(disk.open().current_term, 0);
    // name cut off
    disk.files.insert(path.clone(), vec![9, 0, 0, 0, 0, 0, 0, 0, 3, 0, 0, 0, b'n', b'o']);
    let s = disk.open();
    assert_eq!(s.current_term, 9);
    assert!(s.voted_for.is_none());
    // no UTF-8
    disk.files.insert(path, vec![9, 0, 0, 0, 0, 0, 0, 0, 2, 0, 0, 0, 0xFF, 0xFE]);
    let s = disk.open();
    assert_eq!(s.current_term, 9);
    assert!(s.voted_for.is_none());
}

#[test]
fn failed_persist_keeps_the_new_state_in_memory() {
    let mut disk = Disk::default();
    let mut s = disk.open();
    disk.advance_term(&mut s, 1).unwrap();
    disk.fail_at = Some(1);
    assert!(matches!(disk.advance_term(&mut s, 2), Err(RaftError::Io(IoFault::Other(_)))));
    assert_eq!(s.current_term, 2);
    assert!(matches!(disk.record_vote(&mut s, "x"), Err(RaftError::Io(IoFault::Other(_)))));
    assert_eq!(s.voted_for.as_deref(), Some("x"));
    // On disk the old state stands.
    assert_eq!(disk.open().current_term, 1);
    disk.fail_at = None;
    let io = disk.perform(&s.persist_actions());
    s.persist(&io).unwrap();
    assert_eq!(disk.open().voted_for.as_deref(), Some("x"));
}

#[test]
fn unreadable_state_is_an_error() {
    let mut files = Files::new();
    files.add("/node/raft_state.bin".to_string(), Err(IoFault::Other("denied".to_string())));
    let result = PersistentState::open(DIR, &files);
    assert!(matches!(result, Err(RaftError::Io(IoFault::Other(_)))));
}

#[test]
fn cut_state_file_keeps_the_term_at_most() {
    let mut disk = Disk::default();
    let mut s = disk.open();
    disk.advance_term(&mut s, 7).unwrap();
    disk.record_vote(&mut s, "node-2").unwrap();
    let path = "/node/raft_state.bin".to_string();
    let whole = disk.files[&path].clone();
    assert_eq!(whole.len(), 18);
    for kept in 0..whole.len() {
        disk.files.insert(path.clone(), whole[..kept].to_vec());
        let again = disk.open();
        assert_eq!(again.current_term, if kept < 12 { 0 } else { 7 });
        assert!(again.voted_for.is_none());
    }
    disk.files.insert(path, whole);
    assert_eq!(disk.open().voted_for, Some("node-2".to_string()));
}

#[test]
fn empty_name_reads_back_as_no_vote() {
    let mut disk = Disk::default();
    let mut s = disk.open();
    disk.advance_term(&mut s, 3).unwrap();
    disk.record_vote(&mut s, "").unwrap();
    let again = disk.open();
    assert_eq!(again.current_term, 3);
    assert!(again.voted_for.is_none());
}

#[test]
fn encoded_state_decodes() {
    let raw = encode(7, Some("node-1"));
    assert_eq!(raw.len(), 12 + 6);
    assert_eq!(raw[..8], 7u64.to_le_bytes());
    assert_eq!(raw[8..12], 6u32.to_le_bytes());
    assert_eq!(&raw[12..], b"node-1");
    assert_eq!(decode(&raw), (7, Some("node-1".to_string())));
    assert_eq!(decode(&encode(u64::MAX, None)), (u64::MAX, None));
    assert_eq!(encode(3, None).len(), 12);
    // What is too short for a term and a length states nothing.
    for len in 0..12 {
        assert_eq!(decode(&raw[..len]), (0, None));
    }
}
