use std::collections::BTreeMap;

use replicated_wal::storage::{FileAction, Files, IoFault, Outcome};
use replicated_wal::wal_core::entry;
use replicated_wal::wal_core::error::WalError;
use replicated_wal::wal_core::segment::{
    count_whole, decode_entries, list_segments, read_entries, read_whole_entries,
    segment_id_from_path, segment_path, Segment, DEFAULT_MAX_SEGMENT_BYTES,
};

const DIR: &str = "/data";

#[derive(Default)]
struct Disk {
    files: BTreeMap<String, Vec<u8>>,
    fail_at: Option<usize>,
}

impl Disk {
    fn perform(&mut self, actions: &[FileAction]) -> Outcome {
        for (at, action) in actions.iter().enumerate() {
            if self.fail_at == Some(at) {
                return Outcome::Failed { at, fault: IoFault::Other("disk full".to_string()) };
            }
            match action {
                FileAction::CreateNew { path } => {
                    if self.files.contains_key(path) {
                        return Outcome::Failed {
                            at,
                            fault: IoFault::Other("file exists".to_string()),
                        };
                    }
                    self.files.insert(path.clone(), Vec::new());
                }
                FileAction::Append { path, bytes } => {
                    self.files.get_mut(path).unwrap().extend_from_slice(bytes);
                }
                FileAction::OpenAppend { path }
                | FileAction::Flush { path }
                | FileAction::Sync { path } => {
                    assert!(self.files.contains_key(path));
                }
                _ => panic!("not an action of a segment"),
            }
        }
        Outcome::Done
    }

    fn files(&self) -> Files {
        let mut files = Files::new();
        for (path, bytes) in &self.files {
            files.add(path.clone(), Ok(bytes.clone()));
        }
        files
    }

    fn create(&mut self, id: u64, max_bytes: u64) -> Result<Segment, WalError> {
        let io = self.perform(&Segment::create_actions(DIR, id));
        Segment::create(DIR, id, max_bytes, &io)
    }

    fn append(&mut self, seg: &mut Segment, encoded: &[u8]) -> Result<(), WalError> {
        let io = self.perform(&seg.append_actions(encoded));
        seg.append(encoded, &io)
    }
}

#[test]
fn create_segment_is_empty() {
    let mut disk = Disk::default();
    let seg = disk.create(1, DEFAULT_MAX_SEGMENT_BYTES).unwrap();
    assert_eq!(seg.id(), 1);
    assert_eq!(seg.size(), 0);
    assert!(disk.files.contains_key(seg.path()));
}

#[test]
fn append_increases_size() {
    let mut disk = Disk::default();
    let mut seg = disk.create(1, DEFAULT_MAX_SEGMENT_BYTES).unwrap();
    let encoded = entry::encode(1, b"hello");
    disk.append(&mut seg, &encoded).unwrap();
    assert_eq!(seg.size() as usize, encoded.len());
}

#[test]
fn read_entries_roundtrip() {
    let mut disk = Disk::default();
    let mut seg = disk.create(1, DEFAULT_MAX_SEGMENT_BYTES).unwrap();
    for i in 1u64..=5 {
        disk.append(&mut seg, &entry::encode(i, format!("entry {i}").as_bytes())).unwrap();
    }
    let io = disk.perform(&[seg.flush_action()]);
    seg.flush(&io).unwrap();

    let entries = read_entries(seg.path(), &disk.files()).unwrap();
    assert_eq!(entries.len(), 5);
    for (i, e) in entries.iter().enumerate() {
        assert_eq!(e.sequence, (i + 1) as u64);
        assert_eq!(e.data, format!("entry {}", i + 1).as_bytes());
    }
}

#[test]
fn segment_full_error() {
    let mut disk = Disk::default();
    // Tiny cap: smaller than a single encoded entry
    let mut seg = disk.create(1, 10).unwrap();
    let encoded = entry::encode(1, b"this is way too big");
    let result = disk.append(&mut seg, &encoded);
    assert!(matches!(result, Err(WalError::SegmentFull { .. })));
}

#[test]
fn segment_path_roundtrip() {
    let path = segment_path("/tmp", 999);
    assert_eq!(segment_id_from_path(&path).unwrap(), 999);
}

#[test]
fn list_segments_returns_sorted_order() {
    let mut disk = Disk::default();
    for id in [3u64, 1, 5, 2, 4] {
        disk.create(id, DEFAULT_MAX_SEGMENT_BYTES).unwrap();
    }
    let paths = list_segments(&disk.files().paths());
    let ids: Vec<u64> = paths.iter().map(|p| segment_id_from_path(p).unwrap()).collect();
    assert_eq!(ids, vec![1, 2, 3, 4, 5]);
}

#[test]
fn invalid_filename_returns_error() {
    let result = segment_id_from_path("/tmp/notasegment.txt");
    assert!(matches!(result, Err(WalError::InvalidSegmentFilename { .. })));
}

#[test]
fn names_are_zero_padded_to_twenty_digits() {
    assert_eq!(segment_path("/tmp", 1), "/tmp/wal-00000000000000000001.seg");
    assert_eq!(segment_path("/tmp/", 12), "/tmp/wal-00000000000000000012.seg");
    assert_eq!(segment_path("d", u64::MAX), "d/wal-18446744073709551615.seg");
    assert_eq!(segment_path("", 3), "wal-00000000000000000003.seg");
    assert_eq!(segment_id_from_path("d/wal-18446744073709551615.seg").unwrap(), u64::MAX);
}

#[test]
fn names_in_lexicographic_order_have_ascending_ids() {
    let mut names: Vec<String> = [10u64, 9, 100, 2, 1_000_000].iter().map(|id| segment_path(DIR, *id)).collect();
    names.sort();
    let ids: Vec<u64> = names.iter().map(|p| segment_id_from_path(p).unwrap()).collect();
    assert_eq!(ids, vec![2, 9, 10, 100, 1_000_000]);
}

#[test]
fn bad_names_are_reported_by_file_name_or_path() {
    let cases = [
        ("/tmp/wal-12.log", "wal-12.log"),
        ("/tmp/seg-1.seg", "seg-1.seg"),
        ("/tmp/wal-.seg", "wal-.seg"),
        ("/tmp/wal-1x.seg", "wal-1x.seg"),
        ("/tmp/wal-18446744073709551616.seg", "wal-18446744073709551616.seg"),
        ("/tmp/wal--1.seg", "wal--1.seg"),
        ("/tmp/..", "/tmp/.."),
        ("/", "/"),
    ];
    for (path, named) in cases {
        match segment_id_from_path(path) {
            Err(WalError::InvalidSegmentFilename { filename }) => assert_eq!(filename, named),
            _ => panic!("a bad name was accepted"),
        }
    }
}

#[test]
fn unpadded_and_signed_numbers_are_ids_too() {
    assert_eq!(segment_id_from_path("wal-7.seg").unwrap(), 7);
    assert_eq!(segment_id_from_path("wal-+7.seg").unwrap(), 7);
    assert_eq!(segment_id_from_path("a/wal-7.seg/").unwrap(), 7);
}

#[test]
fn listing_skips_other_files_and_puts_unnumbered_ones_last() {
    let names: Vec<String> = ["d/wal-x.seg", "d/checkpoint", "d/wal-2.seg", "d/wal-1.tmp", "d/log-1.seg", "d/wal-1.seg"]
        .iter()
        .map(|s| s.to_string())
        .collect();
    assert_eq!(list_segments(&names), vec!["d/wal-1.seg", "d/wal-2.seg", "d/wal-x.seg"]);
}

#[test]
fn creating_an_existing_segment_fails() {
    let mut disk = Disk::default();
    disk.create(4, 100).unwrap();
    assert!(matches!(disk.create(4, 100), Err(WalError::Io(IoFault::Other(_)))));
}

#[test]
fn append_fills_a_segment_exactly_and_no_further() {
    let mut disk = Disk::default();
    let mut seg = disk.create(1, 40).unwrap();
    assert!(!seg.would_overflow(40));
    assert!(seg.would_overflow(41));
    disk.append(&mut seg, &entry::encode(1, b"abcd")).unwrap();
    disk.append(&mut seg, &entry::encode(2, b"efgh")).unwrap();
    assert_eq!(seg.size(), 40);
    match disk.append(&mut seg, &entry::encode(3, b"")) {
        Err(WalError::SegmentFull { size, max, entry }) => assert_eq!((size, max, entry), (40, 40, 16)),
        _ => panic!("the segment is full"),
    }
    assert_eq!(disk.files[seg.path()].len(), 40);
}

#[test]
fn failed_append_does_not_count() {
    let mut disk = Disk::default();
    let mut seg = disk.create(1, 100).unwrap();
    disk.fail_at = Some(0);
    let result = disk.append(&mut seg, &entry::encode(1, b"x"));
    assert!(matches!(result, Err(WalError::Io(IoFault::Other(_)))));
    assert_eq!(seg.size(), 0);
    let io = disk.perform(&[seg.sync_action()]);
    assert!(matches!(seg.sync(&io), Err(WalError::Io(_))));
}

#[test]
fn segment_opens_with_the_length_of_its_file() {
    let path = segment_path(DIR, 6);
    let seg = Segment::open_for_append(path.clone(), Ok(123), 1000, &Outcome::Done).unwrap();
    assert_eq!((seg.id(), seg.size()), (6, 123));
    assert_eq!(seg.path(), &path);
    let gone = Segment::open_for_append(path.clone(), Err(IoFault::NotFound), 1000, &Outcome::Done);
    assert!(matches!(gone, Err(WalError::Io(IoFault::NotFound))));
    let unnamed = Segment::open_for_append("x.seg".to_string(), Ok(1), 1000, &Outcome::Done);
    assert!(matches!(unnamed, Err(WalError::InvalidSegmentFilename { .. })));
    let io = Outcome::Failed { at: 0, fault: IoFault::Other("denied".to_string()) };
    let locked = Segment::open_for_append(path, Ok(1), 1000, &io);
    assert!(matches!(locked, Err(WalError::Io(IoFault::Other(_)))));
}

#[test]
fn torn_tail_is_reported_where_it_begins() {
    let mut raw = entry::encode(1, b"whole");
    let start = raw.len();
    raw.extend_from_slice(&entry::encode(2, b"torn")[..10]);
    match decode_entries(&raw) {
        Err(WalError::UnexpectedEof { offset }) => assert_eq!(offset, start),
        _ => panic!("a torn entry was accepted"),
    }
    let missing = read_entries(&"/data/none.seg".to_string(), &Files::new());
    assert!(matches!(missing, Err(WalError::Io(IoFault::NotFound))));
}

#[test]
fn torn_tail_ends_the_whole_entries() {
    let mut raw = entry::encode(1, b"whole");
    let start = raw.len();
    raw.extend_from_slice(&entry::encode(2, b"torn"));
    let path = "/data/torn.seg".to_string();
    for kept in start..=raw.len() {
        let expected = if kept < raw.len() { start } else { raw.len() };
        assert_eq!(count_whole(&raw[..kept]), expected);
        let mut files = Files::new();
        files.add(path.clone(), Ok(raw[..kept].to_vec()));
        let entries = read_whole_entries(&path, &files).unwrap();
        assert_eq!(entries.len(), if kept < raw.len() { 1 } else { 2 });
        assert_eq!(entries[0].data, b"whole");
    }
    assert_eq!(count_whole(&[]), 0);
    let missing = read_whole_entries(&path, &Files::new());
    assert!(matches!(missing, Err(WalError::Io(IoFault::NotFound))));
}

#[test]
fn damaged_entry_does_not_end_the_whole_ones() {
    let mut raw = entry::encode(1, b"whole");
    let start = raw.len();
    raw.extend_from_slice(&entry::encode(2, b"damaged"));
    *raw.last_mut().unwrap() ^= 1;
    assert_eq!(count_whole(&raw), raw.len());
    let path = "/data/damaged.seg".to_string();
    let mut files = Files::new();
    files.add(path.clone(), Ok(raw));
    match read_whole_entries(&path, &files) {
        Err(WalError::ChecksumMismatch { offset, .. }) => assert_eq!(offset, start),
        _ => panic!("a damaged entry was accepted"),
    }
}

#[test]
fn only_encoded_entries_are_read() {
    let mut raw = entry::encode(1, b"first");
    raw.extend_from_slice(&entry::encode(2, b""));
    raw.extend_from_slice(&entry::encode(3, b"third"));
    let mut read = 0;
    for at in 0..raw.len() {
        for bit in 0..8 {
            let mut other = raw.clone();
            other[at] ^= 1 << bit;
            if let Ok(entries) = decode_entries(&other) {
                let again: Vec<u8> =
                    entries.iter().flat_map(|e| entry::encode(e.sequence, &e.data)).collect();
                assert_eq!(again, other);
                read += 1;
            }
        }
    }
    // The checksum covers the payload, not the number.
    assert_eq!(read, 3 * 64);
}
