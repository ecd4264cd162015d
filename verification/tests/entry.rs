use replicated_wal::wal_core::entry::{
    decode, decode_with_checksum, encode, encode_with_checksum, HEADER_SIZE,
};
use replicated_wal::wal_core::error::WalError;

#[test]
fn roundtrip_empty_payload() {
    let encoded = encode(1, &[]);
    let (entry, consumed) = decode(&encoded, 0).unwrap();
    assert_eq!(entry.sequence, 1);
    assert!(entry.data.is_empty());
    assert_eq!(consumed, HEADER_SIZE);
}

#[test]
fn roundtrip_with_data() {
    let payload = b"hello, WAL!";
    let encoded = encode(42, payload);
    let (entry, consumed) = decode(&encoded, 0).unwrap();
    assert_eq!(entry.sequence, 42);
    assert_eq!(entry.data, payload);
    assert_eq!(consumed, HEADER_SIZE + payload.len());
}

#[test]
fn detects_truncated_header() {
    // Only 4 bytes — not enough for the 16-byte header
    let encoded = encode(1, b"data");
    let result = decode(&encoded[..4], 0);
    assert!(matches!(result, Err(WalError::UnexpectedEof { .. })));
}

#[test]
fn detects_truncated_data() {
    let encoded = encode(1, b"hello");
    // Header is intact but data is cut short
    let truncated = &encoded[..HEADER_SIZE + 2];
    let result = decode(truncated, 0);
    assert!(matches!(result, Err(WalError::UnexpectedEof { .. })));
}

#[test]
fn detects_corrupted_payload() {
    let mut encoded = encode(1, b"important data");
    // Flip bits in the last byte of the data section
    let last = encoded.len() - 1;
    encoded[last] ^= 0xFF;
    let result = decode(&encoded, 0);
    assert!(matches!(result, Err(WalError::ChecksumMismatch { .. })));
}

#[test]
fn multiple_entries_in_stream() {
    let mut stream = Vec::new();
    stream.extend_from_slice(&encode(1, b"first"));
    stream.extend_from_slice(&encode(2, b"second"));
    stream.extend_from_slice(&encode(3, b"third"));

    let mut offset = 0;
    let mut entries = Vec::new();
    while offset < stream.len() {
        let (entry, consumed) = decode(&stream[offset..], offset).unwrap();
        entries.push(entry);
        offset += consumed;
    }

    assert_eq!(entries.len(), 3);
    assert_eq!(entries[0].data, b"first");
    assert_eq!(entries[2].sequence, 3);
}

#[test]
fn layout_is_sequence_length_checksum_payload() {
    // The CRC32 of "123456789" is 0xCBF43926.
    let encoded = encode(0x0102, b"123456789");
    let mut expected = vec![0x02, 0x01, 0, 0, 0, 0, 0, 0, 9, 0, 0, 0, 0x26, 0x39, 0xF4, 0xCB];
    expected.extend_from_slice(b"123456789");
    assert_eq!(encoded, expected);
}

#[test]
fn empty_payload_has_checksum_zero() {
    assert_eq!(encode(1, b""), vec![1, 0, 0, 0, 0, 0, 0, 0, 0, 0, 0, 0, 0, 0, 0, 0]);
}

#[test]
fn given_checksum_is_stored_and_compared() {
    let encoded = encode_with_checksum(5, b"xy", 0xAABBCCDD);
    assert_eq!(&encoded[12..16], &[0xDD, 0xCC, 0xBB, 0xAA]);
    let (entry, used) = decode_with_checksum(&encoded, 0, 0xAABBCCDD).unwrap();
    assert_eq!(entry.sequence, 5);
    assert_eq!(entry.data, b"xy");
    assert_eq!(used, 18);
    match decode_with_checksum(&encoded, 100, 1) {
        Err(WalError::ChecksumMismatch { offset, stored, computed }) => {
            assert_eq!((offset, stored, computed), (100, 0xAABBCCDD, 1));
        }
        _ => panic!("the checksum does not match"),
    }
}

#[test]
fn every_truncation_is_reported_at_its_offset() {
    let encoded = encode(9, b"some payload");
    for kept in 0..encoded.len() {
        match decode(&encoded[..kept], 77) {
            Err(WalError::UnexpectedEof { offset }) => assert_eq!(offset, 77),
            _ => panic!("a truncated entry was accepted"),
        }
    }
}

#[test]
fn what_follows_an_entry_makes_no_difference() {
    let mut buf = encode(3, b"abc");
    buf.extend_from_slice(b"garbage behind it");
    let (entry, used) = decode(&buf, 0).unwrap();
    assert_eq!(entry.sequence, 3);
    assert_eq!(entry.data, b"abc");
    assert_eq!(used, 19);
}
