//! On-disk entry format for WAL segments.
//!
//! Every entry is written as a fixed 16-byte header followed by the
//! application payload:
//!
//! ```text
//! ┌──────────────┬─────────────┬──────────────┬─────────────────┐
//! │ sequence (8) │  len (4)    │  crc32 (4)   │   data (N)      │
//! │  u64 LE      │  u32 LE     │  u32 LE      │   raw bytes     │
//! └──────────────┴─────────────┴──────────────┴─────────────────┘
//! ```
//!
//! The CRC32 covers only the `data` field. Sequence numbers start at 1
//! and increase monotonically across the entire WAL (not per-segment).
use vstd::prelude::*;
use vstd::slice::slice_subrange;

use crate::bytes;
use crate::bytes::{copy_bytes, get_u32, get_u64, put_bytes, put_len, put_u32, put_u64};
use crate::wal_core::error::{WalError, WalErrorView};

verus! {

broadcast use vstd::slice::group_slice_axioms;

/// Byte size of the fixed entry header.
pub const HEADER_SIZE: usize = 16;

/// An in-memory representation of a single WAL entry.
#[derive(Debug, PartialEq, Eq)]
pub struct Entry {
    /// Monotonically increasing log sequence number (1-based, global).
    pub sequence: u64,
    /// The application-level payload stored in this entry.
    pub data: Vec<u8>,
}

/// An [`Entry`] with its payload as a sequence.
pub struct EntryView {
    pub sequence: u64,
    pub data: Seq<u8>,
}

impl View for Entry {
    type V = EntryView;

    open spec fn view(&self) -> EntryView {
        EntryView { sequence: self.sequence, data: self.data@ }
    }
}

impl Clone for Entry {
    fn clone(&self) -> (copy: Self)
        ensures
            copy@ == self@,
    {
        Entry { sequence: self.sequence, data: copy_bytes(&self.data) }
    }
}

/// The views of a list of entries.
pub open spec fn entry_views(entries: Seq<Entry>) -> Seq<EntryView> {
    Seq::new(entries.len(), |i: int| entries[i]@)
}

// ─── Checksum ────────────────────────────────────────────────────────────────

/// The CRC32 (IEEE) checksum of `data`, as `crc32fast::hash` computes it.
pub uninterp spec fn crc32(data: Seq<u8>) -> u32;

/// Calls `crc32fast::hash`. The checksum is a function of the bytes alone; which
/// number it is stays unsaid.
#[verifier::external_body]
fn checksum(data: &[u8]) -> (crc: u32)
    ensures
        crc == crc32(data@),
{
    crc32fast::hash(data)
}

// ─── Encoding ────────────────────────────────────────────────────────────────

/// The bytes of an entry whose payload has the checksum `crc`.
pub open spec fn encoded_with(sequence: u64, data: Seq<u8>, crc: u32) -> Seq<u8> {
    bytes::le_bytes(sequence as nat, 8) + bytes::le_bytes(data.len(), 4)
        + bytes::le_bytes(crc as nat, 4) + data
}

/// The on-disk bytes of the entry `(sequence, data)`.
pub open spec fn encoded(sequence: u64, data: Seq<u8>) -> Seq<u8> {
    encoded_with(sequence, data, crc32(data))
}

/// Lay out an entry whose payload has the checksum `crc`. Of the payload's
/// length only the four low bytes are stored.
pub fn encode_with_checksum(sequence: u64, data: &[u8], crc: u32) -> (buf: Vec<u8>)
    ensures
        buf@ == encoded_with(sequence, data@, crc),
{
    let mut buf: Vec<u8> = Vec::new();
    put_u64(&mut buf, sequence);
    put_len(&mut buf, data.len());
    put_u32(&mut buf, crc);
    put_bytes(&mut buf, data);
    assert(buf@ =~= encoded_with(sequence, data@, crc));
    buf
}

/// Encode `(sequence, data)` into its on-disk byte representation.
///
/// The returned `Vec<u8>` is `HEADER_SIZE + data.len()` bytes long and is
/// ready to be written directly to a segment file.
pub fn encode(sequence: u64, data: &[u8]) -> (buf: Vec<u8>)
    ensures
        buf@ == encoded(sequence, data@),
        buf@.len() == HEADER_SIZE + data@.len(),
{
    let crc = checksum(data);
    proof {
        lemma_encoded_len(sequence, data@);
    }
    encode_with_checksum(sequence, data, crc)
}

// ─── Decoding ────────────────────────────────────────────────────────────────

/// The payload length that the header at the start of `buf` states.
pub open spec fn stated_len(buf: Seq<u8>) -> nat {
    bytes::le_value(buf.subrange(8, 12))
}

/// `buf` starts with a whole entry: a header, and as many bytes as it states.
pub open spec fn holds_entry(buf: Seq<u8>) -> bool {
    buf.len() >= HEADER_SIZE && buf.len() >= HEADER_SIZE + stated_len(buf)
}

/// The payload of the entry at the start of `buf`.
pub open spec fn payload(buf: Seq<u8>) -> Seq<u8> {
    buf.subrange(HEADER_SIZE as int, HEADER_SIZE + stated_len(buf))
}

/// The entry at the start of `buf` and the bytes it takes, if the payload's
/// checksum is `computed`.
pub open spec fn decoded_with(buf: Seq<u8>, offset: int, computed: u32) -> Result<
    (EntryView, nat),
    WalErrorView,
> {
    let stored = bytes::le_value(buf.subrange(12, 16)) as u32;
    if !holds_entry(buf) {
        Err(WalErrorView::UnexpectedEof { offset })
    } else if stored != computed {
        Err(WalErrorView::ChecksumMismatch { offset, stored, computed })
    } else {
        Ok(
            (
                EntryView {
                    sequence: bytes::le_value(buf.subrange(0, 8)) as u64,
                    data: payload(buf),
                },
                HEADER_SIZE as nat + stated_len(buf),
            ),
        )
    }
}

/// What decoding the start of `buf` gives.
pub open spec fn decoded(buf: Seq<u8>, offset: int) -> Result<(EntryView, nat), WalErrorView> {
    decoded_with(buf, offset, crc32(payload(buf)))
}

/// `result` is what `expected` says.
pub open spec fn decodes_to(
    result: Result<(Entry, usize), WalError>,
    expected: Result<(EntryView, nat), WalErrorView>,
) -> bool {
    match (result, expected) {
        (Ok((entry, used)), Ok((view, len))) => entry@ == view && used == len,
        (Err(error), Err(view)) => error@ == view,
        _ => false,
    }
}

/// The payload length of the entry at the start of `buf`, or `None` if `buf` is
/// too short for the entry.
fn whole_entry_len(buf: &[u8]) -> (len: Option<usize>)
    ensures
        match len {
            Some(n) => {
                &&& holds_entry(buf@)
                &&& n == stated_len(buf@)
                &&& HEADER_SIZE + n <= buf.len()
            },
            None => !holds_entry(buf@),
        },
{
    if buf.len() < HEADER_SIZE {
        return None;
    }
    let len: usize = get_u32(buf, 8) as usize;
    if buf.len() - HEADER_SIZE < len {
        None
    } else {
        Some(len)
    }
}

/// Decode one entry from the beginning of `buf`, given that its payload has
/// the checksum `computed`.
pub fn decode_with_checksum(buf: &[u8], buf_offset: usize, computed: u32) -> (result: Result<
    (Entry, usize),
    WalError,
>)
    ensures
        decodes_to(result, decoded_with(buf@, buf_offset as int, computed)),
{
    match whole_entry_len(buf) {
        None => Err(WalError::UnexpectedEof { offset: buf_offset }),
        Some(len) => {
            let stored: u32 = get_u32(buf, 12);
            if stored != computed {
                return Err(
                    WalError::ChecksumMismatch { offset: buf_offset, stored, computed },
                );
            }
            let total: usize = HEADER_SIZE + len;
            let data = copy_bytes(slice_subrange(buf, HEADER_SIZE, total));
            Ok((Entry { sequence: get_u64(buf, 0), data }, total))
        },
    }
}

/// Decode one entry from the beginning of `buf`.
///
/// `buf_offset` is the position of `buf[0]` within the segment file; it is
/// only used for diagnostic error messages.
///
/// On success returns `(Entry, bytes_consumed)`.
/// Returns `Err(UnexpectedEof)` if `buf` is shorter than the encoded entry.
/// Returns `Err(ChecksumMismatch)` if the stored CRC32 does not match.
pub fn decode(buf: &[u8], buf_offset: usize) -> (result: Result<(Entry, usize), WalError>)
    ensures
        decodes_to(result, decoded(buf@, buf_offset as int)),
{
    match whole_entry_len(buf) {
        None => Err(WalError::UnexpectedEof { offset: buf_offset }),
        Some(len) => {
            let computed = checksum(slice_subrange(buf, HEADER_SIZE, HEADER_SIZE + len));
            decode_with_checksum(buf, buf_offset, computed)
        },
    }
}

// ─── Laws ────────────────────────────────────────────────────────────────────

/// An encoded entry is a header longer than its payload.
pub proof fn lemma_encoded_len(sequence: u64, data: Seq<u8>)
    ensures
        encoded(sequence, data).len() == HEADER_SIZE + data.len(),
{
    bytes::lemma_le_bytes_len(sequence as nat, 8);
    bytes::lemma_le_bytes_len(data.len(), 4);
    bytes::lemma_le_bytes_len(crc32(data) as nat, 4);
}

/// The fields of an encoded entry, wherever it is followed by more bytes.
proof fn lemma_encoded_fields(sequence: u64, data: Seq<u8>, rest: Seq<u8>)
    requires
        data.len() <= u32::MAX,
    ensures
        ({
            let buf = encoded(sequence, data) + rest;
            &&& buf.len() == HEADER_SIZE + data.len() + rest.len()
            &&& bytes::le_value(buf.subrange(0, 8)) == sequence
            &&& stated_len(buf) == data.len()
            &&& bytes::le_value(buf.subrange(12, 16)) == crc32(data)
            &&& payload(buf) == data
        }),
{
    let buf = encoded(sequence, data) + rest;
    let s = bytes::le_bytes(sequence as nat, 8);
    let l = bytes::le_bytes(data.len(), 4);
    let c = bytes::le_bytes(crc32(data) as nat, 4);
    bytes::lemma_le_bytes_len(sequence as nat, 8);
    bytes::lemma_le_bytes_len(data.len(), 4);
    bytes::lemma_le_bytes_len(crc32(data) as nat, 4);
    bytes::lemma_byte_range_values();
    bytes::lemma_le_roundtrip(sequence as nat, 8);
    bytes::lemma_le_roundtrip(data.len(), 4);
    bytes::lemma_le_roundtrip(crc32(data) as nat, 4);
    assert(buf.subrange(0, 8) =~= s);
    assert(buf.subrange(8, 12) =~= l);
    assert(buf.subrange(12, 16) =~= c);
    assert(payload(buf) =~= data);
}

/// Decoding gives back what was encoded, whatever follows it in the buffer, for
/// every payload whose length the header can state.
pub proof fn decode_returns_what_was_encoded(
    sequence: u64,
    data: Seq<u8>,
    rest: Seq<u8>,
    offset: int,
)
    requires
        data.len() <= u32::MAX,
    ensures
        decoded(encoded(sequence, data) + rest, offset) == Ok::<(EntryView, nat), WalErrorView>(
            (EntryView { sequence, data }, HEADER_SIZE as nat + data.len()),
        ),
{
    lemma_encoded_fields(sequence, data, rest);
}

/// An entry is laid out as its number in eight bytes, the length of its payload and the
/// payload's checksum in four each, and the payload.
pub proof fn entry_is_number_length_checksum_payload(sequence: u64, data: Seq<u8>, crc: u32)
    ensures
        ({
            let raw = encoded_with(sequence, data, crc);
            &&& raw.len() == 16 + data.len()
            &&& raw.subrange(0, 8) == bytes::le_bytes(sequence as nat, 8)
            &&& raw.subrange(8, 12) == bytes::le_bytes(data.len(), 4)
            &&& raw.subrange(12, 16) == bytes::le_bytes(crc as nat, 4)
            &&& raw.skip(16) == data
            &&& encoded(sequence, data) == encoded_with(sequence, data, crc32(data))
        }),
{
    let raw = encoded_with(sequence, data, crc);
    bytes::lemma_le_bytes_len(sequence as nat, 8);
    bytes::lemma_le_bytes_len(data.len(), 4);
    bytes::lemma_le_bytes_len(crc as nat, 4);
    assert(raw.subrange(0, 8) =~= bytes::le_bytes(sequence as nat, 8));
    assert(raw.subrange(8, 12) =~= bytes::le_bytes(data.len(), 4));
    assert(raw.subrange(12, 16) =~= bytes::le_bytes(crc as nat, 4));
    assert(raw.skip(16) =~= data);
}

/// A buffer decodes just if its header is there, with the payload that it states, and
/// the stored checksum is that of the payload. Where bytes are missing that is what is
/// reported, and else what the checksums are.
pub proof fn entry_decodes_if_it_is_whole_and_sound(buf: Seq<u8>, offset: int, computed: u32)
    ensures
        ({
            let len = bytes::le_value(buf.subrange(8, 12)) as int;
            let stored = bytes::le_value(buf.subrange(12, 16)) as u32;
            let result = decoded_with(buf, offset, computed);
            &&& if buf.len() < 16 || buf.len() < 16 + len {
                result == Err::<(EntryView, nat), WalErrorView>(
                    WalErrorView::UnexpectedEof { offset },
                )
            } else if stored != computed {
                result == Err::<(EntryView, nat), WalErrorView>(
                    WalErrorView::ChecksumMismatch { offset, stored, computed },
                )
            } else {
                &&& result matches Ok((e, used))
                &&& used == 16 + len
                &&& e.sequence == bytes::le_value(buf.subrange(0, 8))
                &&& e.data == buf.subrange(16, 16 + len)
            }
            &&& buf.len() >= 16 + len ==> decoded(buf, offset) == decoded_with(
                buf,
                offset,
                crc32(buf.subrange(16, 16 + len)),
            )
            &&& buf.len() < 16 || buf.len() < 16 + len ==> decoded(buf, offset) == Err::<
                (EntryView, nat),
                WalErrorView,
            >(WalErrorView::UnexpectedEof { offset })
        }),
{
    bytes::lemma_le_value_bound(buf.subrange(0, 8));
    bytes::lemma_byte_range_values();
}

/// Only the bytes of an encoded entry decode.
pub proof fn only_encoded_entries_decode(buf: Seq<u8>, offset: int)
    requires
        decoded(buf, offset) is Ok,
    ensures
        ({
            let (e, used) = decoded(buf, offset)->Ok_0;
            &&& used <= buf.len()
            &&& e.data.len() <= u32::MAX
            &&& buf.take(used as int) == encoded(e.sequence, e.data)
        }),
{
    let (e, used) = decoded(buf, offset)->Ok_0;
    let a = buf.subrange(0, 8);
    let b = buf.subrange(8, 12);
    let c = buf.subrange(12, 16);
    bytes::lemma_le_bytes_of_value(a);
    bytes::lemma_le_bytes_of_value(b);
    bytes::lemma_le_bytes_of_value(c);
    bytes::lemma_le_value_bound(a);
    bytes::lemma_le_value_bound(b);
    bytes::lemma_le_value_bound(c);
    bytes::lemma_byte_range_values();
    assert(buf.take(used as int) =~= a + b + c + payload(buf));
}

/// An encoded entry of which the end is missing is reported as such, however
/// little is missing.
pub proof fn truncated_entry_is_detected(sequence: u64, data: Seq<u8>, kept: int, offset: int)
    requires
        data.len() <= u32::MAX,
        0 <= kept < encoded(sequence, data).len(),
    ensures
        decoded(encoded(sequence, data).take(kept), offset) == Err::<
            (EntryView, nat),
            WalErrorView,
        >(WalErrorView::UnexpectedEof { offset }),
{
    lemma_encoded_len(sequence, data);
    lemma_encoded_fields(sequence, data, Seq::empty());
    let whole = encoded(sequence, data) + Seq::<u8>::empty();
    let buf = encoded(sequence, data).take(kept);
    assert(whole =~= encoded(sequence, data));
    if kept >= HEADER_SIZE {
        assert(buf.subrange(8, 12) =~= whole.subrange(8, 12));
    }
}

/// A payload that was replaced by other bytes of the same length is reported,
/// unless it has the same checksum.
pub proof fn corrupted_payload_is_detected(
    sequence: u64,
    data: Seq<u8>,
    corrupted: Seq<u8>,
    offset: int,
)
    requires
        data.len() <= u32::MAX,
        corrupted.len() == data.len(),
        crc32(corrupted) != crc32(data),
    ensures
        decoded(encoded_with(sequence, corrupted, crc32(data)), offset) == Err::<
            (EntryView, nat),
            WalErrorView,
        >(
            WalErrorView::ChecksumMismatch {
                offset,
                stored: crc32(data),
                computed: crc32(corrupted),
            },
        ),
{
    let buf = encoded_with(sequence, corrupted, crc32(data));
    bytes::lemma_le_bytes_len(sequence as nat, 8);
    bytes::lemma_le_bytes_len(data.len(), 4);
    bytes::lemma_le_bytes_len(crc32(data) as nat, 4);
    bytes::lemma_byte_range_values();
    bytes::lemma_le_roundtrip(data.len(), 4);
    bytes::lemma_le_roundtrip(crc32(data) as nat, 4);
    assert(buf.subrange(8, 12) =~= bytes::le_bytes(data.len(), 4));
    assert(buf.subrange(12, 16) =~= bytes::le_bytes(crc32(data) as nat, 4));
    assert(payload(buf) =~= corrupted);
}

} // verus!
