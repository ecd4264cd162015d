//! Errors of the write-ahead log.
use vstd::prelude::*;

use crate::storage::{FaultView, IoFault};

verus! {

/// All errors that the WAL engine can produce.
#[derive(Debug)]
pub enum WalError {
    /// Underlying OS / file-system error.
    Io(IoFault),
    /// A stored CRC32 checksum did not match the recomputed one.
    /// This indicates either bit-rot or a partial / corrupted write.
    ChecksumMismatch { offset: usize, stored: u32, computed: u32 },
    /// The buffer ended before a complete entry could be decoded.
    UnexpectedEof { offset: usize },
    /// A file path did not match the expected segment naming convention.
    InvalidSegmentFilename { filename: String },
    /// An append was rejected because it would exceed the segment size cap.
    SegmentFull { size: u64, max: u64, entry: u64 },
}

/// A [`WalError`] with its text as a sequence of characters.
pub enum WalErrorView {
    Io(FaultView),
    ChecksumMismatch { offset: int, stored: u32, computed: u32 },
    UnexpectedEof { offset: int },
    InvalidSegmentFilename { filename: Seq<char> },
    SegmentFull { size: int, max: int, entry: int },
}

impl View for WalError {
    type V = WalErrorView;

    open spec fn view(&self) -> WalErrorView {
        match self {
            WalError::Io(fault) => WalErrorView::Io(fault@),
            WalError::ChecksumMismatch { offset, stored, computed } => {
                WalErrorView::ChecksumMismatch {
                    offset: *offset as int,
                    stored: *stored,
                    computed: *computed,
                }
            },
            WalError::UnexpectedEof { offset } => WalErrorView::UnexpectedEof {
                offset: *offset as int,
            },
            WalError::InvalidSegmentFilename { filename } => WalErrorView::InvalidSegmentFilename {
                filename: filename@,
            },
            WalError::SegmentFull { size, max, entry } => WalErrorView::SegmentFull {
                size: *size as int,
                max: *max as int,
                entry: *entry as int,
            },
        }
    }
}

/// `result` is what `expected` says.
pub open spec fn agrees<T>(result: Result<T, WalError>, expected: Result<T, WalErrorView>) -> bool {
    match (result, expected) {
        (Ok(value), Ok(wanted)) => value == wanted,
        (Err(error), Err(view)) => error@ == view,
        _ => false,
    }
}

} // verus!
