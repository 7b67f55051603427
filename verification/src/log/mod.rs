//! The append-only commit log: records, segments, sparse indexes and the log
//! made of them.

pub mod commit_log;
pub mod directory;
pub mod format_laws;
pub mod index;
pub mod laws;
pub mod limit_laws;
pub mod record;
pub mod segment;
pub mod state_laws;
pub mod storage_laws;

pub use commit_log::{Log, LogConfig, Reading, SegmentFiles};
pub use segment::Segment;

use vstd::prelude::*;

use crate::text;
use crate::text::{push_decimal, push_padded};

verus! {

/// What can go wrong in a log.
#[derive(Debug)]
pub enum LogError {
    /// The files could not be read or written; the text is the system's.
    Io(String),
    /// A record's payload does not have the checksum stored with it.
    CrcMismatch { expected: u32, actual: u32 },
    /// No record has this offset.
    OffsetOutOfRange(u64),
    /// The log has no segment.
    Empty,
    /// The bytes are not a whole record.
    CorruptRecord(String),
}

/// A `LogError` with its texts as character sequences.
pub enum LogErrorView {
    Io(Seq<char>),
    CrcMismatch { expected: u32, actual: u32 },
    OffsetOutOfRange(u64),
    Empty,
    CorruptRecord(Seq<char>),
}

impl View for LogError {
    type V = LogErrorView;

    open spec fn view(&self) -> LogErrorView {
        match self {
            LogError::Io(text) => LogErrorView::Io(text@),
            LogError::CrcMismatch { expected, actual } => LogErrorView::CrcMismatch {
                expected: *expected,
                actual: *actual,
            },
            LogError::OffsetOutOfRange(offset) => LogErrorView::OffsetOutOfRange(*offset),
            LogError::Empty => LogErrorView::Empty,
            LogError::CorruptRecord(text) => LogErrorView::CorruptRecord(text@),
        }
    }
}

impl LogErrorView {
    /// The error in words.
    pub open spec fn message(self) -> Seq<char> {
        match self {
            LogErrorView::Io(text) => "io error: "@ + text,
            LogErrorView::CrcMismatch { expected, actual } => "crc mismatch: expected 0x"@ + text::padded(
                expected as nat,
                16,
                8,
            ) + ", got 0x"@ + text::padded(actual as nat, 16, 8),
            LogErrorView::OffsetOutOfRange(offset) => "offset "@ + text::decimal(offset as nat)
                + " is out of range for this log"@,
            LogErrorView::Empty => "log is empty"@,
            LogErrorView::CorruptRecord(text) => "corrupt record: "@ + text,
        }
    }
}

impl LogError {
    /// The error in words.
    pub fn to_string(&self) -> (text: String)
        ensures
            text@ == self@.message(),
    {
        match self {
            LogError::Io(text) => {
                let mut out = String::from_str("io error: ");
                out.append(text.as_str());
                out
            },
            LogError::CrcMismatch { expected, actual } => {
                let mut out = String::from_str("crc mismatch: expected 0x");
                push_padded(&mut out, *expected as u64, 16, 8);
                out.append(", got 0x");
                push_padded(&mut out, *actual as u64, 16, 8);
                out
            },
            LogError::OffsetOutOfRange(offset) => {
                let mut out = String::from_str("offset ");
                push_decimal(&mut out, *offset);
                out.append(" is out of range for this log");
                out
            },
            LogError::Empty => String::from_str("log is empty"),
            LogError::CorruptRecord(text) => {
                let mut out = String::from_str("corrupt record: ");
                out.append(text.as_str());
                out
            },
        }
    }
}

/// A result with its value and its error by their views.
pub open spec fn outcome(r: Result<Vec<u8>, LogError>) -> Result<Seq<u8>, LogErrorView> {
    match r {
        Ok(bytes) => Ok(bytes@),
        Err(e) => Err(e@),
    }
}

} // verus!
