//! Errors.

use vstd::prelude::*;

use crate::lsn::Lsn;
use crate::text::decimal;
use crate::text::push_decimal;

verus! {

/// The standard library's I/O error, carried through unread.
#[verifier::external_type_specification]
#[verifier::external_body]
pub struct ExIoError(std::io::Error);

/// Every error that the log reports.
#[derive(Debug)]
#[non_exhaustive]
pub enum WalError {
    /// An I/O error that is not itself a durability failure.
    Io(std::io::Error),
    /// A record failed validation in a sealed segment.
    Corruption {
        /// Base of the segment that holds the fault.
        segment: Lsn,
        /// Offset of the fault within the segment.
        offset: u64,
        /// What was wrong.
        detail: &'static str,
    },
    /// A valid record follows a bad one: the log cannot be truncated there
    /// without losing acknowledged data.
    TornMidLog {
        /// Base of the segment that holds the fault.
        segment: Lsn,
        /// Offset of the bad record within the segment.
        offset: u64,
    },
    /// A payload is longer than `max_record_size`.
    RecordTooLarge,
    /// The configuration's sizes do not fit together.
    InvalidConfig,
    /// A segment header is missing, damaged or not the one its name promises.
    BadSegmentHeader,
    /// Another writer holds the directory's lock.
    Locked,
    /// A sync failed; the handle is poisoned.
    FsyncFailed,
    /// The retained segments are not one contiguous run of records.
    ContiguityViolation,
    /// An earlier durability failure poisoned the handle.
    Poisoned,
}

impl From<std::io::Error> for WalError {
    fn from(e: std::io::Error) -> (w: Self) {
        WalError::Io(e)
    }
}

impl vstd::std_specs::convert::FromSpecImpl<std::io::Error> for WalError {
    open spec fn obeys_from_spec() -> bool {
        true
    }

    open spec fn from_spec(e: std::io::Error) -> Self {
        WalError::Io(e)
    }
}

/// The text of an I/O error.
///
/// Calls `to_string` on the `std::io::Error`. Nothing is claimed of the text: an
/// operating system's message may depend on the machine.
#[verifier::external_body]
fn io_error_text(e: &std::io::Error) -> (s: String) {
    e.to_string()
}

impl WalError {
    /// The message for this error, where `io_text` is the text of the I/O error
    /// that it carries, if it carries one.
    pub open spec fn message(self, io_text: Seq<char>) -> Seq<char> {
        match self {
            WalError::Io(_) => "I/O error: "@ + io_text,
            WalError::Corruption { segment, offset, detail } => "corruption in segment "@ + decimal(
                segment.0 as nat,
            ) + " at offset "@ + decimal(offset as nat) + ": "@ + detail@,
            WalError::TornMidLog { segment, offset } => "torn record mid-log in segment "@
                + decimal(segment.0 as nat) + " at offset "@ + decimal(offset as nat),
            WalError::RecordTooLarge => "record exceeds max_record_size"@,
            WalError::InvalidConfig => "invalid WAL configuration"@,
            WalError::BadSegmentHeader => "bad segment header"@,
            WalError::Locked => "WAL directory is already locked by another writer"@,
            WalError::FsyncFailed => "fsync failed; handle is poisoned"@,
            WalError::ContiguityViolation => "retained segments are not contiguous"@,
            WalError::Poisoned => "WAL handle is poisoned by a prior durability failure"@,
        }
    }

    /// Writes the message, given the text of the carried I/O error.
    pub fn describe(&self, io_text: &str) -> (s: String)
        ensures
            s@ == self.message(io_text@),
    {
        let mut s = String::new();
        match self {
            WalError::Io(_) => {
                s.append("I/O error: ");
                s.append(io_text);
            },
            WalError::Corruption { segment, offset, detail } => {
                s.append("corruption in segment ");
                push_decimal(&mut s, segment.0);
                s.append(" at offset ");
                push_decimal(&mut s, *offset);
                s.append(": ");
                s.append(detail);
            },
            WalError::TornMidLog { segment, offset } => {
                s.append("torn record mid-log in segment ");
                push_decimal(&mut s, segment.0);
                s.append(" at offset ");
                push_decimal(&mut s, *offset);
            },
            WalError::RecordTooLarge => s.append("record exceeds max_record_size"),
            WalError::InvalidConfig => s.append("invalid WAL configuration"),
            WalError::BadSegmentHeader => s.append("bad segment header"),
            WalError::Locked => s.append("WAL directory is already locked by another writer"),
            WalError::FsyncFailed => s.append("fsync failed; handle is poisoned"),
            WalError::ContiguityViolation => s.append("retained segments are not contiguous"),
            WalError::Poisoned => s.append("WAL handle is poisoned by a prior durability failure"),
        }
        assert(s@ =~= self.message(io_text@));
        s
    }

    /// The message for this error. The part that the I/O error's own text makes
    /// up is left open: it may depend on the machine.
    pub fn to_string(&self) -> (s: String)
        ensures
            exists|io_text: Seq<char>| s@ == #[trigger] self.message(io_text),
    {
        match self {
            WalError::Io(e) => {
                let io_text = io_error_text(e);
                self.describe(io_text.as_str())
            },
            _ => self.describe(""),
        }
    }

    /// The I/O error underneath, if there is one.
    pub fn source(&self) -> (e: Option<&std::io::Error>)
        ensures
            match *self {
                WalError::Io(io) => e == Some(&io),
                _ => e is None,
            },
    {
        match self {
            WalError::Io(e) => Some(e),
            _ => None,
        }
    }
}

} // verus!
