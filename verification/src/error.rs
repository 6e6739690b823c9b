//! The ways in which processing a report can fail.

use vstd::prelude::*;

verus! {

/// Why a report could not be processed. Any of these aborts the whole file.
#[derive(Clone, Copy, Debug, PartialEq, Eq, Structural)]
pub enum ReportError {
    /// An amount does not reduce to an integer once punctuation is removed,
    /// has more than two decimal digits, or does not fit in 64 bits of cents.
    MalformedAmount,
    /// The input ends before the header row that follows the preamble.
    MissingHeader,
    /// A data row cannot be mapped onto the expected fields.
    DecodeFailure,
    /// A running total left the range of a 64-bit signed integer.
    TotalOverflow,
    /// The fingerprint store exists but cannot be read back.
    StoreUnreadable,
    /// The sink did not confirm a complete write of the output rows.
    SinkWriteFailure,
}

/// The description of each error.
pub open spec fn message_of(e: ReportError) -> Seq<char> {
    match e {
        ReportError::MalformedAmount => "malformed amount"@,
        ReportError::MissingHeader => "missing header row"@,
        ReportError::DecodeFailure => "row does not match the expected fields"@,
        ReportError::TotalOverflow => "running total out of range"@,
        ReportError::StoreUnreadable => "fingerprint store is unreadable"@,
        ReportError::SinkWriteFailure => "output could not be written"@,
    }
}

impl ReportError {
    /// A short human-readable description of the error.
    pub fn message(&self) -> (text: &'static str)
        ensures
            text@ == message_of(*self),
    {
        match self {
            ReportError::MalformedAmount => "malformed amount",
            ReportError::MissingHeader => "missing header row",
            ReportError::DecodeFailure => "row does not match the expected fields",
            ReportError::TotalOverflow => "running total out of range",
            ReportError::StoreUnreadable => "fingerprint store is unreadable",
            ReportError::SinkWriteFailure => "output could not be written",
        }
    }
}

} // verus!
