//! What can go wrong between a board and its stored form.

use vstd::prelude::*;

verus! {

/// Why something could not be stored or read back.
#[derive(Clone, Copy, Debug, PartialEq, Eq, Structural)]
pub enum StoreError {
    /// A file names a version that no stored form is known for.
    UnsupportedVersion { version: u64 },
    /// A file is too short to hold the version at its head.
    MissingHeader,
    /// A payload or a record is not in the stored form of its version.
    Malformed,
    /// A record is longer than the length in front of it can say.
    RecordTooLarge,
    /// The byte count of a segment would pass the largest number.
    SegmentFull,
    /// The segment numbers are used up.
    IndexExhausted,
}

impl StoreError {
    /// The words for each kind of error.
    pub open spec fn text(self) -> Seq<char> {
        match self {
            StoreError::UnsupportedVersion { version } => "unsupported version"@,
            StoreError::MissingHeader => "file too short to hold a version"@,
            StoreError::Malformed => "contents are not in the stored form of their version"@,
            StoreError::RecordTooLarge => "record too large"@,
            StoreError::SegmentFull => "segment full"@,
            StoreError::IndexExhausted => "segment numbers exhausted"@,
        }
    }

    /// The error in words.
    pub fn message(&self) -> (text: &'static str)
        ensures
            text@ == self.text(),
    {
        match self {
            StoreError::UnsupportedVersion { version: _ } => "unsupported version",
            StoreError::MissingHeader => "file too short to hold a version",
            StoreError::Malformed => "contents are not in the stored form of their version",
            StoreError::RecordTooLarge => "record too large",
            StoreError::SegmentFull => "segment full",
            StoreError::IndexExhausted => "segment numbers exhausted",
        }
    }
}

} // verus!
