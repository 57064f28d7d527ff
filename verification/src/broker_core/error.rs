//! Errors produced by the deterministic broker core.

use vstd::prelude::*;

verus! {

/// A rejected log or catalog operation.
#[derive(Clone, Copy, Debug, Eq, PartialEq, Structural)]
pub enum LogError {
    /// The topic is not present in the catalog.
    UnknownTopic,
    /// The partition index is negative or at or beyond the topic's count.
    UnknownPartition,
    /// The topic name is empty or its partition count is not positive.
    InvalidTopic,
    /// The catalog already contains the topic name.
    DuplicateTopic,
    /// An append carried no records.
    EmptyAppend,
    /// An append exceeded the per-append record bound.
    TooManyRecords,
    /// A fetch offset was below the retained start or beyond the high
    /// watermark.
    OffsetOutOfRange,
}

impl LogError {
    /// The text that describes the error.
    pub open spec fn description(self) -> Seq<char> {
        match self {
            LogError::UnknownTopic => "unknown topic"@,
            LogError::UnknownPartition => "unknown partition"@,
            LogError::InvalidTopic => "invalid topic definition"@,
            LogError::DuplicateTopic => "duplicate topic"@,
            LogError::EmptyAppend => "append with no records"@,
            LogError::TooManyRecords => "append exceeds the record bound"@,
            LogError::OffsetOutOfRange => "offset out of range"@,
        }
    }

    /// Describes the error.
    pub fn text(self) -> (r: &'static str)
        ensures
            r@ == self.description(),
    {
        match self {
            LogError::UnknownTopic => "unknown topic",
            LogError::UnknownPartition => "unknown partition",
            LogError::InvalidTopic => "invalid topic definition",
            LogError::DuplicateTopic => "duplicate topic",
            LogError::EmptyAppend => "append with no records",
            LogError::TooManyRecords => "append exceeds the record bound",
            LogError::OffsetOutOfRange => "offset out of range",
        }
    }
}

} // verus!
