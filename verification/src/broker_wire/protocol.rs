//! Protocol constants, error codes, and bounds for the supported subset.

use vstd::prelude::*;

pub mod api;
pub mod version;

verus! {

/// The data APIs advertised in ApiVersions responses, as `(api_key, min, max)`.
pub const SUPPORTED_VERSIONS: [(i16, i16, i16); 5] = [
    (api::PRODUCE, version::PRODUCE, version::PRODUCE),
    (api::FETCH, version::FETCH, version::FETCH),
    (api::LIST_OFFSETS, version::LIST_OFFSETS, version::LIST_OFFSETS),
    (api::METADATA, version::METADATA, version::METADATA),
    (api::API_VERSIONS, version::API_VERSIONS, version::API_VERSIONS),
];

/// The coordination APIs advertised after them, as `(api_key, min, max)`.
pub const COORDINATION_VERSIONS: [(i16, i16, i16); 10] = [
    (api::FIND_COORDINATOR, version::FIND_COORDINATOR, version::FIND_COORDINATOR),
    (api::INIT_PRODUCER_ID, version::INIT_PRODUCER_ID, version::INIT_PRODUCER_ID),
    (api::ADD_PARTITIONS_TO_TXN, version::ADD_PARTITIONS_TO_TXN, version::ADD_PARTITIONS_TO_TXN),
    (api::END_TXN, version::END_TXN, version::END_TXN),
    (api::JOIN_GROUP, version::JOIN_GROUP, version::JOIN_GROUP),
    (api::SYNC_GROUP, version::SYNC_GROUP, version::SYNC_GROUP),
    (api::HEARTBEAT, version::HEARTBEAT, version::HEARTBEAT),
    (api::LEAVE_GROUP, version::LEAVE_GROUP, version::LEAVE_GROUP),
    (api::OFFSET_COMMIT, version::OFFSET_COMMIT, version::OFFSET_COMMIT),
    (api::OFFSET_FETCH, version::OFFSET_FETCH, version::OFFSET_FETCH),
];

pub const NO_ERROR: i16 = 0;

pub const OFFSET_OUT_OF_RANGE: i16 = 1;

pub const UNKNOWN_TOPIC_OR_PARTITION: i16 = 3;

pub const UNSUPPORTED_VERSION: i16 = 35;

pub const UNKNOWN_SERVER_ERROR: i16 = -1;

pub const INVALID_REQUEST: i16 = 42;

pub const INVALID_PRODUCER_EPOCH: i16 = 47;

pub const INVALID_TXN_STATE: i16 = 48;

/// Maximum accepted frame payload length.
pub const MAX_FRAME_LEN: usize = 1024 * 1024;

/// Maximum accepted string length.
pub const MAX_STRING_LEN: usize = 8 * 1024;

/// Maximum accepted array element count.
pub const MAX_ARRAY_LEN: usize = 16 * 1024;

/// Maximum accepted record count per batch.
pub const MAX_RECORDS: usize = 1024;

/// A malformed or unsupported request or response.
#[derive(Clone, Copy, Debug, Eq, PartialEq, Structural)]
pub enum Error {
    /// The frame ended before the declared fields were complete.
    Incomplete,
    /// A field violated a structural rule.
    Invalid,
    /// A field or frame exceeded a bound.
    TooLarge,
    /// The API key is not implemented.
    UnsupportedApi,
    /// The API version is not implemented.
    UnsupportedVersion,
    /// A response correlation id did not match.
    Correlation,
    /// A record batch CRC did not match.
    Checksum,
}

impl Error {
    /// The text that describes the error.
    pub open spec fn description(self) -> Seq<char> {
        match self {
            Error::Incomplete => "incomplete frame"@,
            Error::Invalid => "invalid field"@,
            Error::TooLarge => "field exceeds the bound"@,
            Error::UnsupportedApi => "unsupported API"@,
            Error::UnsupportedVersion => "unsupported API version"@,
            Error::Correlation => "correlation id mismatch"@,
            Error::Checksum => "record batch checksum mismatch"@,
        }
    }

    /// Describes the error.
    pub fn text(self) -> (r: &'static str)
        ensures
            r@ == self.description(),
    {
        match self {
            Error::Incomplete => "incomplete frame",
            Error::Invalid => "invalid field",
            Error::TooLarge => "field exceeds the bound",
            Error::UnsupportedApi => "unsupported API",
            Error::UnsupportedVersion => "unsupported API version",
            Error::Correlation => "correlation id mismatch",
            Error::Checksum => "record batch checksum mismatch",
        }
    }
}

/// Whether the tables of advertised versions list the API key.
pub open spec fn advertised(api_key: i16) -> bool {
    ||| exists|i: int| 0 <= i < 5 && (#[trigger] SUPPORTED_VERSIONS@[i]).0 == api_key
    ||| exists|i: int| 0 <= i < 10 && (#[trigger] COORDINATION_VERSIONS@[i]).0 == api_key
}

/// Whether the API key is part of the supported subset.
pub fn is_supported_api(api_key: i16) -> (r: bool)
    ensures
        r == advertised(api_key),
{
    proof {
        assert(SUPPORTED_VERSIONS@[0].0 == api::PRODUCE);
        assert(SUPPORTED_VERSIONS@[1].0 == api::FETCH);
        assert(SUPPORTED_VERSIONS@[2].0 == api::LIST_OFFSETS);
        assert(SUPPORTED_VERSIONS@[3].0 == api::METADATA);
        assert(SUPPORTED_VERSIONS@[4].0 == api::API_VERSIONS);
        assert(COORDINATION_VERSIONS@[0].0 == api::FIND_COORDINATOR);
        assert(COORDINATION_VERSIONS@[1].0 == api::INIT_PRODUCER_ID);
        assert(COORDINATION_VERSIONS@[2].0 == api::ADD_PARTITIONS_TO_TXN);
        assert(COORDINATION_VERSIONS@[3].0 == api::END_TXN);
        assert(COORDINATION_VERSIONS@[4].0 == api::JOIN_GROUP);
        assert(COORDINATION_VERSIONS@[5].0 == api::SYNC_GROUP);
        assert(COORDINATION_VERSIONS@[6].0 == api::HEARTBEAT);
        assert(COORDINATION_VERSIONS@[7].0 == api::LEAVE_GROUP);
        assert(COORDINATION_VERSIONS@[8].0 == api::OFFSET_COMMIT);
        assert(COORDINATION_VERSIONS@[9].0 == api::OFFSET_FETCH);
    }
    api_key == api::PRODUCE || api_key == api::FETCH || api_key == api::LIST_OFFSETS || api_key
        == api::METADATA || api_key == api::API_VERSIONS || api_key == api::FIND_COORDINATOR || api_key
        == api::INIT_PRODUCER_ID || api_key == api::ADD_PARTITIONS_TO_TXN || api_key == api::END_TXN
        || api_key == api::OFFSET_COMMIT || api_key == api::OFFSET_FETCH || api_key == api::JOIN_GROUP
        || api_key == api::HEARTBEAT || api_key == api::LEAVE_GROUP || api_key == api::SYNC_GROUP
}

} // verus!
