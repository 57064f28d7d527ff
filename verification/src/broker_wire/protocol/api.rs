//! Kafka API keys implemented by this broker.

use vstd::prelude::*;

verus! {

pub const PRODUCE: i16 = 0;

pub const FETCH: i16 = 1;

pub const LIST_OFFSETS: i16 = 2;

pub const METADATA: i16 = 3;

pub const API_VERSIONS: i16 = 18;

pub const FIND_COORDINATOR: i16 = 10;

pub const INIT_PRODUCER_ID: i16 = 22;

pub const ADD_PARTITIONS_TO_TXN: i16 = 24;

pub const END_TXN: i16 = 26;

pub const OFFSET_COMMIT: i16 = 8;

pub const OFFSET_FETCH: i16 = 9;

pub const JOIN_GROUP: i16 = 11;

pub const HEARTBEAT: i16 = 12;

pub const LEAVE_GROUP: i16 = 13;

pub const SYNC_GROUP: i16 = 14;

} // verus!
