//! The single request/response version accepted for each API.

use vstd::prelude::*;

verus! {

pub const PRODUCE: i16 = 3;

pub const FETCH: i16 = 4;

pub const LIST_OFFSETS: i16 = 1;

pub const METADATA: i16 = 1;

pub const API_VERSIONS: i16 = 0;

pub const FIND_COORDINATOR: i16 = 1;

pub const INIT_PRODUCER_ID: i16 = 0;

pub const ADD_PARTITIONS_TO_TXN: i16 = 0;

pub const END_TXN: i16 = 0;

pub const OFFSET_COMMIT: i16 = 2;

pub const OFFSET_FETCH: i16 = 1;

pub const JOIN_GROUP: i16 = 1;

pub const HEARTBEAT: i16 = 0;

pub const LEAVE_GROUP: i16 = 0;

pub const SYNC_GROUP: i16 = 0;

} // verus!
