//! Counters that show where a front end stands.

use vstd::prelude::*;

use crate::broker_wire::codec::{self, read_u16, read_u32};
use crate::front_end::HEARTBEAT_POLLS;

verus! {

pub const STAGE_ACCEPTED: u64 = 1;

pub const STAGE_RECEIVED: u64 = 2;

pub const STAGE_DISPATCHING: u64 = 3;

pub const STAGE_HANDLED: u64 = 4;

pub const STAGE_SENDING: u64 = 5;

pub const STAGE_SENT: u64 = 6;

pub const STAGE_RECEIVE_ERROR: u64 = 7;

pub const STAGE_ENGINE_ERROR: u64 = 8;

pub const STAGE_SEND_ERROR: u64 = 9;

pub const STAGE_CLOSED: u64 = 10;

/// What has happened on all connections. The counters wrap around.
#[derive(Clone, Copy, Debug, Eq, PartialEq)]
pub struct Diagnostics {
    pub next_connection: u64,
    pub accepted: u64,
    pub active: u64,
    pub chunks: u64,
    pub frames: u64,
    pub handled: u64,
    pub sent: u64,
    pub receive_errors: u64,
    pub engine_errors: u64,
    pub send_errors: u64,
    pub progress: u64,
    pub last_connection: u64,
    pub last_stage: u64,
    pub last_api_key: u64,
    pub last_api_version: u64,
    pub last_correlation: u64,
}

impl Diagnostics {
    /// No connection has been seen.
    pub open spec fn cleared() -> Diagnostics {
        Diagnostics {
            next_connection: 0,
            accepted: 0,
            active: 0,
            chunks: 0,
            frames: 0,
            handled: 0,
            sent: 0,
            receive_errors: 0,
            engine_errors: 0,
            send_errors: 0,
            progress: 0,
            last_connection: 0,
            last_stage: 0,
            last_api_key: 0,
            last_api_version: 0,
            last_correlation: 0,
        }
    }

    /// A connection reached a stage.
    pub open spec fn marked(self, connection: u64, stage: u64) -> Diagnostics {
        Diagnostics {
            last_connection: connection,
            last_stage: stage,
            progress: self.progress.wrapping_add(1),
            ..self
        }
    }

    /// A connection was accepted and gets the next number.
    pub open spec fn with_accepted(self) -> Diagnostics {
        let connection = self.next_connection.wrapping_add(1);
        Diagnostics {
            next_connection: connection,
            accepted: self.accepted.wrapping_add(1),
            active: self.active.wrapping_add(1),
            ..self
        }.marked(connection, STAGE_ACCEPTED)
    }

    /// A frame goes to the engine; its header, if it has one, is noted.
    pub open spec fn frame_marked(self, connection: u64, frame: Seq<u8>) -> Diagnostics {
        let noted = if frame.len() >= 12 {
            Diagnostics {
                last_api_key: codec::be_value(frame.subrange(4, 6)) as u64,
                last_api_version: codec::be_value(frame.subrange(6, 8)) as u64,
                last_correlation: codec::be_value(frame.subrange(8, 12)) as u64,
                ..self
            }
        } else {
            self
        };
        noted.marked(connection, STAGE_DISPATCHING)
    }

    /// Creates counters that stand at zero.
    pub fn new() -> (r: Self)
        ensures
            r == Diagnostics::cleared(),
    {
        Diagnostics {
            next_connection: 0,
            accepted: 0,
            active: 0,
            chunks: 0,
            frames: 0,
            handled: 0,
            sent: 0,
            receive_errors: 0,
            engine_errors: 0,
            send_errors: 0,
            progress: 0,
            last_connection: 0,
            last_stage: 0,
            last_api_key: 0,
            last_api_version: 0,
            last_correlation: 0,
        }
    }

    /// Notes an accepted connection and returns its number.
    pub fn accepted(&mut self) -> (r: u64)
        ensures
            *final(self) == old(self).with_accepted(),
            r == old(self).next_connection.wrapping_add(1),
    {
        let connection: u64 = self.next_connection.wrapping_add(1);
        self.next_connection = connection;
        self.accepted = self.accepted.wrapping_add(1);
        self.active = self.active.wrapping_add(1);
        self.mark(connection, STAGE_ACCEPTED);
        connection
    }

    /// Notes that a connection reached a stage.
    pub fn mark(&mut self, connection: u64, stage: u64)
        ensures
            *final(self) == old(self).marked(connection, stage),
    {
        self.last_connection = connection;
        self.last_stage = stage;
        self.progress = self.progress.wrapping_add(1);
    }

    /// Notes that a frame goes to the engine.
    pub fn mark_frame(&mut self, connection: u64, frame: &[u8])
        ensures
            *final(self) == old(self).frame_marked(connection, frame@),
    {
        if frame.len() >= 12 {
            self.last_api_key = read_u16(frame, 4) as u64;
            self.last_api_version = read_u16(frame, 6) as u64;
            self.last_correlation = read_u32(frame, 8) as u64;
        }
        self.mark(connection, STAGE_DISPATCHING);
    }
}

impl Default for Diagnostics {
    fn default() -> (r: Self)
        ensures
            r == Diagnostics::cleared(),
    {
        Diagnostics::new()
    }
}

/// Counts idle polls up to the next heartbeat.
#[derive(Debug)]
pub struct Heartbeat {
    polls: u64,
}

impl View for Heartbeat {
    type V = nat;

    closed spec fn view(&self) -> nat {
        self.polls as nat
    }
}

impl Heartbeat {
    /// The count stays below the number of polls between two heartbeats.
    pub open spec fn wf(self) -> bool {
        self@ < HEARTBEAT_POLLS
    }

    /// Starts to count.
    pub fn new() -> (r: Self)
        ensures
            r.wf(),
            r@ == 0,
    {
        Heartbeat { polls: 0 }
    }

    /// Counts an idle poll and returns whether a heartbeat is due.
    pub fn poll(&mut self) -> (r: bool)
        requires
            old(self).wf(),
        ensures
            final(self).wf(),
            r == (old(self)@ + 1 == HEARTBEAT_POLLS),
            final(self)@ == (if r {
                0
            } else {
                old(self)@ + 1
            }),
    {
        self.polls = self.polls + 1;
        if self.polls == HEARTBEAT_POLLS {
            self.polls = 0;
            return true;
        }
        false
    }
}

} // verus!
