//! What a connection does with what it receives.

use vstd::prelude::*;

use crate::broker_wire::codec;
use crate::broker_wire::protocol::Error;
use crate::broker_wire::request;
use crate::front_end::diagnostics::{
    Diagnostics, STAGE_ACCEPTED, STAGE_CLOSED, STAGE_DISPATCHING, STAGE_ENGINE_ERROR,
    STAGE_HANDLED, STAGE_RECEIVED, STAGE_RECEIVE_ERROR, STAGE_SENDING, STAGE_SEND_ERROR,
    STAGE_SENT,
};
use crate::front_end::frames::{self, FrameBuffer, Front, FrontModel};

verus! {

/// What an attempt to receive came to.
#[derive(Debug)]
pub enum Received {
    /// Bytes arrived.
    Chunk(Vec<u8>),
    /// Nothing arrived in time.
    Idle,
    /// The client closed the connection.
    Closed,
    /// The attempt failed.
    Failed,
}

impl Diagnostics {
    /// Counts what an attempt to receive came to.
    pub open spec fn after_receive(self, connection: u64, event: Received) -> Diagnostics {
        match event {
            Received::Chunk(_) => (Diagnostics { chunks: self.chunks.wrapping_add(1), ..self }).marked(
                connection,
                STAGE_RECEIVED,
            ),
            Received::Idle => self,
            Received::Closed => self,
            Received::Failed => (Diagnostics {
                receive_errors: self.receive_errors.wrapping_add(1),
                ..self
            }).marked(connection, STAGE_RECEIVE_ERROR),
        }
    }

    /// Counts a frame that was cut off, if one was.
    pub open spec fn after_cut(self, connection: u64, cut: FrontModel) -> Diagnostics {
        match cut {
            FrontModel::Frame(frame) => (Diagnostics {
                frames: self.frames.wrapping_add(1),
                ..self
            }).frame_marked(connection, frame),
            _ => self,
        }
    }

    /// Counts an answer of the engine.
    pub open spec fn after_answer(self, connection: u64, answered: bool) -> Diagnostics {
        if answered {
            (Diagnostics { handled: self.handled.wrapping_add(1), ..self }).marked(
                connection,
                STAGE_HANDLED,
            ).marked(connection, STAGE_SENDING)
        } else {
            (Diagnostics { engine_errors: self.engine_errors.wrapping_add(1), ..self }).marked(
                connection,
                STAGE_ENGINE_ERROR,
            )
        }
    }

    /// Counts an attempt to send a response.
    pub open spec fn after_send(self, connection: u64, sent: bool) -> Diagnostics {
        if sent {
            (Diagnostics { sent: self.sent.wrapping_add(1), ..self }).marked(connection, STAGE_SENT)
        } else {
            (Diagnostics { send_errors: self.send_errors.wrapping_add(1), ..self }).marked(
                connection,
                STAGE_SEND_ERROR,
            )
        }
    }

    /// Counts a connection out.
    pub open spec fn after_close(self, connection: u64) -> Diagnostics {
        (Diagnostics { active: self.active.wrapping_sub(1), ..self }).marked(
            connection,
            STAGE_CLOSED,
        )
    }
}

/// The mathematical model of a connection.
#[verifier::ext_equal]
pub struct ConnectionModel {
    /// The connection's number.
    pub number: u64,
    /// What was received and not yet cut into frames.
    pub pending: Seq<u8>,
}

/// An accepted connection.
#[derive(Debug)]
pub struct Connection {
    number: u64,
    buffer: FrameBuffer,
}

impl View for Connection {
    type V = ConnectionModel;

    closed spec fn view(&self) -> ConnectionModel {
        ConnectionModel { number: self.number, pending: self.buffer@ }
    }
}

impl Connection {
    /// Notes an accepted connection and gives it the next number.
    pub fn accept(diagnostics: &mut Diagnostics) -> (r: Self)
        ensures
            *final(diagnostics) == old(diagnostics).with_accepted(),
            r@ == (ConnectionModel {
                number: old(diagnostics).next_connection.wrapping_add(1),
                pending: seq![],
            }),
    {
        let number: u64 = diagnostics.accepted();
        Connection { number, buffer: FrameBuffer::new() }
    }

    /// The connection's number.
    pub fn number(&self) -> (r: u64)
        ensures
            r == self@.number,
    {
        self.number
    }

    /// Takes in what an attempt to receive came to, and returns whether the
    /// connection goes on.
    pub fn receive(&mut self, event: Received, diagnostics: &mut Diagnostics) -> (r: bool)
        ensures
            r == (event is Chunk || event is Idle),
            *final(diagnostics) == old(diagnostics).after_receive(old(self)@.number, event),
            final(self)@ == (ConnectionModel {
                pending: match event {
                    Received::Chunk(chunk) => old(self)@.pending + chunk@,
                    _ => old(self)@.pending,
                },
                ..old(self)@
            }),
    {
        match event {
            Received::Chunk(chunk) => {
                diagnostics.chunks = diagnostics.chunks.wrapping_add(1);
                diagnostics.mark(self.number, STAGE_RECEIVED);
                self.buffer.extend(chunk.as_slice());
                true
            },
            Received::Idle => true,
            Received::Closed => false,
            Received::Failed => {
                diagnostics.receive_errors = diagnostics.receive_errors.wrapping_add(1);
                diagnostics.mark(self.number, STAGE_RECEIVE_ERROR);
                false
            },
        }
    }

    /// Cuts the next frame for the engine off what was received. A malformed
    /// front ends the connection.
    pub fn next_frame(&mut self, diagnostics: &mut Diagnostics) -> (r: Front)
        ensures
            r.deep_view() == frames::front(old(self)@.pending),
            final(self)@ == (ConnectionModel {
                pending: frames::behind_front(old(self)@.pending),
                ..old(self)@
            }),
            *final(diagnostics) == old(diagnostics).after_cut(old(self)@.number, r.deep_view()),
    {
        let front = self.buffer.next_frame();
        match front {
            Front::Frame(frame) => {
                diagnostics.frames = diagnostics.frames.wrapping_add(1);
                diagnostics.mark_frame(self.number, frame.as_slice());
                Front::Frame(frame)
            },
            Front::Partial => Front::Partial,
            Front::Malformed => Front::Malformed,
        }
    }

    /// Takes in the engine's answer to a frame, and returns the response to
    /// send. Without one the connection ends.
    pub fn answered(
        &self,
        answer: Result<Vec<u8>, Error>,
        diagnostics: &mut Diagnostics,
    ) -> (r: Option<Vec<u8>>)
        ensures
            match answer {
                Ok(response) => r == Some(response),
                Err(_) => r is None,
            },
            *final(diagnostics) == old(diagnostics).after_answer(self@.number, answer is Ok),
    {
        match answer {
            Ok(response) => {
                diagnostics.handled = diagnostics.handled.wrapping_add(1);
                diagnostics.mark(self.number, STAGE_HANDLED);
                diagnostics.mark(self.number, STAGE_SENDING);
                Some(response)
            },
            Err(_) => {
                diagnostics.engine_errors = diagnostics.engine_errors.wrapping_add(1);
                diagnostics.mark(self.number, STAGE_ENGINE_ERROR);
                None
            },
        }
    }

    /// Takes in whether a response could be sent, and returns whether the
    /// connection goes on.
    pub fn sent(&self, sent: bool, diagnostics: &mut Diagnostics) -> (r: bool)
        ensures
            r == sent,
            *final(diagnostics) == old(diagnostics).after_send(self@.number, sent),
    {
        if sent {
            diagnostics.sent = diagnostics.sent.wrapping_add(1);
            diagnostics.mark(self.number, STAGE_SENT);
        } else {
            diagnostics.send_errors = diagnostics.send_errors.wrapping_add(1);
            diagnostics.mark(self.number, STAGE_SEND_ERROR);
        }
        sent
    }

    /// Notes that the connection has ended.
    pub fn close(self, diagnostics: &mut Diagnostics)
        ensures
            *final(diagnostics) == old(diagnostics).after_close(self@.number),
    {
        diagnostics.active = diagnostics.active.wrapping_sub(1);
        diagnostics.mark(self.number, STAGE_CLOSED);
    }
}

/// A connection counts as active from its acceptance to its end, whatever it
/// does in between.
pub proof fn law_active_counts_open_connections(
    before: Diagnostics,
    during: Diagnostics,
    connection: u64,
)
    requires
        during.active == before.with_accepted().active,
    ensures
        during.after_close(connection).active == before.active,
{
}

/// Nothing a connection does but its acceptance and its end changes how many
/// are active or how many were accepted.
pub proof fn law_traffic_keeps_the_connection_counts(
    diagnostics: Diagnostics,
    connection: u64,
    event: Received,
    cut: FrontModel,
    outcome: bool,
)
    ensures
        ({
            let received = diagnostics.after_receive(connection, event);
            let cut = diagnostics.after_cut(connection, cut);
            let answered = diagnostics.after_answer(connection, outcome);
            let sent = diagnostics.after_send(connection, outcome);
            &&& received.active == diagnostics.active && received.accepted == diagnostics.accepted
            &&& cut.active == diagnostics.active && cut.accepted == diagnostics.accepted
            &&& answered.active == diagnostics.active && answered.accepted == diagnostics.accepted
            &&& sent.active == diagnostics.active && sent.accepted == diagnostics.accepted
        }),
{
}

/// Every frame that is cut off is answered or counted as an engine error, and
/// every answer is sent or counted as a send error.
pub proof fn law_every_frame_is_accounted_for(
    diagnostics: Diagnostics,
    connection: u64,
    frame: Seq<u8>,
    answered: bool,
    sent: bool,
)
    ensures
        ({
            let cut = diagnostics.after_cut(connection, FrontModel::Frame(frame));
            let served = cut.after_answer(connection, answered);
            let done = if answered {
                served.after_send(connection, sent)
            } else {
                served
            };
            &&& done.frames == diagnostics.frames.wrapping_add(1)
            &&& answered ==> done.handled == diagnostics.handled.wrapping_add(1)
                && done.engine_errors == diagnostics.engine_errors
            &&& !answered ==> done.handled == diagnostics.handled && done.engine_errors
                == diagnostics.engine_errors.wrapping_add(1) && done.sent == diagnostics.sent
            &&& answered && sent ==> done.sent == diagnostics.sent.wrapping_add(1)
                && done.send_errors == diagnostics.send_errors
            &&& answered && !sent ==> done.sent == diagnostics.sent && done.send_errors
                == diagnostics.send_errors.wrapping_add(1)
        }),
{
}

/// It does not matter how the bytes were divided into chunks, nor when frames
/// are cut off: bytes that arrive later change neither a frame that is whole
/// nor a malformed front, and stay behind what was there.
pub proof fn law_chunking_does_not_matter(pending: Seq<u8>, more: Seq<u8>)
    ensures
        frames::front(pending) is Frame ==> {
            &&& frames::front(pending + more) == frames::front(pending)
            &&& frames::behind_front(pending + more) == frames::behind_front(pending) + more
        },
        frames::front(pending) is Malformed ==> frames::front(pending + more) is Malformed,
        !(frames::front(pending) is Frame) ==> frames::behind_front(pending) + more == pending + more,
{
    let all = pending + more;
    if pending.len() >= 4 {
        assert(all.take(4) =~= pending.take(4));
    }
    if let FrontModel::Frame(frame) = frames::front(pending) {
        let n = frame.len() as int;
        assert(frame =~= pending.take(n));
        assert(all.take(n) =~= pending.take(n));
        assert(all.skip(n) =~= pending.skip(n) + more);
    }
}

/// Every event of a connection leaves its mark: the connection and the stage it
/// reached, and one more step of progress for each stage. What is only waited
/// for leaves none.
pub proof fn law_events_leave_their_mark(
    diagnostics: Diagnostics,
    connection: u64,
    event: Received,
    frame: Seq<u8>,
    outcome: bool,
)
    ensures
        ({
            let received = diagnostics.after_receive(connection, event);
            let cut = diagnostics.after_cut(connection, FrontModel::Frame(frame));
            let answered = diagnostics.after_answer(connection, outcome);
            let sent = diagnostics.after_send(connection, outcome);
            let closed = diagnostics.after_close(connection);
            let accepted = diagnostics.with_accepted();
            let step = diagnostics.progress.wrapping_add(1);
            &&& event is Idle || event is Closed ==> received == diagnostics
            &&& event is Chunk || event is Failed ==> received.last_connection == connection
                && received.progress == step
            &&& event is Chunk ==> received.last_stage == STAGE_RECEIVED && received.chunks
                == diagnostics.chunks.wrapping_add(1) && received.receive_errors
                == diagnostics.receive_errors
            &&& event is Failed ==> received.last_stage == STAGE_RECEIVE_ERROR
                && received.receive_errors == diagnostics.receive_errors.wrapping_add(1)
                && received.chunks == diagnostics.chunks
            &&& cut.last_connection == connection && cut.last_stage == STAGE_DISPATCHING
                && cut.progress == step
            &&& answered.last_connection == connection
            &&& answered.last_stage == if outcome {
                STAGE_SENDING
            } else {
                STAGE_ENGINE_ERROR
            }
            &&& answered.progress == if outcome {
                step.wrapping_add(1)
            } else {
                step
            }
            &&& sent.last_connection == connection && sent.progress == step
            &&& sent.last_stage == if outcome {
                STAGE_SENT
            } else {
                STAGE_SEND_ERROR
            }
            &&& closed.last_connection == connection && closed.last_stage == STAGE_CLOSED
                && closed.progress == step
            &&& accepted.last_connection == accepted.next_connection && accepted.next_connection
                == diagnostics.next_connection.wrapping_add(1) && accepted.last_stage
                == STAGE_ACCEPTED && accepted.progress == step
        }),
{
}

/// What is noted of a frame is the key, version and correlation id of the
/// request in it.
pub proof fn law_noted_header_is_that_of_the_request(
    diagnostics: Diagnostics,
    connection: u64,
    frame: Seq<u8>,
)
    ensures
        ({
            let cut = diagnostics.after_cut(connection, FrontModel::Frame(frame));
            match request::peeked_header(frame) {
                Ok(header) => {
                    &&& (cut.last_api_key as u16) as i16 == header.api_key
                    &&& (cut.last_api_version as u16) as i16 == header.api_version
                    &&& (cut.last_correlation as u32) as i32 == header.correlation_id
                },
                Err(_) => {
                    &&& cut.last_api_key == diagnostics.last_api_key
                    &&& cut.last_api_version == diagnostics.last_api_version
                    &&& cut.last_correlation == diagnostics.last_correlation
                },
            }
        }),
{
    if frame.len() >= 12 {
        codec::lemma_capacities();
        lemma_value_fits(frame.subrange(4, 6));
        lemma_value_fits(frame.subrange(6, 8));
        lemma_value_fits(frame.subrange(8, 12));
    }
}

proof fn lemma_value_fits(bytes: Seq<u8>)
    ensures
        codec::be_value(bytes) < codec::capacity(bytes.len()),
    decreases bytes.len(),
{
    if bytes.len() > 0 {
        lemma_value_fits(bytes.drop_last());
    }
}

} // verus!
