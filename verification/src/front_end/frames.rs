//! Cutting received bytes into request frames.

use vstd::prelude::*;

use crate::broker_wire::codec::{self, read_u32};
use crate::broker_wire::protocol::MAX_FRAME_LEN;
use crate::bytes::copy_bytes;

verus! {

/// The payload length that a frame prefix announces; a length that is not
/// positive or beyond the bound is no length.
pub open spec fn announced_len(prefix: Seq<u8>) -> Option<nat> {
    let length = codec::i32_of(prefix);
    if length <= 0 || length > MAX_FRAME_LEN {
        None
    } else {
        Some(length as nat)
    }
}

/// The payload length that the four bytes in front of a frame announce.
pub fn payload_len(prefix: &[u8]) -> (r: Option<usize>)
    requires
        prefix@.len() == 4,
    ensures
        match r {
            Some(len) => announced_len(prefix@) == Some(len as nat),
            None => announced_len(prefix@) is None,
        },
        r matches Some(len) ==> 0 < len <= MAX_FRAME_LEN,
{
    proof {
        assert(prefix@.subrange(0, 4) =~= prefix@);
    }
    let length: i32 = read_u32(prefix, 0) as i32;
    if length <= 0 || length as usize > MAX_FRAME_LEN {
        return None;
    }
    Some(length as usize)
}

/// What stands at the front of the bytes received so far.
#[verifier::ext_equal]
pub enum FrontModel {
    /// A whole frame.
    Frame(Seq<u8>),
    /// Not yet a whole frame.
    Partial,
    /// A length that cannot be.
    Malformed,
}

/// What stands at the front of `bytes`.
pub open spec fn front(bytes: Seq<u8>) -> FrontModel {
    if bytes.len() < 4 {
        FrontModel::Partial
    } else {
        match announced_len(bytes.take(4)) {
            None => FrontModel::Malformed,
            Some(len) => if bytes.len() < 4 + len {
                FrontModel::Partial
            } else {
                FrontModel::Frame(bytes.take((4 + len) as int))
            },
        }
    }
}

/// The bytes behind the first frame, if there is one.
pub open spec fn behind_front(bytes: Seq<u8>) -> Seq<u8> {
    match front(bytes) {
        FrontModel::Frame(frame) => bytes.skip(frame.len() as int),
        _ => bytes,
    }
}

/// What stands at the front of the bytes received so far.
#[derive(Debug, Eq, PartialEq)]
pub enum Front {
    /// A whole frame.
    Frame(Vec<u8>),
    /// Not yet a whole frame.
    Partial,
    /// A length that cannot be.
    Malformed,
}

impl DeepView for Front {
    type V = FrontModel;

    open spec fn deep_view(&self) -> FrontModel {
        match *self {
            Front::Frame(frame) => FrontModel::Frame(frame@),
            Front::Partial => FrontModel::Partial,
            Front::Malformed => FrontModel::Malformed,
        }
    }
}

/// The bytes received from a client and not yet cut into frames.
#[derive(Debug)]
pub struct FrameBuffer {
    bytes: Vec<u8>,
}

impl View for FrameBuffer {
    type V = Seq<u8>;

    closed spec fn view(&self) -> Seq<u8> {
        self.bytes@
    }
}

impl FrameBuffer {
    /// Creates an empty buffer.
    pub fn new() -> (r: Self)
        ensures
            r@ == Seq::<u8>::empty(),
    {
        FrameBuffer { bytes: Vec::new() }
    }

    /// Adds what was received.
    pub fn extend(&mut self, chunk: &[u8])
        ensures
            final(self)@ == old(self)@ + chunk@,
    {
        self.bytes.extend_from_slice(chunk);
    }

    /// Cuts the first frame off.
    pub fn next_frame(&mut self) -> (r: Front)
        ensures
            r.deep_view() == front(old(self)@),
            final(self)@ == behind_front(old(self)@),
    {
        if self.bytes.len() < 4 {
            return Front::Partial;
        }
        let prefix = vstd::slice::slice_subrange(self.bytes.as_slice(), 0, 4);
        proof {
            assert(prefix@ =~= self@.take(4));
        }
        match payload_len(prefix) {
            None => Front::Malformed,
            Some(len) => {
                let total: usize = 4 + len;
                if self.bytes.len() < total {
                    return Front::Partial;
                }
                let ghost before = self@;
                let slice = self.bytes.as_slice();
                let frame = copy_bytes(vstd::slice::slice_subrange(slice, 0, total));
                let rest = copy_bytes(vstd::slice::slice_subrange(slice, total, slice.len()));
                self.bytes = rest;
                proof {
                    assert(frame@ =~= before.take(total as int));
                    assert(self@ =~= before.skip(total as int));
                }
                Front::Frame(frame)
            },
        }
    }
}

/// Frames one after the other.
pub open spec fn stream_of(frames: Seq<Seq<u8>>) -> Seq<u8>
    decreases frames.len(),
{
    if frames.len() == 0 {
        seq![]
    } else {
        frames[0] + stream_of(frames.skip(1))
    }
}

/// Whether a byte string is one whole frame.
pub open spec fn is_frame(frame: Seq<u8>) -> bool {
    &&& frame.len() >= 4
    &&& announced_len(frame.take(4)) == Some((frame.len() - 4) as nat)
}

/// However the bytes of a stream of frames arrive, the first frame is cut off
/// as soon as it is whole, exactly as it was sent, and the rest stays.
pub proof fn law_stream_is_cut_into_frames(frame: Seq<u8>, rest: Seq<u8>)
    requires
        is_frame(frame),
    ensures
        front(frame + rest) == FrontModel::Frame(frame),
        behind_front(frame + rest) == rest,
{
    let bytes = frame + rest;
    assert(bytes.take(4) =~= frame.take(4));
    assert(bytes.take(frame.len() as int) =~= frame);
    assert(bytes.skip(frame.len() as int) =~= rest);
}

/// A stream of frames is cut into just those frames, in order.
pub proof fn law_frames_come_out_in_order(frames: Seq<Seq<u8>>)
    requires
        frames.len() > 0,
        forall|i: int| 0 <= i < frames.len() ==> is_frame(#[trigger] frames[i]),
    ensures
        front(stream_of(frames)) == FrontModel::Frame(frames[0]),
        behind_front(stream_of(frames)) == stream_of(frames.skip(1)),
{
    law_stream_is_cut_into_frames(frames[0], stream_of(frames.skip(1)));
}

/// A proper part of a frame is never taken for one.
pub proof fn law_partial_frame_waits(frame: Seq<u8>, n: int)
    requires
        is_frame(frame),
        0 <= n < frame.len(),
    ensures
        front(frame.take(n)) == FrontModel::Partial,
        behind_front(frame.take(n)) == frame.take(n),
{
    if n >= 4 {
        assert(frame.take(n).take(4) =~= frame.take(4));
    }
}

} // verus!
