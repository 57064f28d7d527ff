//! What holds of request frames.

use vstd::prelude::*;

use crate::broker_wire::codec;
use crate::broker_wire::protocol::{Error, MAX_FRAME_LEN};
use crate::broker_wire::request::{
    self, HeaderModel, NameItem, NamedBytesItem, RequestModel,
};

verus! {

proof fn lemma_find_coordinator_grows(s: Seq<u8>, t: Seq<u8>, pos: nat)
    requires
        codec::extends(s, t),
        request::parse_find_coordinator(s, pos).result is Ok,
    ensures
        request::parse_find_coordinator(t, pos) == request::parse_find_coordinator(s, pos),
{
    broadcast use codec::group_grows;

}

proof fn lemma_init_producer_id_grows(s: Seq<u8>, t: Seq<u8>, pos: nat)
    requires
        codec::extends(s, t),
        request::parse_init_producer_id(s, pos).result is Ok,
    ensures
        request::parse_init_producer_id(t, pos) == request::parse_init_producer_id(s, pos),
{
    broadcast use codec::group_grows;

}

proof fn lemma_add_partitions_to_txn_grows(s: Seq<u8>, t: Seq<u8>, pos: nat)
    requires
        codec::extends(s, t),
        request::parse_add_partitions_to_txn(s, pos).result is Ok,
    ensures
        request::parse_add_partitions_to_txn(t, pos) == request::parse_add_partitions_to_txn(s, pos),
{
    broadcast use codec::group_grows;
    broadcast use request::lemma_array_grows;

}

proof fn lemma_end_txn_grows(s: Seq<u8>, t: Seq<u8>, pos: nat)
    requires
        codec::extends(s, t),
        request::parse_end_txn(s, pos).result is Ok,
    ensures
        request::parse_end_txn(t, pos) == request::parse_end_txn(s, pos),
{
    broadcast use codec::group_grows;

}

proof fn lemma_protocols_grows(s: Seq<u8>, t: Seq<u8>, pos: nat)
    requires
        codec::extends(s, t),
        request::parse_protocols(s, pos).result is Ok,
    ensures
        request::parse_protocols(t, pos) == request::parse_protocols(s, pos),
{
    broadcast use codec::group_grows;

    let count = codec::parse_array_len(s, pos);
    let name = codec::parse_string(s, count.end);
    let metadata = request::parse_required_bytes(s, name.end);
    request::lemma_items_grow::<NamedBytesItem>(
        s,
        t,
        metadata.end,
        (count.result->Ok_0 - 1) as nat,
    );
}

proof fn lemma_join_group_grows(s: Seq<u8>, t: Seq<u8>, pos: nat)
    requires
        codec::extends(s, t),
        request::parse_join_group(s, pos).result is Ok,
    ensures
        request::parse_join_group(t, pos) == request::parse_join_group(s, pos),
{
    broadcast use codec::group_grows;

    let group = codec::parse_string(s, pos);
    let session = codec::parse_i32(s, group.end);
    let rebalance = codec::parse_i32(s, session.end);
    let member = codec::parse_string(s, rebalance.end);
    let kind = codec::parse_string(s, member.end);
    lemma_protocols_grows(s, t, kind.end);
}

proof fn lemma_sync_group_grows(s: Seq<u8>, t: Seq<u8>, pos: nat)
    requires
        codec::extends(s, t),
        request::parse_sync_group(s, pos).result is Ok,
    ensures
        request::parse_sync_group(t, pos) == request::parse_sync_group(s, pos),
{
    broadcast use codec::group_grows;
    broadcast use request::lemma_array_grows;

}

proof fn lemma_heartbeat_grows(s: Seq<u8>, t: Seq<u8>, pos: nat)
    requires
        codec::extends(s, t),
        request::parse_heartbeat(s, pos).result is Ok,
    ensures
        request::parse_heartbeat(t, pos) == request::parse_heartbeat(s, pos),
{
    broadcast use codec::group_grows;

}

proof fn lemma_leave_group_grows(s: Seq<u8>, t: Seq<u8>, pos: nat)
    requires
        codec::extends(s, t),
        request::parse_leave_group(s, pos).result is Ok,
    ensures
        request::parse_leave_group(t, pos) == request::parse_leave_group(s, pos),
{
    broadcast use codec::group_grows;

}

proof fn lemma_offset_commit_grows(s: Seq<u8>, t: Seq<u8>, pos: nat)
    requires
        codec::extends(s, t),
        request::parse_offset_commit(s, pos).result is Ok,
    ensures
        request::parse_offset_commit(t, pos) == request::parse_offset_commit(s, pos),
{
    broadcast use codec::group_grows;
}

proof fn lemma_offset_fetch_grows(s: Seq<u8>, t: Seq<u8>, pos: nat)
    requires
        codec::extends(s, t),
        request::parse_offset_fetch(s, pos).result is Ok,
    ensures
        request::parse_offset_fetch(t, pos) == request::parse_offset_fetch(s, pos),
{
    broadcast use codec::group_grows;

}

proof fn lemma_metadata_grows(s: Seq<u8>, t: Seq<u8>, pos: nat)
    requires
        codec::extends(s, t),
        request::parse_metadata(s, pos).result is Ok,
    ensures
        request::parse_metadata(t, pos) == request::parse_metadata(s, pos),
{
    broadcast use codec::group_grows;

    let count = codec::parse_nullable_array_len(s, pos);
    if count.result->Ok_0 is Some {
        request::lemma_items_grow::<NameItem>(s, t, count.end, count.result->Ok_0->Some_0 as nat);
    }
}

proof fn lemma_produce_grows(s: Seq<u8>, t: Seq<u8>, pos: nat)
    requires
        codec::extends(s, t),
        request::parse_produce(s, pos).result is Ok,
    ensures
        request::parse_produce(t, pos) == request::parse_produce(s, pos),
{
    broadcast use codec::group_grows;
    broadcast use request::lemma_array_grows;

}

proof fn lemma_fetch_grows(s: Seq<u8>, t: Seq<u8>, pos: nat)
    requires
        codec::extends(s, t),
        request::parse_fetch(s, pos).result is Ok,
    ensures
        request::parse_fetch(t, pos) == request::parse_fetch(s, pos),
{
    broadcast use codec::group_grows;
    broadcast use request::lemma_array_grows;

}

proof fn lemma_list_offsets_grows(s: Seq<u8>, t: Seq<u8>, pos: nat)
    requires
        codec::extends(s, t),
        request::parse_list_offsets(s, pos).result is Ok,
    ensures
        request::parse_list_offsets(t, pos) == request::parse_list_offsets(s, pos),
{
    broadcast use codec::group_grows;
    broadcast use request::lemma_array_grows;

}

proof fn lemma_body_grows(s: Seq<u8>, t: Seq<u8>, pos: nat, api_key: i16, api_version: i16)
    requires
        codec::extends(s, t),
        request::parse_body(s, pos, api_key, api_version).result is Ok,
    ensures
        request::parse_body(t, pos, api_key, api_version) == request::parse_body(
            s,
            pos,
            api_key,
            api_version,
        ),
{
    if request::parse_find_coordinator(s, pos).result is Ok {
        lemma_find_coordinator_grows(s, t, pos);
    }
    if request::parse_init_producer_id(s, pos).result is Ok {
        lemma_init_producer_id_grows(s, t, pos);
    }
    if request::parse_add_partitions_to_txn(s, pos).result is Ok {
        lemma_add_partitions_to_txn_grows(s, t, pos);
    }
    if request::parse_end_txn(s, pos).result is Ok {
        lemma_end_txn_grows(s, t, pos);
    }
    if request::parse_join_group(s, pos).result is Ok {
        lemma_join_group_grows(s, t, pos);
    }
    if request::parse_sync_group(s, pos).result is Ok {
        lemma_sync_group_grows(s, t, pos);
    }
    if request::parse_heartbeat(s, pos).result is Ok {
        lemma_heartbeat_grows(s, t, pos);
    }
    if request::parse_leave_group(s, pos).result is Ok {
        lemma_leave_group_grows(s, t, pos);
    }
    if request::parse_offset_commit(s, pos).result is Ok {
        lemma_offset_commit_grows(s, t, pos);
    }
    if request::parse_offset_fetch(s, pos).result is Ok {
        lemma_offset_fetch_grows(s, t, pos);
    }
    if request::parse_metadata(s, pos).result is Ok {
        lemma_metadata_grows(s, t, pos);
    }
    if request::parse_produce(s, pos).result is Ok {
        lemma_produce_grows(s, t, pos);
    }
    if request::parse_fetch(s, pos).result is Ok {
        lemma_fetch_grows(s, t, pos);
    }
    if request::parse_list_offsets(s, pos).result is Ok {
        lemma_list_offsets_grows(s, t, pos);
    }
}

/// A frame that is cut short is incomplete: every frame that can be decoded
/// lacks something once its last byte is gone.
pub proof fn law_truncated_frame_is_incomplete(frame: Seq<u8>)
    requires
        request::decoded_request(frame) is Ok,
    ensures
        request::decoded_request(frame.drop_last()) == Err::<RequestModel, Error>(Error::Incomplete),
{
    let cut = frame.drop_last();
    if cut.len() >= 4 {
        assert(cut.subrange(0, 4) =~= frame.subrange(0, 4));
    }
}

/// A frame that goes on after its request is invalid: one more byte, with a
/// length prefix that counts it, cannot be decoded.
pub proof fn law_trailing_byte_is_invalid(frame: Seq<u8>, longer: Seq<u8>)
    requires
        request::decoded_request(frame) is Ok,
        longer.len() == frame.len() + 1,
        longer.subrange(4, frame.len() as int) == frame.subrange(4, frame.len() as int),
        codec::i32_of(longer.subrange(0, 4)) == codec::i32_of(frame.subrange(0, 4)) + 1,
        codec::i32_of(longer.subrange(0, 4)) <= MAX_FRAME_LEN,
    ensures
        request::decoded_request(longer) == Err::<RequestModel, Error>(Error::Invalid),
{
    broadcast use codec::group_grows;

    let s = frame.skip(4);
    let t = longer.skip(4);
    assert(codec::extends(s, t)) by {
        assert forall|i: int| 0 <= i < s.len() implies #[trigger] t[i] == s[i] by {
            assert(longer.subrange(4, frame.len() as int)[i] == longer[i + 4]);
            assert(frame.subrange(4, frame.len() as int)[i] == frame[i + 4]);
        }
    }
    let header = request::parse_request_header(s, 0);
    let fields = header.result->Ok_0;
    assert(request::parse_request_header(t, 0) == header);
    lemma_body_grows(s, t, header.end, fields.api_key, fields.api_version);
}

/// A frame is judged by its length prefix before anything else is looked at.
pub proof fn law_length_prefix_comes_first(frame: Seq<u8>)
    ensures
        frame.len() < 4 ==> request::decoded_request(frame) == Err::<RequestModel, Error>(
            Error::Incomplete,
        ),
        frame.len() >= 4 ==> {
            let declared = codec::i32_of(frame.subrange(0, 4));
            &&& declared < 0 ==> request::decoded_request(frame) == Err::<RequestModel, Error>(
                Error::Invalid,
            )
            &&& declared > MAX_FRAME_LEN ==> request::decoded_request(frame) == Err::<
                RequestModel,
                Error,
            >(Error::TooLarge)
            &&& 0 <= declared <= MAX_FRAME_LEN && declared + 4 != frame.len()
                ==> request::decoded_request(frame) == Err::<RequestModel, Error>(Error::Incomplete)
        },
{
}

/// The header that can be told without decoding a frame is the header of the
/// request in it, but for the client id.
pub proof fn law_peeked_header_is_that_of_the_request(frame: Seq<u8>)
    requires
        request::decoded_request(frame) is Ok,
    ensures
        ({
            let header = request::decoded_request(frame)->Ok_0.header;
            request::peeked_header(frame) == Ok::<HeaderModel, Error>(
                HeaderModel { client_id: None, ..header },
            )
        }),
{
    let s = frame.skip(4);
    let head = request::parse_request_header(s, 0);
    assert(head.result is Ok);
    assert(codec::parse_i16(s, 0).result is Ok);
    assert(codec::parse_i16(s, 2).result is Ok);
    assert(codec::parse_i32(s, 4).result is Ok);
    assert(codec::parse_nullable_string(s, 8).result is Ok);
    assert(s.subrange(0, 2) =~= frame.subrange(4, 6));
    assert(s.subrange(2, 4) =~= frame.subrange(6, 8));
    assert(s.subrange(4, 8) =~= frame.subrange(8, 12));
}

} // verus!
