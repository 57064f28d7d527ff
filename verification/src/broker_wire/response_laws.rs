//! What a client reads in a response: each one, read field by field in its
//! documented order, gives back what was encoded.

use vstd::prelude::*;

use crate::broker_core::log::RecordModel;
use crate::broker_wire::codec::{self, Parsed};
use crate::broker_wire::places;
use crate::broker_wire::protocol::Error;
use crate::broker_wire::record_batch;
use crate::broker_wire::response::{
    self, BrokerMetadata, BrokerMetadataModel, FetchPartitionResult, FetchPartitionResultModel,
    FetchResponse, FetchResponseModel, FetchTopicResult, FetchTopicResultModel, Field,
    FindCoordinatorResponse, FindCoordinatorResponseModel, InitProducerIdResponse,
    JoinGroupResponse, JoinGroupResponseModel, ListOffsetsPartitionResult, ListOffsetsResponse,
    ListOffsetsResponseModel, ListOffsetsTopicResult, ListOffsetsTopicResultModel,
    MetadataResponse, MetadataResponseModel, PartitionMetadata, PartitionMetadataModel,
    ProducePartitionResult, ProduceResponse, ProduceResponseModel, ProduceTopicResult,
    ProduceTopicResultModel, TopicMetadata, TopicMetadataModel, TransactionPartitionResult,
    TransactionPartitionResultModel,
};

verus! {

// ---------------------------------------------------------------------------
// Lists
// ---------------------------------------------------------------------------

/// A counted list, item by item.
pub open spec fn read_list<U>(
    s: Seq<u8>,
    pos: nat,
    read: spec_fn(Seq<u8>, nat) -> Parsed<U>,
) -> Parsed<Seq<U>> {
    codec::parse_array_len(s, pos).and_then(
        |count: usize, end: nat| codec::parse_many(s, end, count as nat, read),
    )
}

/// How an item is written that can be written.
spec fn written<T: Field>() -> spec_fn(<T as DeepView>::V) -> Seq<u8> {
    |value: <T as DeepView>::V| T::encoded(value)->Ok_0
}

proof fn lemma_written<T: Field>(items: Seq<<T as DeepView>::V>)
    requires
        codec::list_bytes(items, response::field_of::<T>()) is Ok,
    ensures
        codec::list_bytes(items, response::field_of::<T>())->Ok_0 == places::flat(
            items,
            written::<T>(),
        ),
        forall|i: int| 0 <= i < items.len() ==> T::encoded(#[trigger] items[i]) is Ok,
    decreases items.len(),
{
    if items.len() > 0 {
        let shorter = items.drop_last();
        lemma_written::<T>(shorter);
        assert forall|i: int| 0 <= i < items.len() implies T::encoded(#[trigger] items[i]) is Ok by {
            if i < shorter.len() {
                assert(shorter[i] == items[i]);
            }
        }
    }
}

/// A list that can be written has items that can be written.
proof fn lemma_items_written<T: Field>(items: Seq<<T as DeepView>::V>)
    requires
        response::array_of::<T>(items) is Ok,
    ensures
        forall|i: int| 0 <= i < items.len() ==> T::encoded(#[trigger] items[i]) is Ok,
{
    lemma_written::<T>(items);
}

/// A list is read back, when each item is read back where it stands.
proof fn lemma_list<T: Field, U>(
    s: Seq<u8>,
    pos: nat,
    items: Seq<<T as DeepView>::V>,
    read: spec_fn(Seq<u8>, nat) -> Parsed<U>,
    told: spec_fn(<T as DeepView>::V) -> U,
    rest: Seq<u8>,
)
    requires
        s.len() <= usize::MAX,
        response::array_of::<T>(items) is Ok,
        places::stands(s, pos, response::array_of::<T>(items)->Ok_0 + rest),
        forall|i: int, p: nat|
            #![trigger places::stands(s, p, T::encoded(items[i])->Ok_0)]
            0 <= i < items.len() && places::stands(s, p, T::encoded(items[i])->Ok_0) ==> read(s, p)
                == codec::parsed(told(items[i]), p + T::encoded(items[i])->Ok_0.len()),
    ensures
        read_list(s, pos, read) == codec::parsed(
            items.map_values(told),
            pos + response::array_of::<T>(items)->Ok_0.len(),
        ),
        places::stands(s, pos + response::array_of::<T>(items)->Ok_0.len(), rest),
{
    lemma_written::<T>(items);
    let write = written::<T>();
    assert forall|i: int, p: nat|
        #![trigger places::stands(s, p, write(items[i]))]
        0 <= i < items.len() && places::stands(s, p, write(items[i])) implies read(s, p)
        == codec::parsed(told(items[i]), p + write(items[i]).len()) by {
        assert(places::stands(s, p, T::encoded(items[i])->Ok_0));
    }
    assert(response::array_of::<T>(items)->Ok_0 == places::counted(items, write));
    places::lemma_counted(s, pos, items, write, read, told, rest);
}

/// A body stands in its frame behind the length and the correlation id.
proof fn lemma_framed(correlation_id: i32, body: Seq<u8>)
    ensures
        ({
            let frame = codec::frame_bytes(correlation_id, body);
            &&& frame.len() == 8 + body.len()
            &&& codec::i32_of(frame.subrange(4, 8)) == correlation_id
            &&& places::stands(frame, 8, body)
            &&& frame.len() < 0x8000_0000 ==> codec::i32_of(frame.subrange(0, 4)) == frame.len() - 4
        }),
{
    let frame = codec::frame_bytes(correlation_id, body);
    let payload = codec::i32_bytes(correlation_id) + body;
    codec::lemma_be_len(payload.len(), 4);
    codec::lemma_be_len((correlation_id as u32) as nat, 4);
    codec::law_integers_round_trip(0, 0, correlation_id, 0, 0);
    assert(frame.subrange(4, 8) =~= codec::i32_bytes(correlation_id));
    assert(frame.subrange(8, frame.len() as int) =~= body);
    assert(frame.subrange(0, 4) =~= codec::be(payload.len(), 4));
    codec::lemma_capacities();
    if frame.len() < 0x8000_0000 {
        codec::law_be_round_trip(payload.len(), 4);
    }
}

// ---------------------------------------------------------------------------
// Parts
// ---------------------------------------------------------------------------

/// A partition or broker number.
pub open spec fn read_index(s: Seq<u8>, pos: nat) -> Parsed<i32> {
    codec::parse_i32(s, pos).and_then(
        |index: i32, end: nat|
            codec::parsed(index, end),
    )
}

/// The same, for lists.
pub open spec fn index_reader() -> spec_fn(Seq<u8>, nat) -> Parsed<i32> {
    |s: Seq<u8>, pos: nat| read_index(s, pos)
}

proof fn lemma_index(s: Seq<u8>, pos: nat, value: i32, rest: Seq<u8>)
    requires
        s.len() <= usize::MAX,
        i32::encoded(value) is Ok,
        places::stands(s, pos, i32::encoded(value)->Ok_0 + rest),
    ensures
        read_index(s, pos) == codec::parsed(value, pos + i32::encoded(value)->Ok_0.len()),
        places::stands(s, pos + i32::encoded(value)->Ok_0.len(), rest),
{
    let f0 = codec::i32_bytes(value);
    codec::lemma_be_len((value as u32) as nat, 4);
    assert(i32::encoded(value)->Ok_0 + rest =~= f0 + rest);
    let p0 = pos;
    places::lemma_i32(s, p0, value, rest);
}

/// An API key with its lowest and highest version.
pub open spec fn read_version(s: Seq<u8>, pos: nat) -> Parsed<(i16, i16, i16)> {
    codec::parse_i16(s, pos).and_then(
        |key: i16, end: nat|
            codec::parse_i16(s, end).and_then(
                |low: i16, end: nat|
                    codec::parse_i16(s, end).and_then(
                        |high: i16, end: nat|
                            codec::parsed((key, low, high), end),
                    ),
            ),
    )
}

/// The same, for lists.
pub open spec fn version_reader() -> spec_fn(Seq<u8>, nat) -> Parsed<(i16, i16, i16)> {
    |s: Seq<u8>, pos: nat| read_version(s, pos)
}

proof fn lemma_version(s: Seq<u8>, pos: nat, value: (i16, i16, i16), rest: Seq<u8>)
    requires
        s.len() <= usize::MAX,
        <(i16, i16, i16)>::encoded(value) is Ok,
        places::stands(s, pos, <(i16, i16, i16)>::encoded(value)->Ok_0 + rest),
    ensures
        read_version(
            s,
            pos,
        ) == codec::parsed(value, pos + <(i16, i16, i16)>::encoded(value)->Ok_0.len()),
        places::stands(s, pos + <(i16, i16, i16)>::encoded(value)->Ok_0.len(), rest),
{
    let f0 = codec::i16_bytes(value.0);
    let f1 = codec::i16_bytes(value.1);
    let f2 = codec::i16_bytes(value.2);
    codec::lemma_be_len((value.0 as u16) as nat, 2);
    codec::lemma_be_len((value.1 as u16) as nat, 2);
    codec::lemma_be_len((value.2 as u16) as nat, 2);
    assert(<(i16, i16, i16)>::encoded(value)->Ok_0 + rest =~= f0 + (f1 + (f2 + rest)));
    let p0 = pos;
    places::lemma_i16(s, p0, value.0, f1 + (f2 + rest));
    let p1 = p0 + f0.len();
    places::lemma_i16(s, p1, value.1, f2 + rest);
    let p2 = p1 + f1.len();
    places::lemma_i16(s, p2, value.2, rest);
}

/// A producer and the offset at which what it aborted starts.
pub open spec fn read_aborted_entry(s: Seq<u8>, pos: nat) -> Parsed<(i64, i64)> {
    codec::parse_i64(s, pos).and_then(
        |producer_id: i64, end: nat|
            codec::parse_i64(s, end).and_then(
                |first_offset: i64, end: nat|
                    codec::parsed((producer_id, first_offset), end),
            ),
    )
}

/// The same, for lists.
pub open spec fn aborted_entry_reader() -> spec_fn(Seq<u8>, nat) -> Parsed<(i64, i64)> {
    |s: Seq<u8>, pos: nat| read_aborted_entry(s, pos)
}

proof fn lemma_aborted_entry(s: Seq<u8>, pos: nat, value: (i64, i64), rest: Seq<u8>)
    requires
        s.len() <= usize::MAX,
        <(i64, i64)>::encoded(value) is Ok,
        places::stands(s, pos, <(i64, i64)>::encoded(value)->Ok_0 + rest),
    ensures
        read_aborted_entry(
            s,
            pos,
        ) == codec::parsed(value, pos + <(i64, i64)>::encoded(value)->Ok_0.len()),
        places::stands(s, pos + <(i64, i64)>::encoded(value)->Ok_0.len(), rest),
{
    let f0 = codec::i64_bytes(value.0);
    let f1 = codec::i64_bytes(value.1);
    codec::lemma_be_len((value.0 as u64) as nat, 8);
    codec::lemma_be_len((value.1 as u64) as nat, 8);
    assert(<(i64, i64)>::encoded(value)->Ok_0 + rest =~= f0 + (f1 + rest));
    let p0 = pos;
    places::lemma_i64(s, p0, value.0, f1 + rest);
    let p1 = p0 + f0.len();
    places::lemma_i64(s, p1, value.1, rest);
}

/// A partition and its error code.
pub open spec fn read_partition_code(s: Seq<u8>, pos: nat) -> Parsed<(i32, i16)> {
    codec::parse_i32(s, pos).and_then(
        |partition: i32, end: nat|
            codec::parse_i16(s, end).and_then(
                |error: i16, end: nat|
                    codec::parsed((partition, error), end),
            ),
    )
}

/// The same, for lists.
pub open spec fn partition_code_reader() -> spec_fn(Seq<u8>, nat) -> Parsed<(i32, i16)> {
    |s: Seq<u8>, pos: nat| read_partition_code(s, pos)
}

proof fn lemma_partition_code(s: Seq<u8>, pos: nat, value: (i32, i16), rest: Seq<u8>)
    requires
        s.len() <= usize::MAX,
        <(i32, i16)>::encoded(value) is Ok,
        places::stands(s, pos, <(i32, i16)>::encoded(value)->Ok_0 + rest),
    ensures
        read_partition_code(
            s,
            pos,
        ) == codec::parsed(value, pos + <(i32, i16)>::encoded(value)->Ok_0.len()),
        places::stands(s, pos + <(i32, i16)>::encoded(value)->Ok_0.len(), rest),
{
    let f0 = codec::i32_bytes(value.0);
    let f1 = codec::i16_bytes(value.1);
    codec::lemma_be_len((value.0 as u32) as nat, 4);
    codec::lemma_be_len((value.1 as u16) as nat, 2);
    assert(<(i32, i16)>::encoded(value)->Ok_0 + rest =~= f0 + (f1 + rest));
    let p0 = pos;
    places::lemma_i32(s, p0, value.0, f1 + rest);
    let p1 = p0 + f0.len();
    places::lemma_i16(s, p1, value.1, rest);
}

/// A group member and its metadata.
pub open spec fn read_member(s: Seq<u8>, pos: nat) -> Parsed<(Seq<u8>, Seq<u8>)> {
    codec::parse_string(s, pos).and_then(
        |member_id: Seq<u8>, end: nat|
            codec::parse_bytes(s, end).and_then(
                |metadata: Option<Seq<u8>>, end: nat|
                    match metadata {
                        None => codec::failed(Error::Invalid, end),
                        Some(metadata) => {
                            codec::parsed((member_id, metadata), end)
                        },
                    },
            ),
    )
}

/// The same, for lists.
pub open spec fn member_reader() -> spec_fn(Seq<u8>, nat) -> Parsed<(Seq<u8>, Seq<u8>)> {
    |s: Seq<u8>, pos: nat| read_member(s, pos)
}

proof fn lemma_member(s: Seq<u8>, pos: nat, value: (Seq<u8>, Seq<u8>), rest: Seq<u8>)
    requires
        s.len() <= usize::MAX,
        <(Vec<u8>, Vec<u8>)>::encoded(value) is Ok,
        places::stands(s, pos, <(Vec<u8>, Vec<u8>)>::encoded(value)->Ok_0 + rest),
    ensures
        read_member(
            s,
            pos,
        ) == codec::parsed(value, pos + <(Vec<u8>, Vec<u8>)>::encoded(value)->Ok_0.len()),
        places::stands(s, pos + <(Vec<u8>, Vec<u8>)>::encoded(value)->Ok_0.len(), rest),
{
    let f0 = places::string(value.0);
    let f1 = places::blob(value.1);
    codec::lemma_be_len(((value.0.len() as i16) as u16) as nat, 2);
    codec::lemma_be_len(((value.1.len() as i32) as u32) as nat, 4);
    assert(<(Vec<u8>, Vec<u8>)>::encoded(value)->Ok_0 + rest =~= f0 + (f1 + rest));
    let p0 = pos;
    places::lemma_string(s, p0, value.0, f1 + rest);
    let p1 = p0 + f0.len();
    places::lemma_blob(s, p1, value.1, rest);
}

// ---------------------------------------------------------------------------
// Metadata
// ---------------------------------------------------------------------------

/// A broker: its number, host and port, and no rack.
pub open spec fn read_broker(s: Seq<u8>, pos: nat) -> Parsed<BrokerMetadataModel> {
    codec::parse_i32(s, pos).and_then(
        |node_id: i32, end: nat|
            codec::parse_string(s, end).and_then(
                |host: Seq<u8>, end: nat|
                    codec::parse_i32(s, end).and_then(
                        |port: i32, end: nat|
                            codec::parse_nullable_string(s, end).and_then(
                                |rack: Option<Seq<u8>>, end: nat|
                                    if rack is Some {
                                        codec::failed(Error::Invalid, end)
                                    } else {
                                        codec::parsed(
                                            BrokerMetadataModel { node_id, host, port },
                                            end,
                                        )
                                    },
                            ),
                    ),
            ),
    )
}

/// The same, for lists.
pub open spec fn broker_reader() -> spec_fn(Seq<u8>, nat) -> Parsed<BrokerMetadataModel> {
    |s: Seq<u8>, pos: nat| read_broker(s, pos)
}

proof fn lemma_broker(s: Seq<u8>, pos: nat, value: BrokerMetadataModel, rest: Seq<u8>)
    requires
        s.len() <= usize::MAX,
        BrokerMetadata::encoded(value) is Ok,
        places::stands(s, pos, BrokerMetadata::encoded(value)->Ok_0 + rest),
    ensures
        read_broker(
            s,
            pos,
        ) == codec::parsed(value, pos + BrokerMetadata::encoded(value)->Ok_0.len()),
        places::stands(s, pos + BrokerMetadata::encoded(value)->Ok_0.len(), rest),
{
    let f0 = codec::i32_bytes(value.node_id);
    let f1 = places::string(value.host);
    let f2 = codec::i32_bytes(value.port);
    let f3 = codec::i16_bytes((-1) as i16);
    codec::lemma_be_len((value.node_id as u32) as nat, 4);
    codec::lemma_be_len(((value.host.len() as i16) as u16) as nat, 2);
    codec::lemma_be_len((value.port as u32) as nat, 4);
    codec::lemma_be_len((((-1) as i16) as u16) as nat, 2);
    assert(BrokerMetadata::encoded(value)->Ok_0 + rest =~= f0 + (f1 + (f2 + (f3 + rest))));
    let p0 = pos;
    places::lemma_i32(s, p0, value.node_id, f1 + (f2 + (f3 + rest)));
    let p1 = p0 + f0.len();
    places::lemma_string(s, p1, value.host, f2 + (f3 + rest));
    let p2 = p1 + f1.len();
    places::lemma_i32(s, p2, value.port, f3 + rest);
    let p3 = p2 + f2.len();
    places::lemma_nullable(s, p3, None, rest);
}

/// A partition: its error code, number, leader, replicas and replicas in sync.
pub open spec fn read_partition(s: Seq<u8>, pos: nat) -> Parsed<PartitionMetadataModel> {
    codec::parse_i16(s, pos).and_then(
        |error: i16, end: nat|
            codec::parse_i32(s, end).and_then(
                |partition: i32, end: nat|
                    codec::parse_i32(s, end).and_then(
                        |leader: i32, end: nat|
                            read_list(s, end, index_reader()).and_then(
                                |replicas: Seq<i32>, end: nat|
                                    read_list(s, end, index_reader()).and_then(
                                        |isr: Seq<i32>, end: nat|
                                            codec::parsed(
                                                PartitionMetadataModel {
                                                    error,
                                                    partition,
                                                    leader,
                                                    replicas,
                                                    isr,
                                                },
                                                end,
                                            ),
                                    ),
                            ),
                    ),
            ),
    )
}

/// The same, for lists.
pub open spec fn partition_reader() -> spec_fn(Seq<u8>, nat) -> Parsed<PartitionMetadataModel> {
    |s: Seq<u8>, pos: nat| read_partition(s, pos)
}

proof fn lemma_partition(s: Seq<u8>, pos: nat, value: PartitionMetadataModel, rest: Seq<u8>)
    requires
        s.len() <= usize::MAX,
        PartitionMetadata::encoded(value) is Ok,
        places::stands(s, pos, PartitionMetadata::encoded(value)->Ok_0 + rest),
    ensures
        read_partition(
            s,
            pos,
        ) == codec::parsed(value, pos + PartitionMetadata::encoded(value)->Ok_0.len()),
        places::stands(s, pos + PartitionMetadata::encoded(value)->Ok_0.len(), rest),
{
    let f0 = codec::i16_bytes(value.error);
    let f1 = codec::i32_bytes(value.partition);
    let f2 = codec::i32_bytes(value.leader);
    let f3 = response::array_of::<i32>(value.replicas)->Ok_0;
    let f4 = response::array_of::<i32>(value.isr)->Ok_0;
    codec::lemma_be_len((value.error as u16) as nat, 2);
    codec::lemma_be_len((value.partition as u32) as nat, 4);
    codec::lemma_be_len((value.leader as u32) as nat, 4);
    assert(PartitionMetadata::encoded(value)->Ok_0 + rest
        =~= f0 + (f1 + (f2 + (f3 + (f4 + rest)))));
    let p0 = pos;
    places::lemma_i16(s, p0, value.error, f1 + (f2 + (f3 + (f4 + rest))));
    let p1 = p0 + f0.len();
    places::lemma_i32(s, p1, value.partition, f2 + (f3 + (f4 + rest)));
    let p2 = p1 + f1.len();
    places::lemma_i32(s, p2, value.leader, f3 + (f4 + rest));
    let p3 = p2 + f2.len();
    let told3 = |item: i32| item;
    lemma_items_written::<i32>(value.replicas);
    assert forall|i: int, p: nat|
        #![trigger places::stands(s, p, <i32 as Field>::encoded(value.replicas[i])->Ok_0)]
        0 <= i < value.replicas.len() && places::stands(
            s,
            p,
            <i32 as Field>::encoded(value.replicas[i])->Ok_0,
        ) implies index_reader()(
        s,
        p,
    ) == codec::parsed(
        told3(value.replicas[i]),
        p + <i32 as Field>::encoded(value.replicas[i])->Ok_0.len(),
    ) by {
        let bytes = <i32 as Field>::encoded(value.replicas[i])->Ok_0;
        assert(bytes + seq![] =~= bytes);
        lemma_index(s, p, value.replicas[i], seq![]);
    }
    lemma_list::<i32, i32>(s, p3, value.replicas, index_reader(), told3, f4 + rest);
    assert(value.replicas.map_values(told3) =~= value.replicas);
    let p4 = p3 + f3.len();
    let told4 = |item: i32| item;
    lemma_items_written::<i32>(value.isr);
    assert forall|i: int, p: nat|
        #![trigger places::stands(s, p, <i32 as Field>::encoded(value.isr[i])->Ok_0)]
        0 <= i < value.isr.len() && places::stands(
            s,
            p,
            <i32 as Field>::encoded(value.isr[i])->Ok_0,
        ) implies index_reader()(
        s,
        p,
    ) == codec::parsed(
        told4(value.isr[i]),
        p + <i32 as Field>::encoded(value.isr[i])->Ok_0.len(),
    ) by {
        let bytes = <i32 as Field>::encoded(value.isr[i])->Ok_0;
        assert(bytes + seq![] =~= bytes);
        lemma_index(s, p, value.isr[i], seq![]);
    }
    lemma_list::<i32, i32>(s, p4, value.isr, index_reader(), told4, rest);
    assert(value.isr.map_values(told4) =~= value.isr);
}

/// A topic: its error code, name, whether it is internal, and its partitions.
pub open spec fn read_topic(s: Seq<u8>, pos: nat) -> Parsed<TopicMetadataModel> {
    codec::parse_i16(s, pos).and_then(
        |error: i16, end: nat|
            codec::parse_string(s, end).and_then(
                |name: Seq<u8>, end: nat|
                    codec::parse_i8(s, end).and_then(
                        |internal: i8, end: nat|
                            if internal != 0 && internal != 1 {
                                codec::failed(Error::Invalid, end)
                            } else {
                                read_list(s, end, partition_reader()).and_then(
                                    |partitions: Seq<PartitionMetadataModel>, end: nat|
                                        codec::parsed(
                                            TopicMetadataModel {
                                                error,
                                                name,
                                                is_internal: internal == 1,
                                                partitions,
                                            },
                                            end,
                                        ),
                                )
                            },
                    ),
            ),
    )
}

/// The same, for lists.
pub open spec fn topic_reader() -> spec_fn(Seq<u8>, nat) -> Parsed<TopicMetadataModel> {
    |s: Seq<u8>, pos: nat| read_topic(s, pos)
}

proof fn lemma_topic(s: Seq<u8>, pos: nat, value: TopicMetadataModel, rest: Seq<u8>)
    requires
        s.len() <= usize::MAX,
        TopicMetadata::encoded(value) is Ok,
        places::stands(s, pos, TopicMetadata::encoded(value)->Ok_0 + rest),
    ensures
        read_topic(s, pos) == codec::parsed(value, pos + TopicMetadata::encoded(value)->Ok_0.len()),
        places::stands(s, pos + TopicMetadata::encoded(value)->Ok_0.len(), rest),
{
    let f0 = codec::i16_bytes(value.error);
    let f1 = places::string(value.name);
    let f2 = codec::i8_bytes((if value.is_internal { 1i8 } else { 0i8 }));
    let f3 = response::array_of::<PartitionMetadata>(value.partitions)->Ok_0;
    codec::lemma_be_len((value.error as u16) as nat, 2);
    codec::lemma_be_len(((value.name.len() as i16) as u16) as nat, 2);
    assert(TopicMetadata::encoded(value)->Ok_0 + rest =~= f0 + (f1 + (f2 + (f3 + rest))));
    let p0 = pos;
    places::lemma_i16(s, p0, value.error, f1 + (f2 + (f3 + rest)));
    let p1 = p0 + f0.len();
    places::lemma_string(s, p1, value.name, f2 + (f3 + rest));
    let p2 = p1 + f1.len();
    places::lemma_i8(s, p2, (if value.is_internal { 1i8 } else { 0i8 }), f3 + rest);
    let p3 = p2 + f2.len();
    let told3 = |item: PartitionMetadataModel| item;
    lemma_items_written::<PartitionMetadata>(value.partitions);
    assert forall|i: int, p: nat|
        #![trigger places::stands(s, p, <PartitionMetadata as Field>::encoded(value.partitions[i])->Ok_0)]
        0 <= i < value.partitions.len() && places::stands(
            s,
            p,
            <PartitionMetadata as Field>::encoded(value.partitions[i])->Ok_0,
        ) implies partition_reader()(
        s,
        p,
    ) == codec::parsed(
        told3(value.partitions[i]),
        p + <PartitionMetadata as Field>::encoded(value.partitions[i])->Ok_0.len(),
    ) by {
        let bytes = <PartitionMetadata as Field>::encoded(value.partitions[i])->Ok_0;
        assert(bytes + seq![] =~= bytes);
        lemma_partition(s, p, value.partitions[i], seq![]);
    }
    lemma_list::<PartitionMetadata, PartitionMetadataModel>(
        s,
        p3,
        value.partitions,
        partition_reader(),
        told3,
        rest,
    );
    assert(value.partitions.map_values(told3) =~= value.partitions);
}

/// A metadata response: the brokers, the controller and the topics.
pub open spec fn read_metadata(s: Seq<u8>, pos: nat) -> Parsed<MetadataResponseModel> {
    read_list(s, pos, broker_reader()).and_then(
        |brokers: Seq<BrokerMetadataModel>, end: nat|
            codec::parse_i32(s, end).and_then(
                |controller_id: i32, end: nat|
                    read_list(s, end, topic_reader()).and_then(
                        |topics: Seq<TopicMetadataModel>, end: nat|
                            codec::parsed(
                                MetadataResponseModel { brokers, controller_id, topics },
                                end,
                            ),
                    ),
            ),
    )
}

proof fn lemma_metadata(s: Seq<u8>, pos: nat, value: MetadataResponseModel, rest: Seq<u8>)
    requires
        s.len() <= usize::MAX,
        MetadataResponse::encoded(value) is Ok,
        places::stands(s, pos, MetadataResponse::encoded(value)->Ok_0 + rest),
    ensures
        read_metadata(
            s,
            pos,
        ) == codec::parsed(value, pos + MetadataResponse::encoded(value)->Ok_0.len()),
        places::stands(s, pos + MetadataResponse::encoded(value)->Ok_0.len(), rest),
{
    let f0 = response::array_of::<BrokerMetadata>(value.brokers)->Ok_0;
    let f1 = codec::i32_bytes(value.controller_id);
    let f2 = response::array_of::<TopicMetadata>(value.topics)->Ok_0;
    codec::lemma_be_len((value.controller_id as u32) as nat, 4);
    assert(MetadataResponse::encoded(value)->Ok_0 + rest =~= f0 + (f1 + (f2 + rest)));
    let p0 = pos;
    let told0 = |item: BrokerMetadataModel| item;
    lemma_items_written::<BrokerMetadata>(value.brokers);
    assert forall|i: int, p: nat|
        #![trigger places::stands(s, p, <BrokerMetadata as Field>::encoded(value.brokers[i])->Ok_0)]
        0 <= i < value.brokers.len() && places::stands(
            s,
            p,
            <BrokerMetadata as Field>::encoded(value.brokers[i])->Ok_0,
        ) implies broker_reader()(
        s,
        p,
    ) == codec::parsed(
        told0(value.brokers[i]),
        p + <BrokerMetadata as Field>::encoded(value.brokers[i])->Ok_0.len(),
    ) by {
        let bytes = <BrokerMetadata as Field>::encoded(value.brokers[i])->Ok_0;
        assert(bytes + seq![] =~= bytes);
        lemma_broker(s, p, value.brokers[i], seq![]);
    }
    lemma_list::<BrokerMetadata, BrokerMetadataModel>(
        s,
        p0,
        value.brokers,
        broker_reader(),
        told0,
        f1 + (f2 + rest),
    );
    assert(value.brokers.map_values(told0) =~= value.brokers);
    let p1 = p0 + f0.len();
    places::lemma_i32(s, p1, value.controller_id, f2 + rest);
    let p2 = p1 + f1.len();
    let told2 = |item: TopicMetadataModel| item;
    lemma_items_written::<TopicMetadata>(value.topics);
    assert forall|i: int, p: nat|
        #![trigger places::stands(s, p, <TopicMetadata as Field>::encoded(value.topics[i])->Ok_0)]
        0 <= i < value.topics.len() && places::stands(
            s,
            p,
            <TopicMetadata as Field>::encoded(value.topics[i])->Ok_0,
        ) implies topic_reader()(
        s,
        p,
    ) == codec::parsed(
        told2(value.topics[i]),
        p + <TopicMetadata as Field>::encoded(value.topics[i])->Ok_0.len(),
    ) by {
        let bytes = <TopicMetadata as Field>::encoded(value.topics[i])->Ok_0;
        assert(bytes + seq![] =~= bytes);
        lemma_topic(s, p, value.topics[i], seq![]);
    }
    lemma_list::<TopicMetadata, TopicMetadataModel>(
        s,
        p2,
        value.topics,
        topic_reader(),
        told2,
        rest,
    );
    assert(value.topics.map_values(told2) =~= value.topics);
}

/// A metadata response is read back as it was meant.
pub proof fn law_metadata_reads_back(
    correlation_id: i32,
    value: MetadataResponseModel,
    frame: Seq<u8>,
)
    requires
        frame.len() <= usize::MAX,
        codec::frame_result(
            correlation_id,
            MetadataResponse::encoded(value),
        ) == Ok::<Seq<u8>, Error>(frame),
    ensures
        codec::i32_of(frame.subrange(4, 8)) == correlation_id,
        read_metadata(frame, 8) == codec::parsed(value, frame.len()),
{
    let body = MetadataResponse::encoded(value)->Ok_0;
    lemma_framed(correlation_id, body);
    assert(body + seq![] =~= body);
    lemma_metadata(frame, 8, value, seq![]);
}

// ---------------------------------------------------------------------------
// Producing
// ---------------------------------------------------------------------------

/// A produced partition: its number, error code, base offset and append time.
pub open spec fn read_produced(s: Seq<u8>, pos: nat) -> Parsed<ProducePartitionResult> {
    codec::parse_i32(s, pos).and_then(
        |partition: i32, end: nat|
            codec::parse_i16(s, end).and_then(
                |error: i16, end: nat|
                    codec::parse_i64(s, end).and_then(
                        |base_offset: i64, end: nat|
                            codec::parse_i64(s, end).and_then(
                                |log_append_time_ms: i64, end: nat|
                                    codec::parsed(
                                        ProducePartitionResult {
                                            partition,
                                            error,
                                            base_offset,
                                            log_append_time_ms,
                                        },
                                        end,
                                    ),
                            ),
                    ),
            ),
    )
}

/// The same, for lists.
pub open spec fn produced_reader() -> spec_fn(Seq<u8>, nat) -> Parsed<ProducePartitionResult> {
    |s: Seq<u8>, pos: nat| read_produced(s, pos)
}

proof fn lemma_produced(s: Seq<u8>, pos: nat, value: ProducePartitionResult, rest: Seq<u8>)
    requires
        s.len() <= usize::MAX,
        ProducePartitionResult::encoded(value) is Ok,
        places::stands(s, pos, ProducePartitionResult::encoded(value)->Ok_0 + rest),
    ensures
        read_produced(
            s,
            pos,
        ) == codec::parsed(value, pos + ProducePartitionResult::encoded(value)->Ok_0.len()),
        places::stands(s, pos + ProducePartitionResult::encoded(value)->Ok_0.len(), rest),
{
    let f0 = codec::i32_bytes(value.partition);
    let f1 = codec::i16_bytes(value.error);
    let f2 = codec::i64_bytes(value.base_offset);
    let f3 = codec::i64_bytes(value.log_append_time_ms);
    codec::lemma_be_len((value.partition as u32) as nat, 4);
    codec::lemma_be_len((value.error as u16) as nat, 2);
    codec::lemma_be_len((value.base_offset as u64) as nat, 8);
    codec::lemma_be_len((value.log_append_time_ms as u64) as nat, 8);
    assert(ProducePartitionResult::encoded(value)->Ok_0 + rest =~= f0 + (f1 + (f2 + (f3 + rest))));
    let p0 = pos;
    places::lemma_i32(s, p0, value.partition, f1 + (f2 + (f3 + rest)));
    let p1 = p0 + f0.len();
    places::lemma_i16(s, p1, value.error, f2 + (f3 + rest));
    let p2 = p1 + f1.len();
    places::lemma_i64(s, p2, value.base_offset, f3 + rest);
    let p3 = p2 + f2.len();
    places::lemma_i64(s, p3, value.log_append_time_ms, rest);
}

/// A produced topic: its name and partitions.
pub open spec fn read_produced_topic(s: Seq<u8>, pos: nat) -> Parsed<ProduceTopicResultModel> {
    codec::parse_string(s, pos).and_then(
        |name: Seq<u8>, end: nat|
            read_list(s, end, produced_reader()).and_then(
                |partitions: Seq<ProducePartitionResult>, end: nat|
                    codec::parsed(ProduceTopicResultModel { name, partitions }, end),
            ),
    )
}

/// The same, for lists.
pub open spec fn produced_topic_reader() -> spec_fn(
    Seq<u8>,
    nat,
) -> Parsed<ProduceTopicResultModel> {
    |s: Seq<u8>, pos: nat| read_produced_topic(s, pos)
}

proof fn lemma_produced_topic(s: Seq<u8>, pos: nat, value: ProduceTopicResultModel, rest: Seq<u8>)
    requires
        s.len() <= usize::MAX,
        ProduceTopicResult::encoded(value) is Ok,
        places::stands(s, pos, ProduceTopicResult::encoded(value)->Ok_0 + rest),
    ensures
        read_produced_topic(
            s,
            pos,
        ) == codec::parsed(value, pos + ProduceTopicResult::encoded(value)->Ok_0.len()),
        places::stands(s, pos + ProduceTopicResult::encoded(value)->Ok_0.len(), rest),
{
    let f0 = places::string(value.name);
    let f1 = response::array_of::<ProducePartitionResult>(value.partitions)->Ok_0;
    codec::lemma_be_len(((value.name.len() as i16) as u16) as nat, 2);
    assert(ProduceTopicResult::encoded(value)->Ok_0 + rest =~= f0 + (f1 + rest));
    let p0 = pos;
    places::lemma_string(s, p0, value.name, f1 + rest);
    let p1 = p0 + f0.len();
    let told1 = |item: ProducePartitionResult| item;
    lemma_items_written::<ProducePartitionResult>(value.partitions);
    assert forall|i: int, p: nat|
        #![trigger places::stands(s, p, <ProducePartitionResult as Field>::encoded(value.partitions[i])->Ok_0)]
        0 <= i < value.partitions.len() && places::stands(
            s,
            p,
            <ProducePartitionResult as Field>::encoded(value.partitions[i])->Ok_0,
        ) implies produced_reader()(
        s,
        p,
    ) == codec::parsed(
        told1(value.partitions[i]),
        p + <ProducePartitionResult as Field>::encoded(value.partitions[i])->Ok_0.len(),
    ) by {
        let bytes = <ProducePartitionResult as Field>::encoded(value.partitions[i])->Ok_0;
        assert(bytes + seq![] =~= bytes);
        lemma_produced(s, p, value.partitions[i], seq![]);
    }
    lemma_list::<ProducePartitionResult, ProducePartitionResult>(
        s,
        p1,
        value.partitions,
        produced_reader(),
        told1,
        rest,
    );
    assert(value.partitions.map_values(told1) =~= value.partitions);
}

/// A produce response: the topics and the throttle time.
pub open spec fn read_produce(s: Seq<u8>, pos: nat) -> Parsed<ProduceResponseModel> {
    read_list(s, pos, produced_topic_reader()).and_then(
        |topics: Seq<ProduceTopicResultModel>, end: nat|
            codec::parse_i32(s, end).and_then(
                |throttle_time_ms: i32, end: nat|
                    codec::parsed(ProduceResponseModel { topics, throttle_time_ms }, end),
            ),
    )
}

proof fn lemma_produce(s: Seq<u8>, pos: nat, value: ProduceResponseModel, rest: Seq<u8>)
    requires
        s.len() <= usize::MAX,
        ProduceResponse::encoded(value) is Ok,
        places::stands(s, pos, ProduceResponse::encoded(value)->Ok_0 + rest),
    ensures
        read_produce(
            s,
            pos,
        ) == codec::parsed(value, pos + ProduceResponse::encoded(value)->Ok_0.len()),
        places::stands(s, pos + ProduceResponse::encoded(value)->Ok_0.len(), rest),
{
    let f0 = response::array_of::<ProduceTopicResult>(value.topics)->Ok_0;
    let f1 = codec::i32_bytes(value.throttle_time_ms);
    codec::lemma_be_len((value.throttle_time_ms as u32) as nat, 4);
    assert(ProduceResponse::encoded(value)->Ok_0 + rest =~= f0 + (f1 + rest));
    let p0 = pos;
    let told0 = |item: ProduceTopicResultModel| item;
    lemma_items_written::<ProduceTopicResult>(value.topics);
    assert forall|i: int, p: nat|
        #![trigger places::stands(s, p, <ProduceTopicResult as Field>::encoded(value.topics[i])->Ok_0)]
        0 <= i < value.topics.len() && places::stands(
            s,
            p,
            <ProduceTopicResult as Field>::encoded(value.topics[i])->Ok_0,
        ) implies produced_topic_reader()(
        s,
        p,
    ) == codec::parsed(
        told0(value.topics[i]),
        p + <ProduceTopicResult as Field>::encoded(value.topics[i])->Ok_0.len(),
    ) by {
        let bytes = <ProduceTopicResult as Field>::encoded(value.topics[i])->Ok_0;
        assert(bytes + seq![] =~= bytes);
        lemma_produced_topic(s, p, value.topics[i], seq![]);
    }
    lemma_list::<ProduceTopicResult, ProduceTopicResultModel>(
        s,
        p0,
        value.topics,
        produced_topic_reader(),
        told0,
        f1 + rest,
    );
    assert(value.topics.map_values(told0) =~= value.topics);
    let p1 = p0 + f0.len();
    places::lemma_i32(s, p1, value.throttle_time_ms, rest);
}

/// A produce response is read back as it was meant.
pub proof fn law_produce_reads_back(
    correlation_id: i32,
    value: ProduceResponseModel,
    frame: Seq<u8>,
)
    requires
        frame.len() <= usize::MAX,
        codec::frame_result(
            correlation_id,
            ProduceResponse::encoded(value),
        ) == Ok::<Seq<u8>, Error>(frame),
    ensures
        codec::i32_of(frame.subrange(4, 8)) == correlation_id,
        read_produce(frame, 8) == codec::parsed(value, frame.len()),
{
    let body = ProduceResponse::encoded(value)->Ok_0;
    lemma_framed(correlation_id, body);
    assert(body + seq![] =~= body);
    lemma_produce(frame, 8, value, seq![]);
}

// ---------------------------------------------------------------------------
// Listing offsets
// ---------------------------------------------------------------------------

/// A listed partition: its number, error code, timestamp and offset.
pub open spec fn read_listed(s: Seq<u8>, pos: nat) -> Parsed<ListOffsetsPartitionResult> {
    codec::parse_i32(s, pos).and_then(
        |partition: i32, end: nat|
            codec::parse_i16(s, end).and_then(
                |error: i16, end: nat|
                    codec::parse_i64(s, end).and_then(
                        |timestamp_ms: i64, end: nat|
                            codec::parse_i64(s, end).and_then(
                                |offset: i64, end: nat|
                                    codec::parsed(
                                        ListOffsetsPartitionResult {
                                            partition,
                                            error,
                                            timestamp_ms,
                                            offset,
                                        },
                                        end,
                                    ),
                            ),
                    ),
            ),
    )
}

/// The same, for lists.
pub open spec fn listed_reader() -> spec_fn(Seq<u8>, nat) -> Parsed<ListOffsetsPartitionResult> {
    |s: Seq<u8>, pos: nat| read_listed(s, pos)
}

proof fn lemma_listed(s: Seq<u8>, pos: nat, value: ListOffsetsPartitionResult, rest: Seq<u8>)
    requires
        s.len() <= usize::MAX,
        ListOffsetsPartitionResult::encoded(value) is Ok,
        places::stands(s, pos, ListOffsetsPartitionResult::encoded(value)->Ok_0 + rest),
    ensures
        read_listed(
            s,
            pos,
        ) == codec::parsed(value, pos + ListOffsetsPartitionResult::encoded(value)->Ok_0.len()),
        places::stands(s, pos + ListOffsetsPartitionResult::encoded(value)->Ok_0.len(), rest),
{
    let f0 = codec::i32_bytes(value.partition);
    let f1 = codec::i16_bytes(value.error);
    let f2 = codec::i64_bytes(value.timestamp_ms);
    let f3 = codec::i64_bytes(value.offset);
    codec::lemma_be_len((value.partition as u32) as nat, 4);
    codec::lemma_be_len((value.error as u16) as nat, 2);
    codec::lemma_be_len((value.timestamp_ms as u64) as nat, 8);
    codec::lemma_be_len((value.offset as u64) as nat, 8);
    assert(ListOffsetsPartitionResult::encoded(value)->Ok_0 + rest
        =~= f0 + (f1 + (f2 + (f3 + rest))));
    let p0 = pos;
    places::lemma_i32(s, p0, value.partition, f1 + (f2 + (f3 + rest)));
    let p1 = p0 + f0.len();
    places::lemma_i16(s, p1, value.error, f2 + (f3 + rest));
    let p2 = p1 + f1.len();
    places::lemma_i64(s, p2, value.timestamp_ms, f3 + rest);
    let p3 = p2 + f2.len();
    places::lemma_i64(s, p3, value.offset, rest);
}

/// A listed topic: its name and partitions.
pub open spec fn read_listed_topic(s: Seq<u8>, pos: nat) -> Parsed<ListOffsetsTopicResultModel> {
    codec::parse_string(s, pos).and_then(
        |name: Seq<u8>, end: nat|
            read_list(s, end, listed_reader()).and_then(
                |partitions: Seq<ListOffsetsPartitionResult>, end: nat|
                    codec::parsed(ListOffsetsTopicResultModel { name, partitions }, end),
            ),
    )
}

/// The same, for lists.
pub open spec fn listed_topic_reader() -> spec_fn(
    Seq<u8>,
    nat,
) -> Parsed<ListOffsetsTopicResultModel> {
    |s: Seq<u8>, pos: nat| read_listed_topic(s, pos)
}

proof fn lemma_listed_topic(s: Seq<u8>, pos: nat, value: ListOffsetsTopicResultModel, rest: Seq<u8>)
    requires
        s.len() <= usize::MAX,
        ListOffsetsTopicResult::encoded(value) is Ok,
        places::stands(s, pos, ListOffsetsTopicResult::encoded(value)->Ok_0 + rest),
    ensures
        read_listed_topic(
            s,
            pos,
        ) == codec::parsed(value, pos + ListOffsetsTopicResult::encoded(value)->Ok_0.len()),
        places::stands(s, pos + ListOffsetsTopicResult::encoded(value)->Ok_0.len(), rest),
{
    let f0 = places::string(value.name);
    let f1 = response::array_of::<ListOffsetsPartitionResult>(value.partitions)->Ok_0;
    codec::lemma_be_len(((value.name.len() as i16) as u16) as nat, 2);
    assert(ListOffsetsTopicResult::encoded(value)->Ok_0 + rest =~= f0 + (f1 + rest));
    let p0 = pos;
    places::lemma_string(s, p0, value.name, f1 + rest);
    let p1 = p0 + f0.len();
    let told1 = |item: ListOffsetsPartitionResult| item;
    lemma_items_written::<ListOffsetsPartitionResult>(value.partitions);
    assert forall|i: int, p: nat|
        #![trigger places::stands(s, p, <ListOffsetsPartitionResult as Field>::encoded(value.partitions[i])->Ok_0)]
        0 <= i < value.partitions.len() && places::stands(
            s,
            p,
            <ListOffsetsPartitionResult as Field>::encoded(value.partitions[i])->Ok_0,
        ) implies listed_reader()(
        s,
        p,
    ) == codec::parsed(
        told1(value.partitions[i]),
        p + <ListOffsetsPartitionResult as Field>::encoded(value.partitions[i])->Ok_0.len(),
    ) by {
        let bytes = <ListOffsetsPartitionResult as Field>::encoded(value.partitions[i])->Ok_0;
        assert(bytes + seq![] =~= bytes);
        lemma_listed(s, p, value.partitions[i], seq![]);
    }
    lemma_list::<ListOffsetsPartitionResult, ListOffsetsPartitionResult>(
        s,
        p1,
        value.partitions,
        listed_reader(),
        told1,
        rest,
    );
    assert(value.partitions.map_values(told1) =~= value.partitions);
}

/// A list-offsets response: the topics.
pub open spec fn read_list_offsets(s: Seq<u8>, pos: nat) -> Parsed<ListOffsetsResponseModel> {
    read_list(s, pos, listed_topic_reader()).and_then(
        |topics: Seq<ListOffsetsTopicResultModel>, end: nat|
            codec::parsed(ListOffsetsResponseModel { topics }, end),
    )
}

proof fn lemma_list_offsets(s: Seq<u8>, pos: nat, value: ListOffsetsResponseModel, rest: Seq<u8>)
    requires
        s.len() <= usize::MAX,
        ListOffsetsResponse::encoded(value) is Ok,
        places::stands(s, pos, ListOffsetsResponse::encoded(value)->Ok_0 + rest),
    ensures
        read_list_offsets(
            s,
            pos,
        ) == codec::parsed(value, pos + ListOffsetsResponse::encoded(value)->Ok_0.len()),
        places::stands(s, pos + ListOffsetsResponse::encoded(value)->Ok_0.len(), rest),
{
    let f0 = response::array_of::<ListOffsetsTopicResult>(value.topics)->Ok_0;
    assert(ListOffsetsResponse::encoded(value)->Ok_0 + rest =~= f0 + rest);
    let p0 = pos;
    let told0 = |item: ListOffsetsTopicResultModel| item;
    lemma_items_written::<ListOffsetsTopicResult>(value.topics);
    assert forall|i: int, p: nat|
        #![trigger places::stands(s, p, <ListOffsetsTopicResult as Field>::encoded(value.topics[i])->Ok_0)]
        0 <= i < value.topics.len() && places::stands(
            s,
            p,
            <ListOffsetsTopicResult as Field>::encoded(value.topics[i])->Ok_0,
        ) implies listed_topic_reader()(
        s,
        p,
    ) == codec::parsed(
        told0(value.topics[i]),
        p + <ListOffsetsTopicResult as Field>::encoded(value.topics[i])->Ok_0.len(),
    ) by {
        let bytes = <ListOffsetsTopicResult as Field>::encoded(value.topics[i])->Ok_0;
        assert(bytes + seq![] =~= bytes);
        lemma_listed_topic(s, p, value.topics[i], seq![]);
    }
    lemma_list::<ListOffsetsTopicResult, ListOffsetsTopicResultModel>(
        s,
        p0,
        value.topics,
        listed_topic_reader(),
        told0,
        rest,
    );
    assert(value.topics.map_values(told0) =~= value.topics);
}

/// A list-offsets response is read back as it was meant.
pub proof fn law_list_offsets_reads_back(
    correlation_id: i32,
    value: ListOffsetsResponseModel,
    frame: Seq<u8>,
)
    requires
        frame.len() <= usize::MAX,
        codec::frame_result(
            correlation_id,
            ListOffsetsResponse::encoded(value),
        ) == Ok::<Seq<u8>, Error>(frame),
    ensures
        codec::i32_of(frame.subrange(4, 8)) == correlation_id,
        read_list_offsets(frame, 8) == codec::parsed(value, frame.len()),
{
    let body = ListOffsetsResponse::encoded(value)->Ok_0;
    lemma_framed(correlation_id, body);
    assert(body + seq![] =~= body);
    lemma_list_offsets(frame, 8, value, seq![]);
}

// ---------------------------------------------------------------------------
// Coordination
// ---------------------------------------------------------------------------

/// A find-coordinator response: no throttle time, the error code without a message,
/// and the broker.
pub open spec fn read_find_coordinator(
    s: Seq<u8>,
    pos: nat,
) -> Parsed<FindCoordinatorResponseModel> {
    codec::parse_i32(s, pos).and_then(
        |throttle: i32, end: nat|
            if throttle != 0 {
                codec::failed(Error::Invalid, end)
            } else {
                codec::parse_i16(s, end).and_then(
                    |error: i16, end: nat|
                        codec::parse_nullable_string(s, end).and_then(
                            |message: Option<Seq<u8>>, end: nat|
                                if message is Some {
                                    codec::failed(Error::Invalid, end)
                                } else {
                                    codec::parse_i32(s, end).and_then(
                                        |node_id: i32, end: nat|
                                            codec::parse_string(s, end).and_then(
                                                |host: Seq<u8>, end: nat|
                                                    codec::parse_i32(s, end).and_then(
                                                        |port: i32, end: nat|
                                                            codec::parsed(
                                                                FindCoordinatorResponseModel {
                                                                    error,
                                                                    node_id,
                                                                    host,
                                                                    port,
                                                                },
                                                                end,
                                                            ),
                                                    ),
                                            ),
                                    )
                                },
                        ),
                )
            },
    )
}

proof fn lemma_find_coordinator(
    s: Seq<u8>,
    pos: nat,
    value: FindCoordinatorResponseModel,
    rest: Seq<u8>,
)
    requires
        s.len() <= usize::MAX,
        FindCoordinatorResponse::encoded(value) is Ok,
        places::stands(s, pos, FindCoordinatorResponse::encoded(value)->Ok_0 + rest),
    ensures
        read_find_coordinator(
            s,
            pos,
        ) == codec::parsed(value, pos + FindCoordinatorResponse::encoded(value)->Ok_0.len()),
        places::stands(s, pos + FindCoordinatorResponse::encoded(value)->Ok_0.len(), rest),
{
    let f0 = codec::i32_bytes(0);
    let f1 = codec::i16_bytes(value.error);
    let f2 = codec::i16_bytes((-1) as i16);
    let f3 = codec::i32_bytes(value.node_id);
    let f4 = places::string(value.host);
    let f5 = codec::i32_bytes(value.port);
    codec::lemma_be_len((0i32 as u32) as nat, 4);
    codec::lemma_be_len((value.error as u16) as nat, 2);
    codec::lemma_be_len((((-1) as i16) as u16) as nat, 2);
    codec::lemma_be_len((value.node_id as u32) as nat, 4);
    codec::lemma_be_len(((value.host.len() as i16) as u16) as nat, 2);
    codec::lemma_be_len((value.port as u32) as nat, 4);
    assert(FindCoordinatorResponse::encoded(value)->Ok_0 + rest
        =~= f0 + (f1 + (f2 + (f3 + (f4 + (f5 + rest))))));
    let p0 = pos;
    places::lemma_i32(s, p0, 0, f1 + (f2 + (f3 + (f4 + (f5 + rest)))));
    let p1 = p0 + f0.len();
    places::lemma_i16(s, p1, value.error, f2 + (f3 + (f4 + (f5 + rest))));
    let p2 = p1 + f1.len();
    places::lemma_nullable(s, p2, None, f3 + (f4 + (f5 + rest)));
    let p3 = p2 + f2.len();
    places::lemma_i32(s, p3, value.node_id, f4 + (f5 + rest));
    let p4 = p3 + f3.len();
    places::lemma_string(s, p4, value.host, f5 + rest);
    let p5 = p4 + f4.len();
    places::lemma_i32(s, p5, value.port, rest);
}

/// A find-coordinator response is read back as it was meant.
pub proof fn law_find_coordinator_reads_back(
    correlation_id: i32,
    value: FindCoordinatorResponseModel,
    frame: Seq<u8>,
)
    requires
        frame.len() <= usize::MAX,
        codec::frame_result(
            correlation_id,
            FindCoordinatorResponse::encoded(value),
        ) == Ok::<Seq<u8>, Error>(frame),
    ensures
        codec::i32_of(frame.subrange(4, 8)) == correlation_id,
        read_find_coordinator(frame, 8) == codec::parsed(value, frame.len()),
{
    let body = FindCoordinatorResponse::encoded(value)->Ok_0;
    lemma_framed(correlation_id, body);
    assert(body + seq![] =~= body);
    lemma_find_coordinator(frame, 8, value, seq![]);
}

/// An init-producer-id response: no throttle time, the error code, and the
/// producer id and epoch.
pub open spec fn read_init_producer_id(s: Seq<u8>, pos: nat) -> Parsed<InitProducerIdResponse> {
    codec::parse_i32(s, pos).and_then(
        |throttle: i32, end: nat|
            if throttle != 0 {
                codec::failed(Error::Invalid, end)
            } else {
                codec::parse_i16(s, end).and_then(
                    |error: i16, end: nat|
                        codec::parse_i64(s, end).and_then(
                            |producer_id: i64, end: nat|
                                codec::parse_i16(s, end).and_then(
                                    |producer_epoch: i16, end: nat|
                                        codec::parsed(
                                            InitProducerIdResponse {
                                                error,
                                                producer_id,
                                                producer_epoch,
                                            },
                                            end,
                                        ),
                                ),
                        ),
                )
            },
    )
}

proof fn lemma_init_producer_id(s: Seq<u8>, pos: nat, value: InitProducerIdResponse, rest: Seq<u8>)
    requires
        s.len() <= usize::MAX,
        InitProducerIdResponse::encoded(value) is Ok,
        places::stands(s, pos, InitProducerIdResponse::encoded(value)->Ok_0 + rest),
    ensures
        read_init_producer_id(
            s,
            pos,
        ) == codec::parsed(value, pos + InitProducerIdResponse::encoded(value)->Ok_0.len()),
        places::stands(s, pos + InitProducerIdResponse::encoded(value)->Ok_0.len(), rest),
{
    let f0 = codec::i32_bytes(0);
    let f1 = codec::i16_bytes(value.error);
    let f2 = codec::i64_bytes(value.producer_id);
    let f3 = codec::i16_bytes(value.producer_epoch);
    codec::lemma_be_len((0i32 as u32) as nat, 4);
    codec::lemma_be_len((value.error as u16) as nat, 2);
    codec::lemma_be_len((value.producer_id as u64) as nat, 8);
    codec::lemma_be_len((value.producer_epoch as u16) as nat, 2);
    assert(InitProducerIdResponse::encoded(value)->Ok_0 + rest =~= f0 + (f1 + (f2 + (f3 + rest))));
    let p0 = pos;
    places::lemma_i32(s, p0, 0, f1 + (f2 + (f3 + rest)));
    let p1 = p0 + f0.len();
    places::lemma_i16(s, p1, value.error, f2 + (f3 + rest));
    let p2 = p1 + f1.len();
    places::lemma_i64(s, p2, value.producer_id, f3 + rest);
    let p3 = p2 + f2.len();
    places::lemma_i16(s, p3, value.producer_epoch, rest);
}

/// An init-producer-id response is read back as it was meant.
pub proof fn law_init_producer_id_reads_back(
    correlation_id: i32,
    value: InitProducerIdResponse,
    frame: Seq<u8>,
)
    requires
        frame.len() <= usize::MAX,
        codec::frame_result(
            correlation_id,
            InitProducerIdResponse::encoded(value),
        ) == Ok::<Seq<u8>, Error>(frame),
    ensures
        codec::i32_of(frame.subrange(4, 8)) == correlation_id,
        read_init_producer_id(frame, 8) == codec::parsed(value, frame.len()),
{
    let body = InitProducerIdResponse::encoded(value)->Ok_0;
    lemma_framed(correlation_id, body);
    assert(body + seq![] =~= body);
    lemma_init_producer_id(frame, 8, value, seq![]);
}

/// A topic of a transaction: its name, and the error code of each partition.
pub open spec fn read_enlisted_topic(
    s: Seq<u8>,
    pos: nat,
) -> Parsed<TransactionPartitionResultModel> {
    codec::parse_string(s, pos).and_then(
        |topic: Seq<u8>, end: nat|
            read_list(s, end, partition_code_reader()).and_then(
                |partitions: Seq<(i32, i16)>, end: nat|
                    codec::parsed(TransactionPartitionResultModel { topic, partitions }, end),
            ),
    )
}

/// The same, for lists.
pub open spec fn enlisted_topic_reader() -> spec_fn(
    Seq<u8>,
    nat,
) -> Parsed<TransactionPartitionResultModel> {
    |s: Seq<u8>, pos: nat| read_enlisted_topic(s, pos)
}

proof fn lemma_enlisted_topic(
    s: Seq<u8>,
    pos: nat,
    value: TransactionPartitionResultModel,
    rest: Seq<u8>,
)
    requires
        s.len() <= usize::MAX,
        TransactionPartitionResult::encoded(value) is Ok,
        places::stands(s, pos, TransactionPartitionResult::encoded(value)->Ok_0 + rest),
    ensures
        read_enlisted_topic(
            s,
            pos,
        ) == codec::parsed(value, pos + TransactionPartitionResult::encoded(value)->Ok_0.len()),
        places::stands(s, pos + TransactionPartitionResult::encoded(value)->Ok_0.len(), rest),
{
    let f0 = places::string(value.topic);
    let f1 = response::array_of::<(i32, i16)>(value.partitions)->Ok_0;
    codec::lemma_be_len(((value.topic.len() as i16) as u16) as nat, 2);
    assert(TransactionPartitionResult::encoded(value)->Ok_0 + rest =~= f0 + (f1 + rest));
    let p0 = pos;
    places::lemma_string(s, p0, value.topic, f1 + rest);
    let p1 = p0 + f0.len();
    let told1 = |item: (i32, i16)| item;
    lemma_items_written::<(i32, i16)>(value.partitions);
    assert forall|i: int, p: nat|
        #![trigger places::stands(s, p, <(i32, i16) as Field>::encoded(value.partitions[i])->Ok_0)]
        0 <= i < value.partitions.len() && places::stands(
            s,
            p,
            <(i32, i16) as Field>::encoded(value.partitions[i])->Ok_0,
        ) implies partition_code_reader()(
        s,
        p,
    ) == codec::parsed(
        told1(value.partitions[i]),
        p + <(i32, i16) as Field>::encoded(value.partitions[i])->Ok_0.len(),
    ) by {
        let bytes = <(i32, i16) as Field>::encoded(value.partitions[i])->Ok_0;
        assert(bytes + seq![] =~= bytes);
        lemma_partition_code(s, p, value.partitions[i], seq![]);
    }
    lemma_list::<(i32, i16), (i32, i16)>(
        s,
        p1,
        value.partitions,
        partition_code_reader(),
        told1,
        rest,
    );
    assert(value.partitions.map_values(told1) =~= value.partitions);
}

/// A join response: the error code, the generation, the protocol, the leader, the
/// member and all members.
pub open spec fn read_join_group(s: Seq<u8>, pos: nat) -> Parsed<JoinGroupResponseModel> {
    codec::parse_i16(s, pos).and_then(
        |error: i16, end: nat|
            codec::parse_i32(s, end).and_then(
                |generation: i32, end: nat|
                    codec::parse_string(s, end).and_then(
                        |protocol: Seq<u8>, end: nat|
                            codec::parse_string(s, end).and_then(
                                |leader: Seq<u8>, end: nat|
                                    codec::parse_string(s, end).and_then(
                                        |member_id: Seq<u8>, end: nat|
                                            read_list(s, end, member_reader()).and_then(
                                                |members: Seq<(Seq<u8>, Seq<u8>)>, end: nat|
                                                    codec::parsed(
                                                        JoinGroupResponseModel {
                                                            error,
                                                            generation,
                                                            protocol,
                                                            leader,
                                                            member_id,
                                                            members,
                                                        },
                                                        end,
                                                    ),
                                            ),
                                    ),
                            ),
                    ),
            ),
    )
}

#[verifier::spinoff_prover]
#[verifier::rlimit(60)]
proof fn lemma_join_group(s: Seq<u8>, pos: nat, value: JoinGroupResponseModel, rest: Seq<u8>)
    requires
        s.len() <= usize::MAX,
        JoinGroupResponse::encoded(value) is Ok,
        places::stands(s, pos, JoinGroupResponse::encoded(value)->Ok_0 + rest),
    ensures
        read_join_group(
            s,
            pos,
        ) == codec::parsed(value, pos + JoinGroupResponse::encoded(value)->Ok_0.len()),
        places::stands(s, pos + JoinGroupResponse::encoded(value)->Ok_0.len(), rest),
{
    let f0 = codec::i16_bytes(value.error);
    let f1 = codec::i32_bytes(value.generation);
    let f2 = places::string(value.protocol);
    let f3 = places::string(value.leader);
    let f4 = places::string(value.member_id);
    let f5 = response::array_of::<(Vec<u8>, Vec<u8>)>(value.members)->Ok_0;
    codec::lemma_be_len((value.error as u16) as nat, 2);
    codec::lemma_be_len((value.generation as u32) as nat, 4);
    codec::lemma_be_len(((value.protocol.len() as i16) as u16) as nat, 2);
    codec::lemma_be_len(((value.leader.len() as i16) as u16) as nat, 2);
    codec::lemma_be_len(((value.member_id.len() as i16) as u16) as nat, 2);
    assert(JoinGroupResponse::encoded(value)->Ok_0 + rest
        =~= f0 + (f1 + (f2 + (f3 + (f4 + (f5 + rest))))));
    let p0 = pos;
    places::lemma_i16(s, p0, value.error, f1 + (f2 + (f3 + (f4 + (f5 + rest)))));
    let p1 = p0 + f0.len();
    places::lemma_i32(s, p1, value.generation, f2 + (f3 + (f4 + (f5 + rest))));
    let p2 = p1 + f1.len();
    places::lemma_string(s, p2, value.protocol, f3 + (f4 + (f5 + rest)));
    let p3 = p2 + f2.len();
    places::lemma_string(s, p3, value.leader, f4 + (f5 + rest));
    let p4 = p3 + f3.len();
    places::lemma_string(s, p4, value.member_id, f5 + rest);
    let p5 = p4 + f4.len();
    let told5 = |item: (Seq<u8>, Seq<u8>)| item;
    lemma_items_written::<(Vec<u8>, Vec<u8>)>(value.members);
    assert forall|i: int, p: nat|
        #![trigger places::stands(s, p, <(Vec<u8>, Vec<u8>) as Field>::encoded(value.members[i])->Ok_0)]
        0 <= i < value.members.len() && places::stands(
            s,
            p,
            <(Vec<u8>, Vec<u8>) as Field>::encoded(value.members[i])->Ok_0,
        ) implies member_reader()(
        s,
        p,
    ) == codec::parsed(
        told5(value.members[i]),
        p + <(Vec<u8>, Vec<u8>) as Field>::encoded(value.members[i])->Ok_0.len(),
    ) by {
        let bytes = <(Vec<u8>, Vec<u8>) as Field>::encoded(value.members[i])->Ok_0;
        assert(bytes + seq![] =~= bytes);
        lemma_member(s, p, value.members[i], seq![]);
    }
    lemma_list::<(Vec<u8>, Vec<u8>), (Seq<u8>, Seq<u8>)>(
        s,
        p5,
        value.members,
        member_reader(),
        told5,
        rest,
    );
    assert(value.members.map_values(told5) =~= value.members);
}

/// A join response is read back as it was meant.
pub proof fn law_join_group_reads_back(
    correlation_id: i32,
    value: JoinGroupResponseModel,
    frame: Seq<u8>,
)
    requires
        frame.len() <= usize::MAX,
        codec::frame_result(
            correlation_id,
            JoinGroupResponse::encoded(value),
        ) == Ok::<Seq<u8>, Error>(frame),
    ensures
        codec::i32_of(frame.subrange(4, 8)) == correlation_id,
        read_join_group(frame, 8) == codec::parsed(value, frame.len()),
{
    let body = JoinGroupResponse::encoded(value)->Ok_0;
    lemma_framed(correlation_id, body);
    assert(body + seq![] =~= body);
    lemma_join_group(frame, 8, value, seq![]);
}

/// An add-partitions response: no throttle time, and the topics.
pub open spec fn read_add_partitions_to_txn(s: Seq<u8>, pos: nat) -> Parsed<
    Seq<TransactionPartitionResultModel>,
> {
    codec::parse_i32(s, pos).and_then(
        |throttle: i32, end: nat|
            if throttle != 0 {
                codec::failed(Error::Invalid, end)
            } else {
                read_list(s, end, enlisted_topic_reader())
            },
    )
}

/// An add-partitions response is read back as it was meant.
pub proof fn law_add_partitions_to_txn_reads_back(
    correlation_id: i32,
    topics: Seq<TransactionPartitionResultModel>,
    frame: Seq<u8>,
)
    requires
        frame.len() <= usize::MAX,
        codec::frame_result(correlation_id, response::add_partitions_to_txn_bytes(topics)) == Ok::<
            Seq<u8>,
            Error,
        >(frame),
    ensures
        codec::i32_of(frame.subrange(4, 8)) == correlation_id,
        read_add_partitions_to_txn(frame, 8) == codec::parsed(topics, frame.len()),
{
    let body = response::add_partitions_to_txn_bytes(topics)->Ok_0;
    let list = response::array_of::<TransactionPartitionResult>(topics)->Ok_0;
    lemma_framed(correlation_id, body);
    codec::lemma_be_len((0i32 as u32) as nat, 4);
    places::lemma_i32(frame, 8, 0, list);
    assert(list + seq![] =~= list);
    let told = |item: TransactionPartitionResultModel| item;
    lemma_items_written::<TransactionPartitionResult>(topics);
    assert forall|i: int, p: nat|
        #![trigger places::stands(frame, p, TransactionPartitionResult::encoded(topics[i])->Ok_0)]
        0 <= i < topics.len() && places::stands(
            frame,
            p,
            TransactionPartitionResult::encoded(topics[i])->Ok_0,
        ) implies enlisted_topic_reader()(frame, p) == codec::parsed(
        told(topics[i]),
        p + TransactionPartitionResult::encoded(topics[i])->Ok_0.len(),
    ) by {
        let bytes = TransactionPartitionResult::encoded(topics[i])->Ok_0;
        assert(bytes + seq![] =~= bytes);
        lemma_enlisted_topic(frame, p, topics[i], seq![]);
    }
    lemma_list::<TransactionPartitionResult, TransactionPartitionResultModel>(
        frame,
        12,
        topics,
        enlisted_topic_reader(),
        told,
        seq![],
    );
    assert(topics.map_values(told) =~= topics);
}

/// An API-versions response: the error code and the versions.
pub open spec fn read_api_versions(s: Seq<u8>, pos: nat) -> Parsed<(i16, Seq<(i16, i16, i16)>)> {
    codec::parse_i16(s, pos).and_then(
        |error: i16, end: nat|
            read_list(s, end, version_reader()).and_then(
                |versions: Seq<(i16, i16, i16)>, end: nat| codec::parsed((error, versions), end),
            ),
    )
}

/// An API-versions response is read back as it was meant.
pub proof fn law_api_versions_reads_back(
    correlation_id: i32,
    error: i16,
    versions: Seq<(i16, i16, i16)>,
    frame: Seq<u8>,
)
    requires
        frame.len() <= usize::MAX,
        codec::frame_result(correlation_id, response::api_versions_bytes(error, versions)) == Ok::<
            Seq<u8>,
            Error,
        >(frame),
    ensures
        codec::i32_of(frame.subrange(4, 8)) == correlation_id,
        read_api_versions(frame, 8) == codec::parsed((error, versions), frame.len()),
{
    let body = response::api_versions_bytes(error, versions)->Ok_0;
    let list = response::array_of::<(i16, i16, i16)>(versions)->Ok_0;
    lemma_framed(correlation_id, body);
    codec::lemma_be_len((error as u16) as nat, 2);
    places::lemma_i16(frame, 8, error, list);
    assert(list + seq![] =~= list);
    let told = |item: (i16, i16, i16)| item;
    lemma_items_written::<(i16, i16, i16)>(versions);
    assert forall|i: int, p: nat|
        #![trigger places::stands(frame, p, <(i16, i16, i16) as Field>::encoded(versions[i])->Ok_0)]
        0 <= i < versions.len() && places::stands(
            frame,
            p,
            <(i16, i16, i16) as Field>::encoded(versions[i])->Ok_0,
        ) implies version_reader()(frame, p) == codec::parsed(
        told(versions[i]),
        p + <(i16, i16, i16) as Field>::encoded(versions[i])->Ok_0.len(),
    ) by {
        let bytes = <(i16, i16, i16) as Field>::encoded(versions[i])->Ok_0;
        assert(bytes + seq![] =~= bytes);
        lemma_version(frame, p, versions[i], seq![]);
    }
    lemma_list::<(i16, i16, i16), (i16, i16, i16)>(
        frame,
        10,
        versions,
        version_reader(),
        told,
        seq![],
    );
    assert(versions.map_values(told) =~= versions);
}

// ---------------------------------------------------------------------------
// Fetching
// ---------------------------------------------------------------------------

/// What a fetched partition tells: its number, its error code, the end of the
/// log, the last stable offset, what was aborted and the record set as bytes.
#[verifier::ext_equal]
pub struct FetchedModel {
    pub partition: i32,
    pub error: i16,
    pub high_watermark: i64,
    pub last_stable_offset: i64,
    pub aborted_transactions: Option<Seq<(i64, i64)>>,
    pub record_set: Seq<u8>,
}

/// What a fetched topic tells.
#[verifier::ext_equal]
pub struct FetchedTopicModel {
    pub name: Seq<u8>,
    pub partitions: Seq<FetchedModel>,
}

/// What a fetch response tells.
#[verifier::ext_equal]
pub struct FetchedResponseModel {
    pub throttle_time_ms: i32,
    pub topics: Seq<FetchedTopicModel>,
}

/// The record set of some records: one batch that starts at the offset of the
/// first, or nothing where there are none.
pub open spec fn record_set(records: Seq<RecordModel>) -> Seq<u8> {
    if records.len() == 0 {
        seq![]
    } else {
        record_batch::encoded_batch(records[0].offset, records)->Ok_0
    }
}

pub open spec fn told_fetched(value: FetchPartitionResultModel) -> FetchedModel {
    FetchedModel {
        partition: value.partition,
        error: value.error,
        high_watermark: value.high_watermark,
        last_stable_offset: value.last_stable_offset,
        aborted_transactions: value.aborted_transactions,
        record_set: record_set(value.records),
    }
}

pub open spec fn told_fetched_topic(value: FetchTopicResultModel) -> FetchedTopicModel {
    FetchedTopicModel {
        name: value.name,
        partitions: value.partitions.map_values(
            |item: FetchPartitionResultModel| told_fetched(item),
        ),
    }
}

pub open spec fn told_fetch(value: FetchResponseModel) -> FetchedResponseModel {
    FetchedResponseModel {
        throttle_time_ms: value.throttle_time_ms,
        topics: value.topics.map_values(|item: FetchTopicResultModel| told_fetched_topic(item)),
    }
}

/// The aborted transactions of a partition, if they are told.
pub open spec fn read_aborted(s: Seq<u8>, pos: nat) -> Parsed<Option<Seq<(i64, i64)>>> {
    codec::parse_nullable_array_len(s, pos).and_then(
        |count: Option<usize>, end: nat|
            match count {
                None => codec::parsed(None, end),
                Some(count) => codec::parse_many(
                    s,
                    end,
                    count as nat,
                    aborted_entry_reader(),
                ).and_then(
                    |entries: Seq<(i64, i64)>, end: nat| codec::parsed(Some(entries), end),
                ),
            },
    )
}

proof fn lemma_aborted(s: Seq<u8>, pos: nat, value: Option<Seq<(i64, i64)>>, rest: Seq<u8>)
    requires
        s.len() <= usize::MAX,
        response::aborted_bytes(value) is Ok,
        places::stands(s, pos, response::aborted_bytes(value)->Ok_0 + rest),
    ensures
        read_aborted(s, pos) == codec::parsed(
            value,
            pos + response::aborted_bytes(value)->Ok_0.len(),
        ),
        places::stands(s, pos + response::aborted_bytes(value)->Ok_0.len(), rest),
{
    match value {
        None => {
            codec::lemma_be_len((((-1) as i32) as u32) as nat, 4);
            places::lemma_i32(s, pos, (-1) as i32, rest);
        },
        Some(entries) => {
            let told = |item: (i64, i64)| item;
            lemma_written::<(i64, i64)>(entries);
            let write = written::<(i64, i64)>();
            assert forall|i: int, p: nat|
                #![trigger places::stands(s, p, write(entries[i]))]
                0 <= i < entries.len() && places::stands(
                    s,
                    p,
                    write(entries[i]),
                ) implies aborted_entry_reader()(
                s,
                p,
            ) == codec::parsed(told(entries[i]), p + write(entries[i]).len()) by {
                assert(write(entries[i]) + seq![] =~= write(entries[i]));
                lemma_aborted_entry(s, p, entries[i], seq![]);
            }
            assert(response::array_of::<(i64, i64)>(entries)->Ok_0 == places::counted(
                entries,
                write,
            ));
            places::lemma_counted(s, pos, entries, write, aborted_entry_reader(), told, rest);
            assert(entries.map_values(told) =~= entries);
        },
    }
}

/// A fetched partition: its number, error code, end of the log, last stable offset,
/// what was aborted, and the record set.
pub open spec fn read_fetched(s: Seq<u8>, pos: nat) -> Parsed<FetchedModel> {
    codec::parse_i32(s, pos).and_then(
        |partition: i32, end: nat|
            codec::parse_i16(s, end).and_then(
                |error: i16, end: nat|
                    codec::parse_i64(s, end).and_then(
                        |high_watermark: i64, end: nat|
                            codec::parse_i64(s, end).and_then(
                                |last_stable_offset: i64, end: nat|
                                    read_aborted(s, end).and_then(
                                        |aborted_transactions: Option<Seq<(i64, i64)>>, end: nat|
                                            codec::parse_bytes(s, end).and_then(
                                                |record_set: Option<Seq<u8>>, end: nat|
                                                    match record_set {
                                                        None => codec::failed(Error::Invalid, end),
                                                        Some(record_set) => {
                                                            codec::parsed(
                                                                FetchedModel {
                                                                    partition,
                                                                    error,
                                                                    high_watermark,
                                                                    last_stable_offset,
                                                                    aborted_transactions,
                                                                    record_set,
                                                                },
                                                                end,
                                                            )
                                                        },
                                                    },
                                            ),
                                    ),
                            ),
                    ),
            ),
    )
}

/// The same, for lists.
pub open spec fn fetched_reader() -> spec_fn(Seq<u8>, nat) -> Parsed<FetchedModel> {
    |s: Seq<u8>, pos: nat| read_fetched(s, pos)
}

proof fn lemma_fetched(s: Seq<u8>, pos: nat, value: FetchPartitionResultModel, rest: Seq<u8>)
    requires
        s.len() <= usize::MAX,
        FetchPartitionResult::encoded(value) is Ok,
        places::stands(s, pos, FetchPartitionResult::encoded(value)->Ok_0 + rest),
    ensures
        read_fetched(
            s,
            pos,
        ) == codec::parsed(
            told_fetched(value),
            pos + FetchPartitionResult::encoded(value)->Ok_0.len(),
        ),
        places::stands(s, pos + FetchPartitionResult::encoded(value)->Ok_0.len(), rest),
{
    let f0 = codec::i32_bytes(value.partition);
    let f1 = codec::i16_bytes(value.error);
    let f2 = codec::i64_bytes(value.high_watermark);
    let f3 = codec::i64_bytes(value.last_stable_offset);
    let f4 = response::aborted_bytes(value.aborted_transactions)->Ok_0;
    let f5 = places::blob(record_set(value.records));
    codec::lemma_be_len((value.partition as u32) as nat, 4);
    codec::lemma_be_len((value.error as u16) as nat, 2);
    codec::lemma_be_len((value.high_watermark as u64) as nat, 8);
    codec::lemma_be_len((value.last_stable_offset as u64) as nat, 8);
    codec::lemma_be_len(((record_set(value.records).len() as i32) as u32) as nat, 4);
    assert(FetchPartitionResult::encoded(value)->Ok_0 + rest
        =~= f0 + (f1 + (f2 + (f3 + (f4 + (f5 + rest))))));
    let p0 = pos;
    places::lemma_i32(s, p0, value.partition, f1 + (f2 + (f3 + (f4 + (f5 + rest)))));
    let p1 = p0 + f0.len();
    places::lemma_i16(s, p1, value.error, f2 + (f3 + (f4 + (f5 + rest))));
    let p2 = p1 + f1.len();
    places::lemma_i64(s, p2, value.high_watermark, f3 + (f4 + (f5 + rest)));
    let p3 = p2 + f2.len();
    places::lemma_i64(s, p3, value.last_stable_offset, f4 + (f5 + rest));
    let p4 = p3 + f3.len();
    lemma_aborted(s, p4, value.aborted_transactions, f5 + rest);
    let p5 = p4 + f4.len();
    places::lemma_blob(s, p5, record_set(value.records), rest);
}

/// A fetched topic: its name and partitions.
pub open spec fn read_fetched_topic(s: Seq<u8>, pos: nat) -> Parsed<FetchedTopicModel> {
    codec::parse_string(s, pos).and_then(
        |name: Seq<u8>, end: nat|
            read_list(s, end, fetched_reader()).and_then(
                |partitions: Seq<FetchedModel>, end: nat|
                    codec::parsed(FetchedTopicModel { name, partitions }, end),
            ),
    )
}

/// The same, for lists.
pub open spec fn fetched_topic_reader() -> spec_fn(Seq<u8>, nat) -> Parsed<FetchedTopicModel> {
    |s: Seq<u8>, pos: nat| read_fetched_topic(s, pos)
}

proof fn lemma_fetched_topic(s: Seq<u8>, pos: nat, value: FetchTopicResultModel, rest: Seq<u8>)
    requires
        s.len() <= usize::MAX,
        FetchTopicResult::encoded(value) is Ok,
        places::stands(s, pos, FetchTopicResult::encoded(value)->Ok_0 + rest),
    ensures
        read_fetched_topic(
            s,
            pos,
        ) == codec::parsed(
            told_fetched_topic(value),
            pos + FetchTopicResult::encoded(value)->Ok_0.len(),
        ),
        places::stands(s, pos + FetchTopicResult::encoded(value)->Ok_0.len(), rest),
{
    let f0 = places::string(value.name);
    let f1 = response::array_of::<FetchPartitionResult>(value.partitions)->Ok_0;
    codec::lemma_be_len(((value.name.len() as i16) as u16) as nat, 2);
    assert(FetchTopicResult::encoded(value)->Ok_0 + rest =~= f0 + (f1 + rest));
    let p0 = pos;
    places::lemma_string(s, p0, value.name, f1 + rest);
    let p1 = p0 + f0.len();
    let told1 = |item: FetchPartitionResultModel| told_fetched(item);
    lemma_items_written::<FetchPartitionResult>(value.partitions);
    assert forall|i: int, p: nat|
        #![trigger places::stands(s, p, <FetchPartitionResult as Field>::encoded(value.partitions[i])->Ok_0)]
        0 <= i < value.partitions.len() && places::stands(
            s,
            p,
            <FetchPartitionResult as Field>::encoded(value.partitions[i])->Ok_0,
        ) implies fetched_reader()(
        s,
        p,
    ) == codec::parsed(
        told1(value.partitions[i]),
        p + <FetchPartitionResult as Field>::encoded(value.partitions[i])->Ok_0.len(),
    ) by {
        let bytes = <FetchPartitionResult as Field>::encoded(value.partitions[i])->Ok_0;
        assert(bytes + seq![] =~= bytes);
        lemma_fetched(s, p, value.partitions[i], seq![]);
    }
    lemma_list::<FetchPartitionResult, FetchedModel>(
        s,
        p1,
        value.partitions,
        fetched_reader(),
        told1,
        rest,
    );
}

/// A fetch response: the throttle time and the topics.
pub open spec fn read_fetch(s: Seq<u8>, pos: nat) -> Parsed<FetchedResponseModel> {
    codec::parse_i32(s, pos).and_then(
        |throttle_time_ms: i32, end: nat|
            read_list(s, end, fetched_topic_reader()).and_then(
                |topics: Seq<FetchedTopicModel>, end: nat|
                    codec::parsed(FetchedResponseModel { throttle_time_ms, topics }, end),
            ),
    )
}

proof fn lemma_fetch(s: Seq<u8>, pos: nat, value: FetchResponseModel, rest: Seq<u8>)
    requires
        s.len() <= usize::MAX,
        FetchResponse::encoded(value) is Ok,
        places::stands(s, pos, FetchResponse::encoded(value)->Ok_0 + rest),
    ensures
        read_fetch(
            s,
            pos,
        ) == codec::parsed(told_fetch(value), pos + FetchResponse::encoded(value)->Ok_0.len()),
        places::stands(s, pos + FetchResponse::encoded(value)->Ok_0.len(), rest),
{
    let f0 = codec::i32_bytes(value.throttle_time_ms);
    let f1 = response::array_of::<FetchTopicResult>(value.topics)->Ok_0;
    codec::lemma_be_len((value.throttle_time_ms as u32) as nat, 4);
    assert(FetchResponse::encoded(value)->Ok_0 + rest =~= f0 + (f1 + rest));
    let p0 = pos;
    places::lemma_i32(s, p0, value.throttle_time_ms, f1 + rest);
    let p1 = p0 + f0.len();
    let told1 = |item: FetchTopicResultModel| told_fetched_topic(item);
    lemma_items_written::<FetchTopicResult>(value.topics);
    assert forall|i: int, p: nat|
        #![trigger places::stands(s, p, <FetchTopicResult as Field>::encoded(value.topics[i])->Ok_0)]
        0 <= i < value.topics.len() && places::stands(
            s,
            p,
            <FetchTopicResult as Field>::encoded(value.topics[i])->Ok_0,
        ) implies fetched_topic_reader()(
        s,
        p,
    ) == codec::parsed(
        told1(value.topics[i]),
        p + <FetchTopicResult as Field>::encoded(value.topics[i])->Ok_0.len(),
    ) by {
        let bytes = <FetchTopicResult as Field>::encoded(value.topics[i])->Ok_0;
        assert(bytes + seq![] =~= bytes);
        lemma_fetched_topic(s, p, value.topics[i], seq![]);
    }
    lemma_list::<FetchTopicResult, FetchedTopicModel>(
        s,
        p1,
        value.topics,
        fetched_topic_reader(),
        told1,
        rest,
    );
}

/// A fetch response is read back as it was meant. The record set of a partition is
/// the batch of its records.
pub proof fn law_fetch_reads_back(correlation_id: i32, value: FetchResponseModel, frame: Seq<u8>)
    requires
        frame.len() <= usize::MAX,
        codec::frame_result(
            correlation_id,
            FetchResponse::encoded(value),
        ) == Ok::<Seq<u8>, Error>(frame),
    ensures
        codec::i32_of(frame.subrange(4, 8)) == correlation_id,
        read_fetch(frame, 8) == codec::parsed(told_fetch(value), frame.len()),
{
    let body = FetchResponse::encoded(value)->Ok_0;
    lemma_framed(correlation_id, body);
    assert(body + seq![] =~= body);
    lemma_fetch(frame, 8, value, seq![]);
}

} // verus!
