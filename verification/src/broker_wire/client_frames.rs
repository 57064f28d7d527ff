//! What a client's frames say: each request, written field by field in its
//! documented order, is decoded into just those fields.

use vstd::prelude::*;

use crate::broker_wire::codec;
use crate::broker_wire::places;
use crate::broker_wire::protocol::{
    self, api, version, Error, MAX_ARRAY_LEN, MAX_FRAME_LEN, MAX_STRING_LEN,
};
use crate::broker_wire::record_batch;
use crate::broker_wire::request::{
    self, BodyModel, FetchPartition, FetchPartitionItem, FetchTopicItem, FetchTopicModel, Item,
    HeaderModel, IndexItem, ListOffsetsPartition, ListOffsetsPartitionItem, ListOffsetsTopicItem,
    ListOffsetsTopicModel, NameItem, NamedBytesItem, ProducePartitionItem, ProducePartitionModel,
    ProduceTopicItem, ProduceTopicModel, RequestModel, StringItem, TxnTopicItem,
};

verus! {

/// The bytes of a request behind its length: the API key and version, the
/// correlation id, the client id and the body.
pub open spec fn payload(header: HeaderModel, body: Seq<u8>) -> Seq<u8> {
    codec::i16_bytes(header.api_key) + codec::i16_bytes(header.api_version) + codec::i32_bytes(
        header.correlation_id,
    ) + places::nullable(header.client_id) + body
}

/// A request frame: the length of the rest and the rest.
pub open spec fn frame(header: HeaderModel, body: Seq<u8>) -> Seq<u8> {
    codec::i32_bytes(payload(header, body).len() as i32) + payload(header, body)
}

/// Whether a request can be sent: it has this key and version, its client id is
/// not too long and neither is the whole.
pub open spec fn sendable(
    header: HeaderModel,
    api_key: i16,
    api_version: i16,
    body: Seq<u8>,
) -> bool {
    &&& header.api_key == api_key
    &&& header.api_version == api_version
    &&& header.client_id matches Some(id) ==> id.len() <= MAX_STRING_LEN
    &&& payload(header, body).len() <= MAX_FRAME_LEN
}

/// Whether a frame is decoded into this request.
pub open spec fn says(header: HeaderModel, body: Seq<u8>, model: BodyModel) -> bool {
    request::decoded_request(frame(header, body)) == Ok::<RequestModel, Error>(
        RequestModel { header, body: model },
    )
}

/// Where the body of a request starts.
spec fn start(header: HeaderModel) -> nat {
    8 + places::nullable(header.client_id).len()
}

proof fn lemma_start(header: HeaderModel, body: Seq<u8>)
    requires
        sendable(header, header.api_key, header.api_version, body),
    ensures
        places::stands(payload(header, body), start(header), body),
        payload(header, body).len() == start(header) + body.len(),
        request::parse_request_header(payload(header, body), 0) == codec::parsed(
            header,
            start(header),
        ),
{
    let s = payload(header, body);
    let key = codec::i16_bytes(header.api_key);
    let ver = codec::i16_bytes(header.api_version);
    let id = codec::i32_bytes(header.correlation_id);
    let client = places::nullable(header.client_id);
    codec::lemma_be_len((header.api_key as u16) as nat, 2);
    codec::lemma_be_len((header.api_version as u16) as nat, 2);
    codec::lemma_be_len((header.correlation_id as u32) as nat, 4);
    assert(s =~= key + (ver + (id + (client + body))));
    assert(s.subrange(0, s.len() as int) =~= s);
    places::lemma_i16(s, 0, header.api_key, ver + (id + (client + body)));
    places::lemma_i16(s, 2, header.api_version, id + (client + body));
    places::lemma_i32(s, 4, header.correlation_id, client + body);
    places::lemma_nullable(s, 8, header.client_id, body);
}

proof fn lemma_says(header: HeaderModel, body: Seq<u8>, model: BodyModel)
    requires
        sendable(header, header.api_key, header.api_version, body),
        protocol::advertised(header.api_key),
        request::parse_body(
            payload(header, body),
            start(header),
            header.api_key,
            header.api_version,
        ) == codec::parsed(model, payload(header, body).len()),
    ensures
        says(header, body, model),
{
    let s = payload(header, body);
    let whole = frame(header, body);
    lemma_start(header, body);
    codec::lemma_be_len(((s.len() as i32) as u32) as nat, 4);
    codec::law_integers_round_trip(0, 0, s.len() as i32, 0, 0);
    assert(whole.subrange(0, 4) =~= codec::i32_bytes(s.len() as i32));
    assert(whole.skip(4) =~= s);
}

proof fn lemma_advertised(api_key: i16)
    ensures
        api_key == api::PRODUCE || api_key == api::FETCH || api_key == api::LIST_OFFSETS || api_key
            == api::METADATA || api_key == api::API_VERSIONS || api_key == api::FIND_COORDINATOR
            || api_key == api::INIT_PRODUCER_ID || api_key == api::ADD_PARTITIONS_TO_TXN || api_key
            == api::END_TXN || api_key == api::JOIN_GROUP || api_key == api::SYNC_GROUP || api_key
            == api::HEARTBEAT || api_key == api::LEAVE_GROUP || api_key == api::OFFSET_COMMIT
            || api_key == api::OFFSET_FETCH ==> protocol::advertised(api_key),
{
    let first = protocol::SUPPORTED_VERSIONS@;
    let rest = protocol::COORDINATION_VERSIONS@;
    assert(first[0].0 == api::PRODUCE);
    assert(first[1].0 == api::FETCH);
    assert(first[2].0 == api::LIST_OFFSETS);
    assert(first[3].0 == api::METADATA);
    assert(first[4].0 == api::API_VERSIONS);
    assert(rest[0].0 == api::FIND_COORDINATOR);
    assert(rest[1].0 == api::INIT_PRODUCER_ID);
    assert(rest[2].0 == api::ADD_PARTITIONS_TO_TXN);
    assert(rest[3].0 == api::END_TXN);
    assert(rest[4].0 == api::JOIN_GROUP);
    assert(rest[5].0 == api::SYNC_GROUP);
    assert(rest[6].0 == api::HEARTBEAT);
    assert(rest[7].0 == api::LEAVE_GROUP);
    assert(rest[8].0 == api::OFFSET_COMMIT);
    assert(rest[9].0 == api::OFFSET_FETCH);
}

// ---------------------------------------------------------------------------
// Parts of requests
// ---------------------------------------------------------------------------

/// One topic with one partition, as it is sent.
pub open spec fn one_partition(topic: Seq<u8>, partition: i32) -> Seq<u8> {
    codec::i32_bytes(1) + places::string(topic) + codec::i32_bytes(1) + codec::i32_bytes(partition)
}

/// How a name is sent.
pub open spec fn name_bytes() -> spec_fn(Seq<u8>) -> Seq<u8> {
    |name: Seq<u8>| places::string(name)
}

/// How a name with its bytes is sent.
pub open spec fn named_bytes() -> spec_fn((Seq<u8>, Seq<u8>)) -> Seq<u8> {
    |item: (Seq<u8>, Seq<u8>)| places::string(item.0) + places::blob(item.1)
}

/// How a partition index is sent.
pub open spec fn index_bytes() -> spec_fn(i32) -> Seq<u8> {
    |index: i32| codec::i32_bytes(index)
}

/// How a topic with its partitions is sent.
pub open spec fn txn_topic_bytes() -> spec_fn((Seq<u8>, Seq<i32>)) -> Seq<u8> {
    |topic: (Seq<u8>, Seq<i32>)| places::string(topic.0) + places::counted(topic.1, index_bytes())
}

/// How a partition with its record set is sent.
pub open spec fn produce_partition_bytes() -> spec_fn((i32, Seq<u8>)) -> Seq<u8> {
    |entry: (i32, Seq<u8>)| codec::i32_bytes(entry.0) + places::blob(entry.1)
}

/// How a topic with its partitions and their record sets is sent.
pub open spec fn produce_topic_bytes() -> spec_fn((Seq<u8>, Seq<(i32, Seq<u8>)>)) -> Seq<u8> {
    |topic: (Seq<u8>, Seq<(i32, Seq<u8>)>)|
        places::string(topic.0) + places::counted(topic.1, produce_partition_bytes())
}

/// How a partition with its offset and byte limit is sent.
pub open spec fn fetch_partition_bytes() -> spec_fn(FetchPartition) -> Seq<u8> {
    |entry: FetchPartition|
        codec::i32_bytes(entry.partition) + codec::i64_bytes(entry.fetch_offset) + codec::i32_bytes(
            entry.partition_max_bytes,
        )
}

/// How a topic with the partitions to fetch is sent.
pub open spec fn fetch_topic_bytes() -> spec_fn(FetchTopicModel) -> Seq<u8> {
    |topic: FetchTopicModel|
        places::string(topic.name) + places::counted(topic.partitions, fetch_partition_bytes())
}

/// How a partition with the timestamp that is asked for is sent.
pub open spec fn list_partition_bytes() -> spec_fn(ListOffsetsPartition) -> Seq<u8> {
    |entry: ListOffsetsPartition|
        codec::i32_bytes(entry.partition) + codec::i64_bytes(entry.timestamp)
}

/// How a topic with the partitions to list is sent.
pub open spec fn list_topic_bytes() -> spec_fn(ListOffsetsTopicModel) -> Seq<u8> {
    |topic: ListOffsetsTopicModel|
        places::string(topic.name) + places::counted(topic.partitions, list_partition_bytes())
}

/// Whether these can be sent as names.
pub open spec fn names_fit(names: Seq<Seq<u8>>) -> bool {
    &&& names.len() <= MAX_ARRAY_LEN
    &&& forall|i: int| 0 <= i < names.len() ==> 0 < (#[trigger] names[i]).len() <= MAX_STRING_LEN
}

/// Whether these can be sent as topics with partitions.
pub open spec fn txn_topics_fit(topics: Seq<(Seq<u8>, Seq<i32>)>) -> bool {
    &&& topics.len() <= MAX_ARRAY_LEN
    &&& forall|i: int|
        0 <= i < topics.len() ==> (#[trigger] topics[i]).0.len() <= MAX_STRING_LEN
            && topics[i].1.len() <= MAX_ARRAY_LEN
    &&& forall|i: int, j: int|
        0 <= i < topics.len() && 0 <= j < topics[i].1.len() ==> #[trigger] topics[i].1[j] >= 0
}

/// Whether a partition can be sent with its record set: the set can be decoded
/// and holds records.
pub open spec fn produce_entry_fits(entry: (i32, Seq<u8>)) -> bool {
    record_batch::decoded_set(entry.1) matches Ok(set) && set.records.len() > 0
}

/// Whether this can be sent as a topic with partitions and their record sets.
pub open spec fn produce_topic_fits(topic: (Seq<u8>, Seq<(i32, Seq<u8>)>)) -> bool {
    &&& 0 < topic.0.len() <= MAX_STRING_LEN
    &&& topic.1.len() <= MAX_ARRAY_LEN
    &&& forall|j: int| 0 <= j < topic.1.len() ==> produce_entry_fits(#[trigger] topic.1[j])
}

/// Whether this can be sent as a topic with the partitions to fetch.
pub open spec fn fetch_topic_fits(topic: FetchTopicModel) -> bool {
    &&& 0 < topic.name.len() <= MAX_STRING_LEN
    &&& topic.partitions.len() <= MAX_ARRAY_LEN
    &&& forall|j: int|
        0 <= j < topic.partitions.len() ==> (#[trigger] topic.partitions[j]).partition_max_bytes
            >= 0
}

/// Whether this can be sent as a topic with the partitions to list.
pub open spec fn list_topic_fits(topic: ListOffsetsTopicModel) -> bool {
    &&& 0 < topic.name.len() <= MAX_STRING_LEN
    &&& topic.partitions.len() <= MAX_ARRAY_LEN
}

/// What a partition with a record set tells: what the set decodes to.
pub open spec fn told_produce_entry() -> spec_fn((i32, Seq<u8>)) -> ProducePartitionModel {
    |entry: (i32, Seq<u8>)|
        {
            let set = record_batch::decoded_set(entry.1)->Ok_0;
            ProducePartitionModel {
                partition: entry.0,
                records: set.records,
                batches: set.batches,
                producer: set.producer,
            }
        }
}

/// What a topic with partitions and their record sets tells.
pub open spec fn told_produce_topic() -> spec_fn((Seq<u8>, Seq<(i32, Seq<u8>)>)) -> ProduceTopicModel {
    |topic: (Seq<u8>, Seq<(i32, Seq<u8>)>)|
        ProduceTopicModel { name: topic.0, partitions: topic.1.map_values(told_produce_entry()) }
}

proof fn lemma_one(s: Seq<u8>, pos: nat, topic: Seq<u8>, partition: i32, rest: Seq<u8>)
    requires
        s.len() <= MAX_FRAME_LEN,
        topic.len() <= MAX_STRING_LEN,
        places::stands(s, pos, one_partition(topic, partition) + rest),
    ensures
        request::parse_one_partition(s, pos) == codec::parsed(
            (topic, partition),
            pos + one_partition(topic, partition).len(),
        ),
        places::stands(s, pos + one_partition(topic, partition).len(), rest),
{
    let one = codec::i32_bytes(1);
    let name = places::string(topic);
    let index = codec::i32_bytes(partition);
    codec::lemma_be_len((1i32 as u32) as nat, 4);
    codec::lemma_be_len((partition as u32) as nat, 4);
    codec::lemma_be_len(((topic.len() as i16) as u16) as nat, 2);
    assert(one_partition(topic, partition) + rest =~= one + (name + (one + (index + rest))));
    places::lemma_i32(s, pos, 1, name + (one + (index + rest)));
    places::lemma_string(s, pos + 4, topic, one + (index + rest));
    places::lemma_i32(s, pos + 6 + topic.len(), 1, index + rest);
    places::lemma_i32(s, pos + 10 + topic.len(), partition, rest);
}

proof fn lemma_list<I: Item, T>(
    s: Seq<u8>,
    pos: nat,
    items: Seq<T>,
    write: spec_fn(T) -> Seq<u8>,
    told: spec_fn(T) -> <I::Out as DeepView>::V,
    rest: Seq<u8>,
)
    requires
        s.len() <= MAX_FRAME_LEN,
        items.len() <= MAX_ARRAY_LEN,
        places::stands(s, pos, places::counted(items, write) + rest),
        forall|i: int, p: nat|
            #![trigger places::stands(s, p, write(items[i]))]
            0 <= i < items.len() && places::stands(s, p, write(items[i])) ==> I::parse(s, p)
                == codec::parsed(told(items[i]), p + write(items[i]).len()),
    ensures
        request::parse_array::<I>(s, pos) == codec::parsed(
            items.map_values(told),
            pos + places::counted(items, write).len(),
        ),
        places::stands(s, pos + places::counted(items, write).len(), rest),
{
    places::lemma_counted(s, pos, items, write, request::item_of::<I>(), told, rest);
}

proof fn lemma_names(s: Seq<u8>, pos: nat, names: Seq<Seq<u8>>, rest: Seq<u8>)
    requires
        s.len() <= MAX_FRAME_LEN,
        names_fit(names),
        places::stands(s, pos, places::counted(names, name_bytes()) + rest),
    ensures
        codec::parse_nullable_array_len(s, pos) == codec::parsed(
            Some(names.len() as usize),
            pos + 4,
        ),
        codec::parse_many(s, pos + 4, names.len(), request::item_of::<NameItem>())
            == codec::parsed(names, pos + places::counted(names, name_bytes()).len()),
        places::stands(s, pos + places::counted(names, name_bytes()).len(), rest),
{
    let told = |name: Seq<u8>| name;
    assert forall|i: int, p: nat|
        #![trigger places::stands(s, p, name_bytes()(names[i]))]
        0 <= i < names.len() && places::stands(s, p, name_bytes()(names[i])) implies (
    request::item_of::<NameItem>())(s, p) == codec::parsed(
        told(names[i]),
        p + name_bytes()(names[i]).len(),
    ) by {
        let name = places::string(names[i]);
        codec::lemma_be_len(((names[i].len() as i16) as u16) as nat, 2);
        assert(name + seq![] =~= name);
        places::lemma_string(s, p, names[i], seq![]);
    }
    places::lemma_counted(s, pos, names, name_bytes(), request::item_of::<NameItem>(), told, rest);
    assert(names.map_values(told) =~= names);
}

proof fn lemma_strings(s: Seq<u8>, pos: nat, names: Seq<Seq<u8>>, rest: Seq<u8>)
    requires
        s.len() <= MAX_FRAME_LEN,
        names.len() <= MAX_ARRAY_LEN,
        forall|i: int| 0 <= i < names.len() ==> (#[trigger] names[i]).len() <= MAX_STRING_LEN,
        places::stands(s, pos, places::counted(names, name_bytes()) + rest),
    ensures
        request::parse_array::<StringItem>(s, pos) == codec::parsed(
            names,
            pos + places::counted(names, name_bytes()).len(),
        ),
        places::stands(s, pos + places::counted(names, name_bytes()).len(), rest),
{
    let told = |name: Seq<u8>| name;
    assert forall|i: int, p: nat|
        #![trigger places::stands(s, p, name_bytes()(names[i]))]
        0 <= i < names.len() && places::stands(
            s,
            p,
            name_bytes()(names[i]),
        ) implies StringItem::parse(
        s,
        p,
    ) == codec::parsed(told(names[i]), p + name_bytes()(names[i]).len()) by {
        let name = places::string(names[i]);
        codec::lemma_be_len(((names[i].len() as i16) as u16) as nat, 2);
        assert(name + seq![] =~= name);
        places::lemma_string(s, p, names[i], seq![]);
    }
    lemma_list::<StringItem, Seq<u8>>(s, pos, names, name_bytes(), told, rest);
    assert(names.map_values(told) =~= names);
}

/// How the bytes of a name are told.
spec fn told_bytes() -> spec_fn((Seq<u8>, Seq<u8>)) -> Seq<u8> {
    |item: (Seq<u8>, Seq<u8>)| item.1
}

proof fn lemma_named_item(s: Seq<u8>, pos: nat, item: (Seq<u8>, Seq<u8>), rest: Seq<u8>)
    requires
        s.len() <= MAX_FRAME_LEN,
        item.0.len() <= MAX_STRING_LEN,
        places::stands(s, pos, named_bytes()(item) + rest),
    ensures
        NamedBytesItem::parse(s, pos) == codec::parsed(item.1, pos + named_bytes()(item).len()),
        codec::parse_string(s, pos) == codec::parsed(item.0, pos + 2 + item.0.len()),
        request::parse_required_bytes(s, pos + 2 + item.0.len()) == codec::parsed(
            item.1,
            pos + named_bytes()(item).len(),
        ),
        places::stands(s, pos + named_bytes()(item).len(), rest),
{
    codec::lemma_be_len(((item.0.len() as i16) as u16) as nat, 2);
    codec::lemma_be_len(((item.1.len() as i32) as u32) as nat, 4);
    assert(named_bytes()(item) + rest =~= places::string(item.0) + (places::blob(item.1) + rest));
    places::lemma_string(s, pos, item.0, places::blob(item.1) + rest);
    places::lemma_blob(s, pos + 2 + item.0.len(), item.1, rest);
}

proof fn lemma_first_non_empty(items: Seq<Seq<u8>>, first: int)
    requires
        0 <= first <= items.len(),
        forall|i: int| 0 <= i < first ==> (#[trigger] items[i]).len() == 0,
        first < items.len() ==> items[first].len() > 0,
    ensures
        request::first_non_empty(items) == (if first < items.len() {
            items[first]
        } else {
            seq![]
        }),
    decreases items.len(),
{
    if items.len() > 0 && items[0].len() == 0 {
        let tail = items.skip(1);
        assert forall|i: int| 0 <= i < first - 1 implies (#[trigger] tail[i]).len() == 0 by {
            assert(tail[i] == items[i + 1]);
        }
        lemma_first_non_empty(tail, first - 1);
    }
}

proof fn lemma_named(s: Seq<u8>, pos: nat, items: Seq<(Seq<u8>, Seq<u8>)>, rest: Seq<u8>)
    requires
        s.len() <= MAX_FRAME_LEN,
        items.len() <= MAX_ARRAY_LEN,
        forall|i: int| 0 <= i < items.len() ==> (#[trigger] items[i]).0.len() <= MAX_STRING_LEN,
        places::stands(s, pos, places::counted(items, named_bytes()) + rest),
    ensures
        request::parse_array::<NamedBytesItem>(s, pos) == codec::parsed(
            items.map_values(told_bytes()),
            pos + places::counted(items, named_bytes()).len(),
        ),
        places::stands(s, pos + places::counted(items, named_bytes()).len(), rest),
{
    assert forall|i: int, p: nat|
        #![trigger places::stands(s, p, named_bytes()(items[i]))]
        0 <= i < items.len() && places::stands(
            s,
            p,
            named_bytes()(items[i]),
        ) implies NamedBytesItem::parse(
        s,
        p,
    ) == codec::parsed(told_bytes()(items[i]), p + named_bytes()(items[i]).len()) by {
        assert(named_bytes()(items[i]) + seq![] =~= named_bytes()(items[i]));
        lemma_named_item(s, p, items[i], seq![]);
    }
    lemma_list::<NamedBytesItem, (Seq<u8>, Seq<u8>)>(
        s,
        pos,
        items,
        named_bytes(),
        told_bytes(),
        rest,
    );
}

proof fn lemma_indexes(s: Seq<u8>, pos: nat, items: Seq<i32>, rest: Seq<u8>)
    requires
        s.len() <= MAX_FRAME_LEN,
        items.len() <= MAX_ARRAY_LEN,
        forall|i: int| 0 <= i < items.len() ==> #[trigger] items[i] >= 0,
        places::stands(s, pos, places::counted(items, index_bytes()) + rest),
    ensures
        request::parse_array::<IndexItem>(s, pos) == codec::parsed(
            items,
            pos + places::counted(items, index_bytes()).len(),
        ),
        places::stands(s, pos + places::counted(items, index_bytes()).len(), rest),
{
    let told = |index: i32| index;
    assert forall|i: int, p: nat|
        #![trigger places::stands(s, p, index_bytes()(items[i]))]
        0 <= i < items.len() && places::stands(
            s,
            p,
            index_bytes()(items[i]),
        ) implies IndexItem::parse(
        s,
        p,
    ) == codec::parsed(told(items[i]), p + index_bytes()(items[i]).len()) by {
        codec::lemma_be_len((items[i] as u32) as nat, 4);
        assert(index_bytes()(items[i]) + seq![] =~= index_bytes()(items[i]));
        places::lemma_i32(s, p, items[i], seq![]);
    }
    lemma_list::<IndexItem, i32>(s, pos, items, index_bytes(), told, rest);
    assert(items.map_values(told) =~= items);
}

proof fn lemma_txn_topics(s: Seq<u8>, pos: nat, items: Seq<(Seq<u8>, Seq<i32>)>, rest: Seq<u8>)
    requires
        s.len() <= MAX_FRAME_LEN,
        txn_topics_fit(items),
        places::stands(s, pos, places::counted(items, txn_topic_bytes()) + rest),
    ensures
        request::parse_array::<TxnTopicItem>(s, pos) == codec::parsed(
            items,
            pos + places::counted(items, txn_topic_bytes()).len(),
        ),
        places::stands(s, pos + places::counted(items, txn_topic_bytes()).len(), rest),
{
    let told = |topic: (Seq<u8>, Seq<i32>)| topic;
    assert forall|i: int, p: nat|
        #![trigger places::stands(s, p, txn_topic_bytes()(items[i]))]
        0 <= i < items.len() && places::stands(
            s,
            p,
            txn_topic_bytes()(items[i]),
        ) implies TxnTopicItem::parse(
        s,
        p,
    ) == codec::parsed(told(items[i]), p + txn_topic_bytes()(items[i]).len()) by {
        let topic = items[i];
        let list = places::counted(topic.1, index_bytes());
        codec::lemma_be_len(((topic.0.len() as i16) as u16) as nat, 2);
        assert(list + seq![] =~= list);
        places::lemma_string(s, p, topic.0, list);
        lemma_indexes(s, p + 2 + topic.0.len(), topic.1, seq![]);
    }
    lemma_list::<TxnTopicItem, (Seq<u8>, Seq<i32>)>(s, pos, items, txn_topic_bytes(), told, rest);
    assert(items.map_values(told) =~= items);
}

proof fn lemma_produce_partitions(s: Seq<u8>, pos: nat, items: Seq<(i32, Seq<u8>)>, rest: Seq<u8>)
    requires
        s.len() <= MAX_FRAME_LEN,
        items.len() <= MAX_ARRAY_LEN,
        forall|j: int| 0 <= j < items.len() ==> produce_entry_fits(#[trigger] items[j]),
        places::stands(s, pos, places::counted(items, produce_partition_bytes()) + rest),
    ensures
        request::parse_array::<ProducePartitionItem>(s, pos) == codec::parsed(
            items.map_values(told_produce_entry()),
            pos + places::counted(items, produce_partition_bytes()).len(),
        ),
        places::stands(s, pos + places::counted(items, produce_partition_bytes()).len(), rest),
{
    assert forall|i: int, p: nat|
        #![trigger places::stands(s, p, produce_partition_bytes()(items[i]))]
        0 <= i < items.len() && places::stands(
            s,
            p,
            produce_partition_bytes()(items[i]),
        ) implies ProducePartitionItem::parse(
        s,
        p,
    ) == codec::parsed(
        told_produce_entry()(items[i]),
        p + produce_partition_bytes()(items[i]).len(),
    ) by {
        let entry = items[i];
        let set = places::blob(entry.1);
        codec::lemma_be_len((entry.0 as u32) as nat, 4);
        codec::lemma_be_len(((entry.1.len() as i32) as u32) as nat, 4);
        assert(set + seq![] =~= set);
        places::lemma_i32(s, p, entry.0, set);
        places::lemma_blob(s, p + 4, entry.1, seq![]);
        assert(produce_entry_fits(entry));
    }
    lemma_list::<ProducePartitionItem, (i32, Seq<u8>)>(
        s,
        pos,
        items,
        produce_partition_bytes(),
        told_produce_entry(),
        rest,
    );
}

proof fn lemma_produce_topics(
    s: Seq<u8>,
    pos: nat,
    items: Seq<(Seq<u8>, Seq<(i32, Seq<u8>)>)>,
    rest: Seq<u8>,
)
    requires
        s.len() <= MAX_FRAME_LEN,
        items.len() <= MAX_ARRAY_LEN,
        forall|i: int| 0 <= i < items.len() ==> produce_topic_fits(#[trigger] items[i]),
        places::stands(s, pos, places::counted(items, produce_topic_bytes()) + rest),
    ensures
        request::parse_array::<ProduceTopicItem>(s, pos) == codec::parsed(
            items.map_values(told_produce_topic()),
            pos + places::counted(items, produce_topic_bytes()).len(),
        ),
        places::stands(s, pos + places::counted(items, produce_topic_bytes()).len(), rest),
{
    assert forall|i: int, p: nat|
        #![trigger places::stands(s, p, produce_topic_bytes()(items[i]))]
        0 <= i < items.len() && places::stands(
            s,
            p,
            produce_topic_bytes()(items[i]),
        ) implies ProduceTopicItem::parse(
        s,
        p,
    ) == codec::parsed(
        told_produce_topic()(items[i]),
        p + produce_topic_bytes()(items[i]).len(),
    ) by {
        let topic = items[i];
        assert(produce_topic_fits(topic));
        let list = places::counted(topic.1, produce_partition_bytes());
        codec::lemma_be_len(((topic.0.len() as i16) as u16) as nat, 2);
        assert(list + seq![] =~= list);
        places::lemma_string(s, p, topic.0, list);
        lemma_produce_partitions(s, p + 2 + topic.0.len(), topic.1, seq![]);
    }
    lemma_list::<ProduceTopicItem, (Seq<u8>, Seq<(i32, Seq<u8>)>)>(
        s,
        pos,
        items,
        produce_topic_bytes(),
        told_produce_topic(),
        rest,
    );
}

proof fn lemma_fetch_partitions(s: Seq<u8>, pos: nat, items: Seq<FetchPartition>, rest: Seq<u8>)
    requires
        s.len() <= MAX_FRAME_LEN,
        items.len() <= MAX_ARRAY_LEN,
        forall|j: int|
            0 <= j < items.len() ==> (#[trigger] items[j]).partition_max_bytes >= 0,
        places::stands(s, pos, places::counted(items, fetch_partition_bytes()) + rest),
    ensures
        request::parse_array::<FetchPartitionItem>(s, pos) == codec::parsed(
            items,
            pos + places::counted(items, fetch_partition_bytes()).len(),
        ),
        places::stands(s, pos + places::counted(items, fetch_partition_bytes()).len(), rest),
{
    let told = |entry: FetchPartition| entry;
    assert forall|i: int, p: nat|
        #![trigger places::stands(s, p, fetch_partition_bytes()(items[i]))]
        0 <= i < items.len() && places::stands(
            s,
            p,
            fetch_partition_bytes()(items[i]),
        ) implies FetchPartitionItem::parse(
        s,
        p,
    ) == codec::parsed(told(items[i]), p + fetch_partition_bytes()(items[i]).len()) by {
        let entry = items[i];
        let index = codec::i32_bytes(entry.partition);
        let offset = codec::i64_bytes(entry.fetch_offset);
        let limit = codec::i32_bytes(entry.partition_max_bytes);
        codec::lemma_be_len((entry.partition as u32) as nat, 4);
        codec::lemma_be_len((entry.fetch_offset as u64) as nat, 8);
        codec::lemma_be_len((entry.partition_max_bytes as u32) as nat, 4);
        assert(fetch_partition_bytes()(entry) =~= index + (offset + (limit + seq![])));
        places::lemma_i32(s, p, entry.partition, offset + (limit + seq![]));
        places::lemma_i64(s, p + 4, entry.fetch_offset, limit + seq![]);
        places::lemma_i32(s, p + 12, entry.partition_max_bytes, seq![]);
    }
    lemma_list::<FetchPartitionItem, FetchPartition>(
        s,
        pos,
        items,
        fetch_partition_bytes(),
        told,
        rest,
    );
    assert(items.map_values(told) =~= items);
}

proof fn lemma_fetch_topics(s: Seq<u8>, pos: nat, items: Seq<FetchTopicModel>, rest: Seq<u8>)
    requires
        s.len() <= MAX_FRAME_LEN,
        items.len() <= MAX_ARRAY_LEN,
        forall|i: int| 0 <= i < items.len() ==> fetch_topic_fits(#[trigger] items[i]),
        places::stands(s, pos, places::counted(items, fetch_topic_bytes()) + rest),
    ensures
        request::parse_array::<FetchTopicItem>(s, pos) == codec::parsed(
            items,
            pos + places::counted(items, fetch_topic_bytes()).len(),
        ),
        places::stands(s, pos + places::counted(items, fetch_topic_bytes()).len(), rest),
{
    let told = |topic: FetchTopicModel| topic;
    assert forall|i: int, p: nat|
        #![trigger places::stands(s, p, fetch_topic_bytes()(items[i]))]
        0 <= i < items.len() && places::stands(
            s,
            p,
            fetch_topic_bytes()(items[i]),
        ) implies FetchTopicItem::parse(
        s,
        p,
    ) == codec::parsed(told(items[i]), p + fetch_topic_bytes()(items[i]).len()) by {
        let topic = items[i];
        assert(fetch_topic_fits(topic));
        let list = places::counted(topic.partitions, fetch_partition_bytes());
        codec::lemma_be_len(((topic.name.len() as i16) as u16) as nat, 2);
        assert(list + seq![] =~= list);
        places::lemma_string(s, p, topic.name, list);
        lemma_fetch_partitions(s, p + 2 + topic.name.len(), topic.partitions, seq![]);
    }
    lemma_list::<FetchTopicItem, FetchTopicModel>(s, pos, items, fetch_topic_bytes(), told, rest);
    assert(items.map_values(told) =~= items);
}

proof fn lemma_list_partitions(
    s: Seq<u8>,
    pos: nat,
    items: Seq<ListOffsetsPartition>,
    rest: Seq<u8>,
)
    requires
        s.len() <= MAX_FRAME_LEN,
        items.len() <= MAX_ARRAY_LEN,
        places::stands(s, pos, places::counted(items, list_partition_bytes()) + rest),
    ensures
        request::parse_array::<ListOffsetsPartitionItem>(s, pos) == codec::parsed(
            items,
            pos + places::counted(items, list_partition_bytes()).len(),
        ),
        places::stands(s, pos + places::counted(items, list_partition_bytes()).len(), rest),
{
    let told = |entry: ListOffsetsPartition| entry;
    assert forall|i: int, p: nat|
        #![trigger places::stands(s, p, list_partition_bytes()(items[i]))]
        0 <= i < items.len() && places::stands(
            s,
            p,
            list_partition_bytes()(items[i]),
        ) implies ListOffsetsPartitionItem::parse(
        s,
        p,
    ) == codec::parsed(told(items[i]), p + list_partition_bytes()(items[i]).len()) by {
        let entry = items[i];
        let index = codec::i32_bytes(entry.partition);
        let timestamp = codec::i64_bytes(entry.timestamp);
        codec::lemma_be_len((entry.partition as u32) as nat, 4);
        codec::lemma_be_len((entry.timestamp as u64) as nat, 8);
        assert(list_partition_bytes()(entry) =~= index + (timestamp + seq![]));
        places::lemma_i32(s, p, entry.partition, timestamp + seq![]);
        places::lemma_i64(s, p + 4, entry.timestamp, seq![]);
    }
    lemma_list::<ListOffsetsPartitionItem, ListOffsetsPartition>(
        s,
        pos,
        items,
        list_partition_bytes(),
        told,
        rest,
    );
    assert(items.map_values(told) =~= items);
}

proof fn lemma_list_topics(s: Seq<u8>, pos: nat, items: Seq<ListOffsetsTopicModel>, rest: Seq<u8>)
    requires
        s.len() <= MAX_FRAME_LEN,
        items.len() <= MAX_ARRAY_LEN,
        forall|i: int| 0 <= i < items.len() ==> list_topic_fits(#[trigger] items[i]),
        places::stands(s, pos, places::counted(items, list_topic_bytes()) + rest),
    ensures
        request::parse_array::<ListOffsetsTopicItem>(s, pos) == codec::parsed(
            items,
            pos + places::counted(items, list_topic_bytes()).len(),
        ),
        places::stands(s, pos + places::counted(items, list_topic_bytes()).len(), rest),
{
    let told = |topic: ListOffsetsTopicModel| topic;
    assert forall|i: int, p: nat|
        #![trigger places::stands(s, p, list_topic_bytes()(items[i]))]
        0 <= i < items.len() && places::stands(
            s,
            p,
            list_topic_bytes()(items[i]),
        ) implies ListOffsetsTopicItem::parse(
        s,
        p,
    ) == codec::parsed(told(items[i]), p + list_topic_bytes()(items[i]).len()) by {
        let topic = items[i];
        assert(list_topic_fits(topic));
        let list = places::counted(topic.partitions, list_partition_bytes());
        codec::lemma_be_len(((topic.name.len() as i16) as u16) as nat, 2);
        assert(list + seq![] =~= list);
        places::lemma_string(s, p, topic.name, list);
        lemma_list_partitions(s, p + 2 + topic.name.len(), topic.partitions, seq![]);
    }
    lemma_list::<ListOffsetsTopicItem, ListOffsetsTopicModel>(
        s,
        pos,
        items,
        list_topic_bytes(),
        told,
        rest,
    );
    assert(items.map_values(told) =~= items);
}

/// Bytes that may be missing, as they are sent: a number of minus one for none.
pub open spec fn nullable_blob(value: Option<Seq<u8>>) -> Seq<u8> {
    match value {
        Some(value) => places::blob(value),
        None => codec::i32_bytes((-1) as i32),
    }
}

/// The metadata of a group protocol: a version, the topics and user data.
pub open spec fn subscription(
    subscription_version: i16,
    topics: Seq<Seq<u8>>,
    user_data: Option<Seq<u8>>,
) -> Seq<u8> {
    codec::i16_bytes(subscription_version) + places::counted(topics, name_bytes()) + nullable_blob(
        user_data,
    )
}

/// Whether these can be sent as strings.
pub open spec fn strings_fit(names: Seq<Seq<u8>>) -> bool {
    &&& names.len() <= MAX_ARRAY_LEN
    &&& forall|i: int| 0 <= i < names.len() ==> (#[trigger] names[i]).len() <= MAX_STRING_LEN
}

/// Whether these can be sent as protocols: at least one.
pub open spec fn protocols_fit(protocols: Seq<(Seq<u8>, Seq<u8>)>) -> bool {
    &&& 0 < protocols.len() <= MAX_ARRAY_LEN
    &&& forall|i: int|
        0 <= i < protocols.len() ==> (#[trigger] protocols[i]).0.len() <= MAX_STRING_LEN
}

/// The metadata of a group protocol tells the topics.
pub proof fn law_subscription_tells_its_topics(
    subscription_version: i16,
    topics: Seq<Seq<u8>>,
    user_data: Option<Seq<u8>>,
)
    requires
        strings_fit(topics),
        subscription(subscription_version, topics, user_data).len() <= MAX_FRAME_LEN,
    ensures
        request::parse_subscriptions(
            subscription(subscription_version, topics, user_data),
        ).result == Ok::<Seq<Seq<u8>>, Error>(topics),
{
    let s = subscription(subscription_version, topics, user_data);
    let list = places::counted(topics, name_bytes());
    let data = nullable_blob(user_data);
    assert(s =~= codec::i16_bytes(subscription_version) + (list + data));
    assert(s.subrange(0, s.len() as int) =~= s);
    places::lemma_i16(s, 0, subscription_version, list + data);
    lemma_strings(s, 2, topics, data);
    assert(data + seq![] =~= data);
    match user_data {
        Some(bytes) => places::lemma_blob(s, 2 + list.len(), bytes, seq![]),
        None => places::lemma_i32(s, 2 + list.len(), (-1) as i32, seq![]),
    }
}

proof fn lemma_flat_first<T>(items: Seq<T>, write: spec_fn(T) -> Seq<u8>)
    requires
        items.len() > 0,
    ensures
        places::flat(items, write) == write(items[0]) + places::flat(items.skip(1), write),
    decreases items.len(),
{
    if items.len() == 1 {
        assert(items.drop_last() =~= seq![]);
        assert(items.skip(1) =~= seq![]);
        assert(places::flat(items, write) =~= write(items[0]) + places::flat(items.skip(1), write));
    } else {
        lemma_flat_first(items.drop_last(), write);
        assert(items.drop_last().skip(1) =~= items.skip(1).drop_last());
        assert(places::flat(items, write) =~= write(items[0]) + places::flat(items.skip(1), write));
    }
}

proof fn lemma_protocols(
    s: Seq<u8>,
    pos: nat,
    protocols: Seq<(Seq<u8>, Seq<u8>)>,
    subscription_version: i16,
    subscriptions: Seq<Seq<u8>>,
    user_data: Option<Seq<u8>>,
    rest: Seq<u8>,
)
    requires
        s.len() <= MAX_FRAME_LEN,
        protocols_fit(protocols),
        strings_fit(subscriptions),
        protocols[0].1 == subscription(subscription_version, subscriptions, user_data),
        places::stands(s, pos, places::counted(protocols, named_bytes()) + rest),
    ensures
        request::parse_protocols(s, pos) == codec::parsed(
            subscriptions,
            pos + places::counted(protocols, named_bytes()).len(),
        ),
        places::stands(s, pos + places::counted(protocols, named_bytes()).len(), rest),
{
    let count = protocols.len() as i32;
    let first = named_bytes()(protocols[0]);
    let others = protocols.skip(1);
    let more = places::flat(others, named_bytes());
    codec::lemma_be_len((count as u32) as nat, 4);
    lemma_flat_first(protocols, named_bytes());
    assert(places::counted(protocols, named_bytes()) + rest =~= codec::i32_bytes(count) + (first + (
    more + rest)));
    places::lemma_i32(s, pos, count, first + (more + rest));
    lemma_named_item(s, pos + 4, protocols[0], more + rest);
    law_subscription_tells_its_topics(subscription_version, subscriptions, user_data);
    assert forall|i: int, p: nat|
        #![trigger places::stands(s, p, named_bytes()(others[i]))]
        0 <= i < others.len() && places::stands(s, p, named_bytes()(others[i])) implies (
    request::item_of::<NamedBytesItem>())(s, p) == codec::parsed(
        told_bytes()(others[i]),
        p + named_bytes()(others[i]).len(),
    ) by {
        assert(others[i] == protocols[i + 1]);
        assert(named_bytes()(others[i]) + seq![] =~= named_bytes()(others[i]));
        lemma_named_item(s, p, others[i], seq![]);
    }
    places::lemma_flat(
        s,
        pos + 4 + first.len(),
        others,
        named_bytes(),
        request::item_of::<NamedBytesItem>(),
        told_bytes(),
        rest,
    );
}

// ---------------------------------------------------------------------------
// Requests
// ---------------------------------------------------------------------------

/// An ApiVersions request has no body.
pub proof fn law_api_versions_frame(header: HeaderModel)
    requires
        sendable(header, api::API_VERSIONS, version::API_VERSIONS, seq![]),
    ensures
        says(header, seq![], BodyModel::ApiVersions),
{
    lemma_start(header, seq![]);
    lemma_advertised(header.api_key);
    lemma_says(header, seq![], BodyModel::ApiVersions);
}

/// The body of a FindCoordinator request: the key and its type.
pub open spec fn find_coordinator_body(key: Seq<u8>, key_type: i8) -> Seq<u8> {
    places::string(key) + codec::i8_bytes(key_type)
}

proof fn lemma_find_coordinator(
    s: Seq<u8>,
    pos: nat,
    key: Seq<u8>,
    key_type: i8,
)
    requires
        s.len() <= MAX_FRAME_LEN,
        0 < key.len() <= MAX_STRING_LEN,
        key_type == 0 || key_type == 1,
        places::stands(s, pos, find_coordinator_body(key, key_type)),
    ensures
        request::parse_find_coordinator(s, pos) == codec::parsed(
            BodyModel::FindCoordinator { key, key_type },
            pos + find_coordinator_body(key, key_type).len(),
        ),
{
    let nothing = Seq::<u8>::empty();
    let f0 = places::string(key);
    let f1 = codec::i8_bytes(key_type);
    assert(find_coordinator_body(key, key_type) =~= f0 + (f1 + nothing));
    let p0 = pos;
    places::lemma_string(s, p0, key, f1 + nothing);
    let p1 = p0 + 2 + key.len();
    places::lemma_i8(s, p1, key_type, nothing);
    codec::lemma_be_len(((key.len() as i16) as u16) as nat, 2);
}

/// A frame with this body is decoded into just these fields.
pub proof fn law_find_coordinator_frame(
    header: HeaderModel,
    key: Seq<u8>,
    key_type: i8,
)
    requires
        sendable(
            header,
            api::FIND_COORDINATOR,
            version::FIND_COORDINATOR,
            find_coordinator_body(key, key_type),
        ),
        0 < key.len() <= MAX_STRING_LEN,
        key_type == 0 || key_type == 1,
    ensures
        says(
            header,
            find_coordinator_body(key, key_type),
            (BodyModel::FindCoordinator { key, key_type }),
        ),
{
    let body = find_coordinator_body(key, key_type);
    lemma_start(header, body);
    lemma_advertised(header.api_key);
    lemma_find_coordinator(payload(header, body), start(header), key, key_type);
    lemma_says(header, body, (BodyModel::FindCoordinator { key, key_type }));
}

/// The body of an InitProducerId request: the transactional id, if there is one, and the
/// transaction timeout.
pub open spec fn init_producer_id_body(
    transactional_id: Option<Seq<u8>>,
    timeout_ms: i32,
) -> Seq<u8> {
    places::nullable(transactional_id) + codec::i32_bytes(timeout_ms)
}

proof fn lemma_init_producer_id(
    s: Seq<u8>,
    pos: nat,
    transactional_id: Option<Seq<u8>>,
    timeout_ms: i32,
)
    requires
        s.len() <= MAX_FRAME_LEN,
        transactional_id matches Some(id) ==> id.len() <= MAX_STRING_LEN,
        places::stands(s, pos, init_producer_id_body(transactional_id, timeout_ms)),
    ensures
        request::parse_init_producer_id(s, pos) == codec::parsed(
            BodyModel::InitProducerId { transactional_id, timeout_ms },
            pos + init_producer_id_body(transactional_id, timeout_ms).len(),
        ),
{
    let nothing = Seq::<u8>::empty();
    let f0 = places::nullable(transactional_id);
    let f1 = codec::i32_bytes(timeout_ms);
    assert(init_producer_id_body(transactional_id, timeout_ms) =~= f0 + (f1 + nothing));
    let p0 = pos;
    places::lemma_nullable(s, p0, transactional_id, f1 + nothing);
    let p1 = p0 + f0.len();
    places::lemma_i32(s, p1, timeout_ms, nothing);
    codec::lemma_be_len((timeout_ms as u32) as nat, 4);
}

/// A frame with this body is decoded into just these fields.
pub proof fn law_init_producer_id_frame(
    header: HeaderModel,
    transactional_id: Option<Seq<u8>>,
    timeout_ms: i32,
)
    requires
        sendable(
            header,
            api::INIT_PRODUCER_ID,
            version::INIT_PRODUCER_ID,
            init_producer_id_body(transactional_id, timeout_ms),
        ),
        transactional_id matches Some(id) ==> id.len() <= MAX_STRING_LEN,
    ensures
        says(
            header,
            init_producer_id_body(transactional_id, timeout_ms),
            (BodyModel::InitProducerId { transactional_id, timeout_ms }),
        ),
{
    let body = init_producer_id_body(transactional_id, timeout_ms);
    lemma_start(header, body);
    lemma_advertised(header.api_key);
    lemma_init_producer_id(payload(header, body), start(header), transactional_id, timeout_ms);
    lemma_says(header, body, (BodyModel::InitProducerId { transactional_id, timeout_ms }));
}

/// The body of an EndTxn request: the transactional id, the producer id and epoch, and one
/// byte that is one to commit and zero to abort.
pub open spec fn end_txn_body(
    transactional_id: Seq<u8>,
    producer_id: i64,
    producer_epoch: i16,
    flag: i8,
) -> Seq<u8> {
    places::string(transactional_id) + codec::i64_bytes(producer_id)
        + codec::i16_bytes(producer_epoch) + codec::i8_bytes(flag)
}

proof fn lemma_end_txn(
    s: Seq<u8>,
    pos: nat,
    transactional_id: Seq<u8>,
    producer_id: i64,
    producer_epoch: i16,
    flag: i8,
)
    requires
        s.len() <= MAX_FRAME_LEN,
        transactional_id.len() <= MAX_STRING_LEN,
        flag == 0 || flag == 1,
        places::stands(s, pos, end_txn_body(transactional_id, producer_id, producer_epoch, flag)),
    ensures
        request::parse_end_txn(s, pos) == codec::parsed(
            BodyModel::EndTxn { transactional_id, producer_id, producer_epoch, commit: flag == 1 },
            pos + end_txn_body(transactional_id, producer_id, producer_epoch, flag).len(),
        ),
{
    let nothing = Seq::<u8>::empty();
    let f0 = places::string(transactional_id);
    let f1 = codec::i64_bytes(producer_id);
    let f2 = codec::i16_bytes(producer_epoch);
    let f3 = codec::i8_bytes(flag);
    assert(end_txn_body(
        transactional_id,
        producer_id,
        producer_epoch,
        flag,
    ) =~= f0 + (f1 + (f2 + (f3 + nothing))));
    let p0 = pos;
    places::lemma_string(s, p0, transactional_id, f1 + (f2 + (f3 + nothing)));
    let p1 = p0 + 2 + transactional_id.len();
    places::lemma_i64(s, p1, producer_id, f2 + (f3 + nothing));
    let p2 = p1 + 8;
    places::lemma_i16(s, p2, producer_epoch, f3 + nothing);
    let p3 = p2 + 2;
    places::lemma_i8(s, p3, flag, nothing);
    codec::lemma_be_len(((transactional_id.len() as i16) as u16) as nat, 2);
    codec::lemma_be_len((producer_id as u64) as nat, 8);
    codec::lemma_be_len((producer_epoch as u16) as nat, 2);
}

/// A frame with this body is decoded into just these fields.
pub proof fn law_end_txn_frame(
    header: HeaderModel,
    transactional_id: Seq<u8>,
    producer_id: i64,
    producer_epoch: i16,
    flag: i8,
)
    requires
        sendable(
            header,
            api::END_TXN,
            version::END_TXN,
            end_txn_body(transactional_id, producer_id, producer_epoch, flag),
        ),
        transactional_id.len() <= MAX_STRING_LEN,
        flag == 0 || flag == 1,
    ensures
        says(
            header,
            end_txn_body(transactional_id, producer_id, producer_epoch, flag),
            (BodyModel::EndTxn {
                transactional_id,
                producer_id,
                producer_epoch,
                commit: flag == 1,
            }),
        ),
{
    let body = end_txn_body(transactional_id, producer_id, producer_epoch, flag);
    lemma_start(header, body);
    lemma_advertised(header.api_key);
    lemma_end_txn(
        payload(header, body),
        start(header),
        transactional_id,
        producer_id,
        producer_epoch,
        flag,
    );
    lemma_says(
        header,
        body,
        (BodyModel::EndTxn { transactional_id, producer_id, producer_epoch, commit: flag == 1 }),
    );
}

/// The body of a Heartbeat request: the group, the generation and the member.
pub open spec fn heartbeat_body(
    group_id: Seq<u8>,
    generation: i32,
    member_id: Seq<u8>,
) -> Seq<u8> {
    places::string(group_id) + codec::i32_bytes(generation) + places::string(member_id)
}

proof fn lemma_heartbeat(
    s: Seq<u8>,
    pos: nat,
    group_id: Seq<u8>,
    generation: i32,
    member_id: Seq<u8>,
)
    requires
        s.len() <= MAX_FRAME_LEN,
        group_id.len() <= MAX_STRING_LEN,
        member_id.len() <= MAX_STRING_LEN,
        places::stands(s, pos, heartbeat_body(group_id, generation, member_id)),
    ensures
        request::parse_heartbeat(s, pos) == codec::parsed(
            BodyModel::Heartbeat { group_id, generation, member_id },
            pos + heartbeat_body(group_id, generation, member_id).len(),
        ),
{
    let nothing = Seq::<u8>::empty();
    let f0 = places::string(group_id);
    let f1 = codec::i32_bytes(generation);
    let f2 = places::string(member_id);
    assert(heartbeat_body(group_id, generation, member_id) =~= f0 + (f1 + (f2 + nothing)));
    let p0 = pos;
    places::lemma_string(s, p0, group_id, f1 + (f2 + nothing));
    let p1 = p0 + 2 + group_id.len();
    places::lemma_i32(s, p1, generation, f2 + nothing);
    let p2 = p1 + 4;
    places::lemma_string(s, p2, member_id, nothing);
    codec::lemma_be_len(((group_id.len() as i16) as u16) as nat, 2);
    codec::lemma_be_len((generation as u32) as nat, 4);
    codec::lemma_be_len(((member_id.len() as i16) as u16) as nat, 2);
}

/// A frame with this body is decoded into just these fields.
pub proof fn law_heartbeat_frame(
    header: HeaderModel,
    group_id: Seq<u8>,
    generation: i32,
    member_id: Seq<u8>,
)
    requires
        sendable(
            header,
            api::HEARTBEAT,
            version::HEARTBEAT,
            heartbeat_body(group_id, generation, member_id),
        ),
        group_id.len() <= MAX_STRING_LEN,
        member_id.len() <= MAX_STRING_LEN,
    ensures
        says(
            header,
            heartbeat_body(group_id, generation, member_id),
            (BodyModel::Heartbeat { group_id, generation, member_id }),
        ),
{
    let body = heartbeat_body(group_id, generation, member_id);
    lemma_start(header, body);
    lemma_advertised(header.api_key);
    lemma_heartbeat(payload(header, body), start(header), group_id, generation, member_id);
    lemma_says(header, body, (BodyModel::Heartbeat { group_id, generation, member_id }));
}

/// The body of a LeaveGroup request: the group and the member.
pub open spec fn leave_group_body(group_id: Seq<u8>, member_id: Seq<u8>) -> Seq<u8> {
    places::string(group_id) + places::string(member_id)
}

proof fn lemma_leave_group(
    s: Seq<u8>,
    pos: nat,
    group_id: Seq<u8>,
    member_id: Seq<u8>,
)
    requires
        s.len() <= MAX_FRAME_LEN,
        group_id.len() <= MAX_STRING_LEN,
        member_id.len() <= MAX_STRING_LEN,
        places::stands(s, pos, leave_group_body(group_id, member_id)),
    ensures
        request::parse_leave_group(s, pos) == codec::parsed(
            BodyModel::LeaveGroup { group_id, member_id },
            pos + leave_group_body(group_id, member_id).len(),
        ),
{
    let nothing = Seq::<u8>::empty();
    let f0 = places::string(group_id);
    let f1 = places::string(member_id);
    assert(leave_group_body(group_id, member_id) =~= f0 + (f1 + nothing));
    let p0 = pos;
    places::lemma_string(s, p0, group_id, f1 + nothing);
    let p1 = p0 + 2 + group_id.len();
    places::lemma_string(s, p1, member_id, nothing);
    codec::lemma_be_len(((group_id.len() as i16) as u16) as nat, 2);
    codec::lemma_be_len(((member_id.len() as i16) as u16) as nat, 2);
}

/// A frame with this body is decoded into just these fields.
pub proof fn law_leave_group_frame(
    header: HeaderModel,
    group_id: Seq<u8>,
    member_id: Seq<u8>,
)
    requires
        sendable(
            header,
            api::LEAVE_GROUP,
            version::LEAVE_GROUP,
            leave_group_body(group_id, member_id),
        ),
        group_id.len() <= MAX_STRING_LEN,
        member_id.len() <= MAX_STRING_LEN,
    ensures
        says(
            header,
            leave_group_body(group_id, member_id),
            (BodyModel::LeaveGroup { group_id, member_id }),
        ),
{
    let body = leave_group_body(group_id, member_id);
    lemma_start(header, body);
    lemma_advertised(header.api_key);
    lemma_leave_group(payload(header, body), start(header), group_id, member_id);
    lemma_says(header, body, (BodyModel::LeaveGroup { group_id, member_id }));
}

/// The body of an OffsetCommit request: the group, the generation, the member, the retention
/// time, one topic with one partition, its offset and metadata.
pub open spec fn offset_commit_body(
    group_id: Seq<u8>,
    generation: i32,
    member_id: Seq<u8>,
    retention_ms: i64,
    topic: Seq<u8>,
    partition: i32,
    offset: i64,
    metadata: Option<Seq<u8>>,
) -> Seq<u8> {
    places::string(group_id) + codec::i32_bytes(generation) + places::string(member_id)
        + codec::i64_bytes(retention_ms) + one_partition(topic, partition)
        + codec::i64_bytes(offset) + places::nullable(metadata)
}

proof fn lemma_offset_commit(
    s: Seq<u8>,
    pos: nat,
    group_id: Seq<u8>,
    generation: i32,
    member_id: Seq<u8>,
    retention_ms: i64,
    topic: Seq<u8>,
    partition: i32,
    offset: i64,
    metadata: Option<Seq<u8>>,
)
    requires
        s.len() <= MAX_FRAME_LEN,
        group_id.len() <= MAX_STRING_LEN,
        member_id.len() <= MAX_STRING_LEN,
        topic.len() <= MAX_STRING_LEN,
        metadata matches Some(metadata) ==> metadata.len() <= MAX_STRING_LEN,
        places::stands(
            s,
            pos,
            offset_commit_body(
                group_id,
                generation,
                member_id,
                retention_ms,
                topic,
                partition,
                offset,
                metadata,
            ),
        ),
    ensures
        request::parse_offset_commit(s, pos) == codec::parsed(
            BodyModel::OffsetCommit { group_id, generation, member_id, topic, partition, offset },
            pos + offset_commit_body(
                group_id,
                generation,
                member_id,
                retention_ms,
                topic,
                partition,
                offset,
                metadata,
            ).len(),
        ),
{
    let nothing = Seq::<u8>::empty();
    let f0 = places::string(group_id);
    let f1 = codec::i32_bytes(generation);
    let f2 = places::string(member_id);
    let f3 = codec::i64_bytes(retention_ms);
    let f4 = one_partition(topic, partition);
    let f5 = codec::i64_bytes(offset);
    let f6 = places::nullable(metadata);
    assert(offset_commit_body(
        group_id,
        generation,
        member_id,
        retention_ms,
        topic,
        partition,
        offset,
        metadata,
    ) =~= f0 + (f1 + (f2 + (f3 + (f4 + (f5 + (f6 + nothing)))))));
    let p0 = pos;
    places::lemma_string(s, p0, group_id, f1 + (f2 + (f3 + (f4 + (f5 + (f6 + nothing))))));
    let p1 = p0 + 2 + group_id.len();
    places::lemma_i32(s, p1, generation, f2 + (f3 + (f4 + (f5 + (f6 + nothing)))));
    let p2 = p1 + 4;
    places::lemma_string(s, p2, member_id, f3 + (f4 + (f5 + (f6 + nothing))));
    let p3 = p2 + 2 + member_id.len();
    places::lemma_i64(s, p3, retention_ms, f4 + (f5 + (f6 + nothing)));
    let p4 = p3 + 8;
    lemma_one(s, p4, topic, partition, f5 + (f6 + nothing));
    let p5 = p4 + f4.len();
    places::lemma_i64(s, p5, offset, f6 + nothing);
    let p6 = p5 + 8;
    places::lemma_nullable(s, p6, metadata, nothing);
    codec::lemma_be_len(((group_id.len() as i16) as u16) as nat, 2);
    codec::lemma_be_len((generation as u32) as nat, 4);
    codec::lemma_be_len(((member_id.len() as i16) as u16) as nat, 2);
    codec::lemma_be_len((retention_ms as u64) as nat, 8);
    codec::lemma_be_len((offset as u64) as nat, 8);
}

/// A frame with this body is decoded into just these fields.
pub proof fn law_offset_commit_frame(
    header: HeaderModel,
    group_id: Seq<u8>,
    generation: i32,
    member_id: Seq<u8>,
    retention_ms: i64,
    topic: Seq<u8>,
    partition: i32,
    offset: i64,
    metadata: Option<Seq<u8>>,
)
    requires
        sendable(
            header,
            api::OFFSET_COMMIT,
            version::OFFSET_COMMIT,
            offset_commit_body(
                group_id,
                generation,
                member_id,
                retention_ms,
                topic,
                partition,
                offset,
                metadata,
            ),
        ),
        group_id.len() <= MAX_STRING_LEN,
        member_id.len() <= MAX_STRING_LEN,
        topic.len() <= MAX_STRING_LEN,
        metadata matches Some(metadata) ==> metadata.len() <= MAX_STRING_LEN,
    ensures
        says(
            header,
            offset_commit_body(
                group_id,
                generation,
                member_id,
                retention_ms,
                topic,
                partition,
                offset,
                metadata,
            ),
            (BodyModel::OffsetCommit { group_id, generation, member_id, topic, partition, offset }),
        ),
{
    let body = offset_commit_body(
        group_id,
        generation,
        member_id,
        retention_ms,
        topic,
        partition,
        offset,
        metadata,
    );
    lemma_start(header, body);
    lemma_advertised(header.api_key);
    lemma_offset_commit(
        payload(header, body),
        start(header),
        group_id,
        generation,
        member_id,
        retention_ms,
        topic,
        partition,
        offset,
        metadata,
    );
    lemma_says(
        header,
        body,
        (BodyModel::OffsetCommit { group_id, generation, member_id, topic, partition, offset }),
    );
}

/// The body of an OffsetFetch request: the group, and one topic with one partition.
pub open spec fn offset_fetch_body(
    group_id: Seq<u8>,
    topic: Seq<u8>,
    partition: i32,
) -> Seq<u8> {
    places::string(group_id) + one_partition(topic, partition)
}

proof fn lemma_offset_fetch(
    s: Seq<u8>,
    pos: nat,
    group_id: Seq<u8>,
    topic: Seq<u8>,
    partition: i32,
)
    requires
        s.len() <= MAX_FRAME_LEN,
        group_id.len() <= MAX_STRING_LEN,
        topic.len() <= MAX_STRING_LEN,
        places::stands(s, pos, offset_fetch_body(group_id, topic, partition)),
    ensures
        request::parse_offset_fetch(s, pos) == codec::parsed(
            BodyModel::OffsetFetch { group_id, topic, partition },
            pos + offset_fetch_body(group_id, topic, partition).len(),
        ),
{
    let nothing = Seq::<u8>::empty();
    let f0 = places::string(group_id);
    let f1 = one_partition(topic, partition);
    assert(offset_fetch_body(group_id, topic, partition) =~= f0 + (f1 + nothing));
    let p0 = pos;
    places::lemma_string(s, p0, group_id, f1 + nothing);
    let p1 = p0 + 2 + group_id.len();
    lemma_one(s, p1, topic, partition, nothing);
    codec::lemma_be_len(((group_id.len() as i16) as u16) as nat, 2);
}

/// A frame with this body is decoded into just these fields.
pub proof fn law_offset_fetch_frame(
    header: HeaderModel,
    group_id: Seq<u8>,
    topic: Seq<u8>,
    partition: i32,
)
    requires
        sendable(
            header,
            api::OFFSET_FETCH,
            version::OFFSET_FETCH,
            offset_fetch_body(group_id, topic, partition),
        ),
        group_id.len() <= MAX_STRING_LEN,
        topic.len() <= MAX_STRING_LEN,
    ensures
        says(
            header,
            offset_fetch_body(group_id, topic, partition),
            (BodyModel::OffsetFetch { group_id, topic, partition }),
        ),
{
    let body = offset_fetch_body(group_id, topic, partition);
    lemma_start(header, body);
    lemma_advertised(header.api_key);
    lemma_offset_fetch(payload(header, body), start(header), group_id, topic, partition);
    lemma_says(header, body, (BodyModel::OffsetFetch { group_id, topic, partition }));
}

/// The body of an AddPartitionsToTxn request: the transactional id, the producer id and
/// epoch, and the topics, each with its partitions.
pub open spec fn add_partitions_to_txn_body(
    transactional_id: Seq<u8>,
    producer_id: i64,
    producer_epoch: i16,
    topics: Seq<(Seq<u8>, Seq<i32>)>,
) -> Seq<u8> {
    places::string(transactional_id) + codec::i64_bytes(producer_id)
        + codec::i16_bytes(producer_epoch) + places::counted(topics, txn_topic_bytes())
}

proof fn lemma_add_partitions_to_txn(
    s: Seq<u8>,
    pos: nat,
    transactional_id: Seq<u8>,
    producer_id: i64,
    producer_epoch: i16,
    topics: Seq<(Seq<u8>, Seq<i32>)>,
)
    requires
        s.len() <= MAX_FRAME_LEN,
        transactional_id.len() <= MAX_STRING_LEN,
        txn_topics_fit(topics),
        places::stands(
            s,
            pos,
            add_partitions_to_txn_body(transactional_id, producer_id, producer_epoch, topics),
        ),
    ensures
        request::parse_add_partitions_to_txn(s, pos) == codec::parsed(
            BodyModel::AddPartitionsToTxn { transactional_id, producer_id, producer_epoch, topics },
            pos + add_partitions_to_txn_body(
                transactional_id,
                producer_id,
                producer_epoch,
                topics,
            ).len(),
        ),
{
    let nothing = Seq::<u8>::empty();
    let f0 = places::string(transactional_id);
    let f1 = codec::i64_bytes(producer_id);
    let f2 = codec::i16_bytes(producer_epoch);
    let f3 = places::counted(topics, txn_topic_bytes());
    assert(add_partitions_to_txn_body(
        transactional_id,
        producer_id,
        producer_epoch,
        topics,
    ) =~= f0 + (f1 + (f2 + (f3 + nothing))));
    let p0 = pos;
    places::lemma_string(s, p0, transactional_id, f1 + (f2 + (f3 + nothing)));
    let p1 = p0 + 2 + transactional_id.len();
    places::lemma_i64(s, p1, producer_id, f2 + (f3 + nothing));
    let p2 = p1 + 8;
    places::lemma_i16(s, p2, producer_epoch, f3 + nothing);
    let p3 = p2 + 2;
    lemma_txn_topics(s, p3, topics, nothing);
    codec::lemma_be_len(((transactional_id.len() as i16) as u16) as nat, 2);
    codec::lemma_be_len((producer_id as u64) as nat, 8);
    codec::lemma_be_len((producer_epoch as u16) as nat, 2);
}

/// A frame with this body is decoded into just these fields.
pub proof fn law_add_partitions_to_txn_frame(
    header: HeaderModel,
    transactional_id: Seq<u8>,
    producer_id: i64,
    producer_epoch: i16,
    topics: Seq<(Seq<u8>, Seq<i32>)>,
)
    requires
        sendable(
            header,
            api::ADD_PARTITIONS_TO_TXN,
            version::ADD_PARTITIONS_TO_TXN,
            add_partitions_to_txn_body(transactional_id, producer_id, producer_epoch, topics),
        ),
        transactional_id.len() <= MAX_STRING_LEN,
        txn_topics_fit(topics),
    ensures
        says(
            header,
            add_partitions_to_txn_body(transactional_id, producer_id, producer_epoch, topics),
            (BodyModel::AddPartitionsToTxn {
                transactional_id,
                producer_id,
                producer_epoch,
                topics,
            }),
        ),
{
    let body = add_partitions_to_txn_body(transactional_id, producer_id, producer_epoch, topics);
    lemma_start(header, body);
    lemma_advertised(header.api_key);
    lemma_add_partitions_to_txn(
        payload(header, body),
        start(header),
        transactional_id,
        producer_id,
        producer_epoch,
        topics,
    );
    lemma_says(
        header,
        body,
        (BodyModel::AddPartitionsToTxn { transactional_id, producer_id, producer_epoch, topics }),
    );
}

/// The body of a SyncGroup request: the group, the generation, the member, and the assignment
/// of each member. What counts is the first assignment that is not empty, if
/// there is one.
pub open spec fn sync_group_body(
    group_id: Seq<u8>,
    generation: i32,
    member_id: Seq<u8>,
    assignments: Seq<(Seq<u8>, Seq<u8>)>,
) -> Seq<u8> {
    places::string(group_id) + codec::i32_bytes(generation) + places::string(member_id)
        + places::counted(assignments, named_bytes())
}

proof fn lemma_sync_group(
    s: Seq<u8>,
    pos: nat,
    group_id: Seq<u8>,
    generation: i32,
    member_id: Seq<u8>,
    assignments: Seq<(Seq<u8>, Seq<u8>)>,
    first: int,
)
    requires
        s.len() <= MAX_FRAME_LEN,
        group_id.len() <= MAX_STRING_LEN,
        member_id.len() <= MAX_STRING_LEN,
        assignments.len() <= MAX_ARRAY_LEN,
        forall|i: int| 0 <= i < assignments.len()
            ==> (#[trigger] assignments[i]).0.len() <= MAX_STRING_LEN,
        0 <= first <= assignments.len(),
        forall|i: int| 0 <= i < first ==> (#[trigger] assignments[i]).1.len() == 0,
        first < assignments.len() ==> assignments[first].1.len() > 0,
        places::stands(s, pos, sync_group_body(group_id, generation, member_id, assignments)),
    ensures
        request::parse_sync_group(s, pos) == codec::parsed(
            BodyModel::SyncGroup {
                group_id,
                generation,
                member_id,
                assignment: if first < assignments.len() { assignments[first].1 } else { seq![] },
            },
            pos + sync_group_body(group_id, generation, member_id, assignments).len(),
        ),
{
    let nothing = Seq::<u8>::empty();
    let f0 = places::string(group_id);
    let f1 = codec::i32_bytes(generation);
    let f2 = places::string(member_id);
    let f3 = places::counted(assignments, named_bytes());
    assert(sync_group_body(
        group_id,
        generation,
        member_id,
        assignments,
    ) =~= f0 + (f1 + (f2 + (f3 + nothing))));
    let p0 = pos;
    places::lemma_string(s, p0, group_id, f1 + (f2 + (f3 + nothing)));
    let p1 = p0 + 2 + group_id.len();
    places::lemma_i32(s, p1, generation, f2 + (f3 + nothing));
    let p2 = p1 + 4;
    places::lemma_string(s, p2, member_id, f3 + nothing);
    let p3 = p2 + 2 + member_id.len();
    lemma_named(s, p3, assignments, nothing);
    codec::lemma_be_len(((group_id.len() as i16) as u16) as nat, 2);
    codec::lemma_be_len((generation as u32) as nat, 4);
    codec::lemma_be_len(((member_id.len() as i16) as u16) as nat, 2);
    let told = assignments.map_values(told_bytes());
    assert forall|i: int| 0 <= i < first implies (#[trigger] told[i]).len() == 0 by {
        assert(assignments[i].1.len() == 0);
    }
    lemma_first_non_empty(told, first);
}

/// A frame with this body is decoded into just these fields.
pub proof fn law_sync_group_frame(
    header: HeaderModel,
    group_id: Seq<u8>,
    generation: i32,
    member_id: Seq<u8>,
    assignments: Seq<(Seq<u8>, Seq<u8>)>,
    first: int,
)
    requires
        sendable(
            header,
            api::SYNC_GROUP,
            version::SYNC_GROUP,
            sync_group_body(group_id, generation, member_id, assignments),
        ),
        group_id.len() <= MAX_STRING_LEN,
        member_id.len() <= MAX_STRING_LEN,
        assignments.len() <= MAX_ARRAY_LEN,
        forall|i: int| 0 <= i < assignments.len()
            ==> (#[trigger] assignments[i]).0.len() <= MAX_STRING_LEN,
        0 <= first <= assignments.len(),
        forall|i: int| 0 <= i < first ==> (#[trigger] assignments[i]).1.len() == 0,
        first < assignments.len() ==> assignments[first].1.len() > 0,
    ensures
        says(
            header,
            sync_group_body(group_id, generation, member_id, assignments),
            (BodyModel::SyncGroup {
                group_id,
                generation,
                member_id,
                assignment: if first < assignments.len() { assignments[first].1 } else { seq![] },
            }),
        ),
{
    let body = sync_group_body(group_id, generation, member_id, assignments);
    lemma_start(header, body);
    lemma_advertised(header.api_key);
    lemma_sync_group(
        payload(header, body),
        start(header),
        group_id,
        generation,
        member_id,
        assignments,
        first,
    );
    lemma_says(
        header,
        body,
        (BodyModel::SyncGroup {
            group_id,
            generation,
            member_id,
            assignment: if first < assignments.len() { assignments[first].1 } else { seq![] },
        }),
    );
}

/// The body of a Metadata request for some topics: their names.
pub open spec fn metadata_body(topics: Seq<Seq<u8>>) -> Seq<u8> {
    places::counted(topics, name_bytes())
}

proof fn lemma_metadata(
    s: Seq<u8>,
    pos: nat,
    topics: Seq<Seq<u8>>,
)
    requires
        s.len() <= MAX_FRAME_LEN,
        names_fit(topics),
        places::stands(s, pos, metadata_body(topics)),
    ensures
        request::parse_metadata(s, pos) == codec::parsed(
            BodyModel::Metadata { topics: Some(topics) },
            pos + metadata_body(topics).len(),
        ),
{
    let nothing = Seq::<u8>::empty();
    let f0 = places::counted(topics, name_bytes());
    assert(metadata_body(topics) =~= f0 + nothing);
    let p0 = pos;
    lemma_names(s, p0, topics, nothing);
}

/// A frame with this body is decoded into just these fields.
pub proof fn law_metadata_frame(
    header: HeaderModel,
    topics: Seq<Seq<u8>>,
)
    requires
        sendable(header, api::METADATA, version::METADATA, metadata_body(topics)),
        names_fit(topics),
    ensures
        says(
            header,
            metadata_body(topics),
            (BodyModel::Metadata { topics: Some(topics) }),
        ),
{
    let body = metadata_body(topics);
    lemma_start(header, body);
    lemma_advertised(header.api_key);
    lemma_metadata(payload(header, body), start(header), topics);
    lemma_says(header, body, (BodyModel::Metadata { topics: Some(topics) }));
}

/// The body of a Metadata request for all topics: a number of names of minus one.
pub open spec fn metadata_of_all_body() -> Seq<u8> {
    codec::i32_bytes(((-1) as i32))
}

proof fn lemma_metadata_of_all(
    s: Seq<u8>,
    pos: nat,
)
    requires
        s.len() <= MAX_FRAME_LEN,
        places::stands(s, pos, metadata_of_all_body()),
    ensures
        request::parse_metadata(s, pos) == codec::parsed(
            BodyModel::Metadata { topics: None },
            pos + metadata_of_all_body().len(),
        ),
{
    let nothing = Seq::<u8>::empty();
    let f0 = codec::i32_bytes(((-1) as i32));
    assert(metadata_of_all_body() =~= f0 + nothing);
    let p0 = pos;
    places::lemma_i32(s, p0, ((-1) as i32), nothing);
    codec::lemma_be_len((((-1) as i32) as u32) as nat, 4);
}

/// A frame with this body is decoded into just these fields.
pub proof fn law_metadata_of_all_frame(
    header: HeaderModel,
)
    requires
        sendable(header, api::METADATA, version::METADATA, metadata_of_all_body()),
    ensures
        says(
            header,
            metadata_of_all_body(),
            (BodyModel::Metadata { topics: None }),
        ),
{
    let body = metadata_of_all_body();
    lemma_start(header, body);
    lemma_advertised(header.api_key);
    lemma_metadata_of_all(payload(header, body), start(header));
    lemma_says(header, body, (BodyModel::Metadata { topics: None }));
}

/// The body of a Produce request: the transactional id, if there is one, the acknowledgements,
/// the timeout, and the topics, each with its partitions and their record sets.
pub open spec fn produce_body(
    transactional_id: Option<Seq<u8>>,
    acks: i16,
    timeout_ms: i32,
    topics: Seq<(Seq<u8>, Seq<(i32, Seq<u8>)>)>,
) -> Seq<u8> {
    places::nullable(transactional_id) + codec::i16_bytes(acks)
        + codec::i32_bytes(timeout_ms) + places::counted(topics, produce_topic_bytes())
}

proof fn lemma_produce(
    s: Seq<u8>,
    pos: nat,
    transactional_id: Option<Seq<u8>>,
    acks: i16,
    timeout_ms: i32,
    topics: Seq<(Seq<u8>, Seq<(i32, Seq<u8>)>)>,
)
    requires
        s.len() <= MAX_FRAME_LEN,
        transactional_id matches Some(id) ==> id.len() <= MAX_STRING_LEN,
        topics.len() <= MAX_ARRAY_LEN,
        forall|i: int| 0 <= i < topics.len() ==> produce_topic_fits(#[trigger] topics[i]),
        places::stands(s, pos, produce_body(transactional_id, acks, timeout_ms, topics)),
    ensures
        request::parse_produce(s, pos) == codec::parsed(
            BodyModel::Produce {
                transactional_id,
                acks,
                timeout_ms,
                topics: topics.map_values(told_produce_topic()),
            },
            pos + produce_body(transactional_id, acks, timeout_ms, topics).len(),
        ),
{
    let nothing = Seq::<u8>::empty();
    let f0 = places::nullable(transactional_id);
    let f1 = codec::i16_bytes(acks);
    let f2 = codec::i32_bytes(timeout_ms);
    let f3 = places::counted(topics, produce_topic_bytes());
    assert(produce_body(
        transactional_id,
        acks,
        timeout_ms,
        topics,
    ) =~= f0 + (f1 + (f2 + (f3 + nothing))));
    let p0 = pos;
    places::lemma_nullable(s, p0, transactional_id, f1 + (f2 + (f3 + nothing)));
    let p1 = p0 + f0.len();
    places::lemma_i16(s, p1, acks, f2 + (f3 + nothing));
    let p2 = p1 + 2;
    places::lemma_i32(s, p2, timeout_ms, f3 + nothing);
    let p3 = p2 + 4;
    lemma_produce_topics(s, p3, topics, nothing);
    codec::lemma_be_len((acks as u16) as nat, 2);
    codec::lemma_be_len((timeout_ms as u32) as nat, 4);
}

/// A frame with this body is decoded into just these fields.
pub proof fn law_produce_frame(
    header: HeaderModel,
    transactional_id: Option<Seq<u8>>,
    acks: i16,
    timeout_ms: i32,
    topics: Seq<(Seq<u8>, Seq<(i32, Seq<u8>)>)>,
)
    requires
        sendable(
            header,
            api::PRODUCE,
            version::PRODUCE,
            produce_body(transactional_id, acks, timeout_ms, topics),
        ),
        transactional_id matches Some(id) ==> id.len() <= MAX_STRING_LEN,
        topics.len() <= MAX_ARRAY_LEN,
        forall|i: int| 0 <= i < topics.len() ==> produce_topic_fits(#[trigger] topics[i]),
    ensures
        says(
            header,
            produce_body(transactional_id, acks, timeout_ms, topics),
            (BodyModel::Produce {
                transactional_id,
                acks,
                timeout_ms,
                topics: topics.map_values(told_produce_topic()),
            }),
        ),
{
    let body = produce_body(transactional_id, acks, timeout_ms, topics);
    lemma_start(header, body);
    lemma_advertised(header.api_key);
    lemma_produce(payload(header, body), start(header), transactional_id, acks, timeout_ms, topics);
    lemma_says(
        header,
        body,
        (BodyModel::Produce {
            transactional_id,
            acks,
            timeout_ms,
            topics: topics.map_values(told_produce_topic()),
        }),
    );
}

/// The body of a Fetch request: the replica, the longest wait, the fewest and the most bytes,
/// one byte that is one to read what is committed and zero to read everything,
/// and the topics, each with its partitions, their offsets and byte limits.
pub open spec fn fetch_body(
    replica_id: i32,
    max_wait_ms: i32,
    min_bytes: i32,
    max_bytes: i32,
    isolation: i8,
    topics: Seq<FetchTopicModel>,
) -> Seq<u8> {
    codec::i32_bytes(replica_id) + codec::i32_bytes(max_wait_ms)
        + codec::i32_bytes(min_bytes) + codec::i32_bytes(max_bytes)
        + codec::i8_bytes(isolation) + places::counted(topics, fetch_topic_bytes())
}

proof fn lemma_fetch(
    s: Seq<u8>,
    pos: nat,
    replica_id: i32,
    max_wait_ms: i32,
    min_bytes: i32,
    max_bytes: i32,
    isolation: i8,
    topics: Seq<FetchTopicModel>,
)
    requires
        s.len() <= MAX_FRAME_LEN,
        max_wait_ms >= 0,
        min_bytes >= 0,
        max_bytes >= 0,
        isolation == 0 || isolation == 1,
        topics.len() <= MAX_ARRAY_LEN,
        forall|i: int| 0 <= i < topics.len() ==> fetch_topic_fits(#[trigger] topics[i]),
        places::stands(
            s,
            pos,
            fetch_body(replica_id, max_wait_ms, min_bytes, max_bytes, isolation, topics),
        ),
    ensures
        request::parse_fetch(s, pos) == codec::parsed(
            BodyModel::Fetch {
                replica_id,
                max_wait_ms,
                min_bytes,
                max_bytes,
                read_committed: isolation == 1,
                topics,
            },
            pos + fetch_body(
                replica_id,
                max_wait_ms,
                min_bytes,
                max_bytes,
                isolation,
                topics,
            ).len(),
        ),
{
    let nothing = Seq::<u8>::empty();
    let f0 = codec::i32_bytes(replica_id);
    let f1 = codec::i32_bytes(max_wait_ms);
    let f2 = codec::i32_bytes(min_bytes);
    let f3 = codec::i32_bytes(max_bytes);
    let f4 = codec::i8_bytes(isolation);
    let f5 = places::counted(topics, fetch_topic_bytes());
    assert(fetch_body(
        replica_id,
        max_wait_ms,
        min_bytes,
        max_bytes,
        isolation,
        topics,
    ) =~= f0 + (f1 + (f2 + (f3 + (f4 + (f5 + nothing))))));
    let p0 = pos;
    places::lemma_i32(s, p0, replica_id, f1 + (f2 + (f3 + (f4 + (f5 + nothing)))));
    let p1 = p0 + 4;
    places::lemma_i32(s, p1, max_wait_ms, f2 + (f3 + (f4 + (f5 + nothing))));
    let p2 = p1 + 4;
    places::lemma_i32(s, p2, min_bytes, f3 + (f4 + (f5 + nothing)));
    let p3 = p2 + 4;
    places::lemma_i32(s, p3, max_bytes, f4 + (f5 + nothing));
    let p4 = p3 + 4;
    places::lemma_i8(s, p4, isolation, f5 + nothing);
    let p5 = p4 + 1;
    lemma_fetch_topics(s, p5, topics, nothing);
    codec::lemma_be_len((replica_id as u32) as nat, 4);
    codec::lemma_be_len((max_wait_ms as u32) as nat, 4);
    codec::lemma_be_len((min_bytes as u32) as nat, 4);
    codec::lemma_be_len((max_bytes as u32) as nat, 4);
}

/// A frame with this body is decoded into just these fields.
pub proof fn law_fetch_frame(
    header: HeaderModel,
    replica_id: i32,
    max_wait_ms: i32,
    min_bytes: i32,
    max_bytes: i32,
    isolation: i8,
    topics: Seq<FetchTopicModel>,
)
    requires
        sendable(
            header,
            api::FETCH,
            version::FETCH,
            fetch_body(replica_id, max_wait_ms, min_bytes, max_bytes, isolation, topics),
        ),
        max_wait_ms >= 0,
        min_bytes >= 0,
        max_bytes >= 0,
        isolation == 0 || isolation == 1,
        topics.len() <= MAX_ARRAY_LEN,
        forall|i: int| 0 <= i < topics.len() ==> fetch_topic_fits(#[trigger] topics[i]),
    ensures
        says(
            header,
            fetch_body(replica_id, max_wait_ms, min_bytes, max_bytes, isolation, topics),
            (BodyModel::Fetch {
                replica_id,
                max_wait_ms,
                min_bytes,
                max_bytes,
                read_committed: isolation == 1,
                topics,
            }),
        ),
{
    let body = fetch_body(replica_id, max_wait_ms, min_bytes, max_bytes, isolation, topics);
    lemma_start(header, body);
    lemma_advertised(header.api_key);
    lemma_fetch(
        payload(header, body),
        start(header),
        replica_id,
        max_wait_ms,
        min_bytes,
        max_bytes,
        isolation,
        topics,
    );
    lemma_says(
        header,
        body,
        (BodyModel::Fetch {
            replica_id,
            max_wait_ms,
            min_bytes,
            max_bytes,
            read_committed: isolation == 1,
            topics,
        }),
    );
}

/// The body of a ListOffsets request: the replica, and the topics, each with its partitions
/// and the timestamps that are asked for.
pub open spec fn list_offsets_body(
    replica_id: i32,
    topics: Seq<ListOffsetsTopicModel>,
) -> Seq<u8> {
    codec::i32_bytes(replica_id) + places::counted(topics, list_topic_bytes())
}

proof fn lemma_list_offsets(
    s: Seq<u8>,
    pos: nat,
    replica_id: i32,
    topics: Seq<ListOffsetsTopicModel>,
)
    requires
        s.len() <= MAX_FRAME_LEN,
        topics.len() <= MAX_ARRAY_LEN,
        forall|i: int| 0 <= i < topics.len() ==> list_topic_fits(#[trigger] topics[i]),
        places::stands(s, pos, list_offsets_body(replica_id, topics)),
    ensures
        request::parse_list_offsets(s, pos) == codec::parsed(
            BodyModel::ListOffsets { replica_id, topics },
            pos + list_offsets_body(replica_id, topics).len(),
        ),
{
    let nothing = Seq::<u8>::empty();
    let f0 = codec::i32_bytes(replica_id);
    let f1 = places::counted(topics, list_topic_bytes());
    assert(list_offsets_body(replica_id, topics) =~= f0 + (f1 + nothing));
    let p0 = pos;
    places::lemma_i32(s, p0, replica_id, f1 + nothing);
    let p1 = p0 + 4;
    lemma_list_topics(s, p1, topics, nothing);
    codec::lemma_be_len((replica_id as u32) as nat, 4);
}

/// A frame with this body is decoded into just these fields.
pub proof fn law_list_offsets_frame(
    header: HeaderModel,
    replica_id: i32,
    topics: Seq<ListOffsetsTopicModel>,
)
    requires
        sendable(
            header,
            api::LIST_OFFSETS,
            version::LIST_OFFSETS,
            list_offsets_body(replica_id, topics),
        ),
        topics.len() <= MAX_ARRAY_LEN,
        forall|i: int| 0 <= i < topics.len() ==> list_topic_fits(#[trigger] topics[i]),
    ensures
        says(
            header,
            list_offsets_body(replica_id, topics),
            (BodyModel::ListOffsets { replica_id, topics }),
        ),
{
    let body = list_offsets_body(replica_id, topics);
    lemma_start(header, body);
    lemma_advertised(header.api_key);
    lemma_list_offsets(payload(header, body), start(header), replica_id, topics);
    lemma_says(header, body, (BodyModel::ListOffsets { replica_id, topics }));
}

/// The body of a JoinGroup request: the group, the session and rebalance
/// timeouts, the member, the kind of protocol, and the protocols, each with its
/// metadata. What counts are the topics in the metadata of the first.
pub open spec fn join_group_body(
    group_id: Seq<u8>,
    session_timeout_ms: i32,
    rebalance_timeout_ms: i32,
    member_id: Seq<u8>,
    protocol_type: Seq<u8>,
    protocols: Seq<(Seq<u8>, Seq<u8>)>,
) -> Seq<u8> {
    places::string(group_id) + codec::i32_bytes(session_timeout_ms)
        + codec::i32_bytes(rebalance_timeout_ms) + places::string(member_id)
        + places::string(protocol_type) + places::counted(protocols, named_bytes())
}

proof fn lemma_join_group(
    s: Seq<u8>,
    pos: nat,
    group_id: Seq<u8>,
    session_timeout_ms: i32,
    rebalance_timeout_ms: i32,
    member_id: Seq<u8>,
    protocol_type: Seq<u8>,
    protocols: Seq<(Seq<u8>, Seq<u8>)>,
    subscription_version: i16,
    subscriptions: Seq<Seq<u8>>,
    user_data: Option<Seq<u8>>,
)
    requires
        s.len() <= MAX_FRAME_LEN,
        group_id.len() <= MAX_STRING_LEN,
        session_timeout_ms >= 0,
        rebalance_timeout_ms >= 0,
        member_id.len() <= MAX_STRING_LEN,
        protocol_type.len() <= MAX_STRING_LEN,
        protocols_fit(protocols),
        strings_fit(subscriptions),
        protocols[0].1 == subscription(subscription_version, subscriptions, user_data),
        places::stands(
            s,
            pos,
            join_group_body(
                group_id,
                session_timeout_ms,
                rebalance_timeout_ms,
                member_id,
                protocol_type,
                protocols,
            ),
        ),
    ensures
        request::parse_join_group(s, pos) == codec::parsed(
            BodyModel::JoinGroup { group_id, member_id, subscriptions },
            pos + join_group_body(
                group_id,
                session_timeout_ms,
                rebalance_timeout_ms,
                member_id,
                protocol_type,
                protocols,
            ).len(),
        ),
{
    let nothing = Seq::<u8>::empty();
    let f0 = places::string(group_id);
    let f1 = codec::i32_bytes(session_timeout_ms);
    let f2 = codec::i32_bytes(rebalance_timeout_ms);
    let f3 = places::string(member_id);
    let f4 = places::string(protocol_type);
    let f5 = places::counted(protocols, named_bytes());
    assert(join_group_body(
        group_id,
        session_timeout_ms,
        rebalance_timeout_ms,
        member_id,
        protocol_type,
        protocols,
    ) =~= f0 + (f1 + (f2 + (f3 + (f4 + (f5 + nothing))))));
    let p0 = pos;
    places::lemma_string(s, p0, group_id, f1 + (f2 + (f3 + (f4 + (f5 + nothing)))));
    let p1 = p0 + 2 + group_id.len();
    places::lemma_i32(s, p1, session_timeout_ms, f2 + (f3 + (f4 + (f5 + nothing))));
    let p2 = p1 + 4;
    places::lemma_i32(s, p2, rebalance_timeout_ms, f3 + (f4 + (f5 + nothing)));
    let p3 = p2 + 4;
    places::lemma_string(s, p3, member_id, f4 + (f5 + nothing));
    let p4 = p3 + 2 + member_id.len();
    places::lemma_string(s, p4, protocol_type, f5 + nothing);
    let p5 = p4 + 2 + protocol_type.len();
    lemma_protocols(s, p5, protocols, subscription_version, subscriptions, user_data, nothing);
    codec::lemma_be_len(((group_id.len() as i16) as u16) as nat, 2);
    codec::lemma_be_len((session_timeout_ms as u32) as nat, 4);
    codec::lemma_be_len((rebalance_timeout_ms as u32) as nat, 4);
    codec::lemma_be_len(((member_id.len() as i16) as u16) as nat, 2);
    codec::lemma_be_len(((protocol_type.len() as i16) as u16) as nat, 2);
}

/// A frame with this body is decoded into just these fields.
pub proof fn law_join_group_frame(
    header: HeaderModel,
    group_id: Seq<u8>,
    session_timeout_ms: i32,
    rebalance_timeout_ms: i32,
    member_id: Seq<u8>,
    protocol_type: Seq<u8>,
    protocols: Seq<(Seq<u8>, Seq<u8>)>,
    subscription_version: i16,
    subscriptions: Seq<Seq<u8>>,
    user_data: Option<Seq<u8>>,
)
    requires
        sendable(
            header,
            api::JOIN_GROUP,
            version::JOIN_GROUP,
            join_group_body(
                group_id,
                session_timeout_ms,
                rebalance_timeout_ms,
                member_id,
                protocol_type,
                protocols,
            ),
        ),
        group_id.len() <= MAX_STRING_LEN,
        session_timeout_ms >= 0,
        rebalance_timeout_ms >= 0,
        member_id.len() <= MAX_STRING_LEN,
        protocol_type.len() <= MAX_STRING_LEN,
        protocols_fit(protocols),
        strings_fit(subscriptions),
        protocols[0].1 == subscription(subscription_version, subscriptions, user_data),
    ensures
        says(
            header,
            join_group_body(
                group_id,
                session_timeout_ms,
                rebalance_timeout_ms,
                member_id,
                protocol_type,
                protocols,
            ),
            (BodyModel::JoinGroup { group_id, member_id, subscriptions }),
        ),
{
    let body = join_group_body(
        group_id,
        session_timeout_ms,
        rebalance_timeout_ms,
        member_id,
        protocol_type,
        protocols,
    );
    lemma_start(header, body);
    lemma_advertised(header.api_key);
    lemma_join_group(
        payload(header, body),
        start(header),
        group_id,
        session_timeout_ms,
        rebalance_timeout_ms,
        member_id,
        protocol_type,
        protocols,
        subscription_version,
        subscriptions,
        user_data,
    );
    lemma_says(header, body, (BodyModel::JoinGroup { group_id, member_id, subscriptions }));
}

// ---------------------------------------------------------------------------
// Refusals
// ---------------------------------------------------------------------------

/// Whether a frame is refused with this error.
pub open spec fn refused(header: HeaderModel, body: Seq<u8>, error: Error) -> bool {
    request::decoded_request(frame(header, body)) == Err::<RequestModel, Error>(error)
}

/// The version in which the requests of an API are decoded, if they are.
pub open spec fn version_of(api_key: i16) -> Option<i16> {
    if api_key == api::PRODUCE {
        Some(version::PRODUCE)
    } else if api_key == api::FETCH {
        Some(version::FETCH)
    } else if api_key == api::LIST_OFFSETS {
        Some(version::LIST_OFFSETS)
    } else if api_key == api::METADATA {
        Some(version::METADATA)
    } else if api_key == api::OFFSET_COMMIT {
        Some(version::OFFSET_COMMIT)
    } else if api_key == api::OFFSET_FETCH {
        Some(version::OFFSET_FETCH)
    } else if api_key == api::FIND_COORDINATOR {
        Some(version::FIND_COORDINATOR)
    } else if api_key == api::JOIN_GROUP {
        Some(version::JOIN_GROUP)
    } else if api_key == api::HEARTBEAT {
        Some(version::HEARTBEAT)
    } else if api_key == api::LEAVE_GROUP {
        Some(version::LEAVE_GROUP)
    } else if api_key == api::SYNC_GROUP {
        Some(version::SYNC_GROUP)
    } else if api_key == api::API_VERSIONS {
        Some(version::API_VERSIONS)
    } else if api_key == api::INIT_PRODUCER_ID {
        Some(version::INIT_PRODUCER_ID)
    } else if api_key == api::ADD_PARTITIONS_TO_TXN {
        Some(version::ADD_PARTITIONS_TO_TXN)
    } else if api_key == api::END_TXN {
        Some(version::END_TXN)
    } else {
        None
    }
}

proof fn lemma_payload(header: HeaderModel, body: Seq<u8>)
    requires
        sendable(header, header.api_key, header.api_version, body),
    ensures
        request::decoded_request(frame(header, body)) == request::parse_request(
            payload(header, body),
        ).result,
{
    let s = payload(header, body);
    let whole = frame(header, body);
    codec::lemma_be_len(((s.len() as i32) as u32) as nat, 4);
    codec::law_integers_round_trip(0, 0, s.len() as i32, 0, 0);
    assert(whole.subrange(0, 4) =~= codec::i32_bytes(s.len() as i32));
    assert(whole.skip(4) =~= s);
}

proof fn lemma_refused(header: HeaderModel, body: Seq<u8>, error: Error)
    requires
        sendable(header, header.api_key, header.api_version, body),
        protocol::advertised(header.api_key),
        request::parse_body(
            payload(header, body),
            start(header),
            header.api_key,
            header.api_version,
        ).result == Err::<BodyModel, Error>(error),
    ensures
        refused(header, body, error),
{
    lemma_start(header, body);
    lemma_payload(header, body);
}

proof fn lemma_only_these_are_advertised(api_key: i16)
    requires
        version_of(api_key) is None,
    ensures
        !protocol::advertised(api_key),
{
    let first = protocol::SUPPORTED_VERSIONS@;
    let rest = protocol::COORDINATION_VERSIONS@;
    assert(first[0].0 == api::PRODUCE);
    assert(first[1].0 == api::FETCH);
    assert(first[2].0 == api::LIST_OFFSETS);
    assert(first[3].0 == api::METADATA);
    assert(first[4].0 == api::API_VERSIONS);
    assert(rest[0].0 == api::FIND_COORDINATOR);
    assert(rest[1].0 == api::INIT_PRODUCER_ID);
    assert(rest[2].0 == api::ADD_PARTITIONS_TO_TXN);
    assert(rest[3].0 == api::END_TXN);
    assert(rest[4].0 == api::JOIN_GROUP);
    assert(rest[5].0 == api::SYNC_GROUP);
    assert(rest[6].0 == api::HEARTBEAT);
    assert(rest[7].0 == api::LEAVE_GROUP);
    assert(rest[8].0 == api::OFFSET_COMMIT);
    assert(rest[9].0 == api::OFFSET_FETCH);
    assert forall|i: int| 0 <= i < 5 implies (#[trigger] first[i]).0 != api_key by {}
    assert forall|i: int| 0 <= i < 10 implies (#[trigger] rest[i]).0 != api_key by {}
}

#[verifier::spinoff_prover]
#[verifier::rlimit(60)]
proof fn lemma_other_version(s: Seq<u8>, pos: nat, api_key: i16, api_version: i16)
    requires
        version_of(api_key) matches Some(known) ==> known != api_version,
    ensures
        request::parse_body(s, pos, api_key, api_version).result == Err::<BodyModel, Error>(
            Error::UnsupportedVersion,
        ),
{
}

/// A request of an API that is not known is refused as such, and one in another
/// version than the known one for its version, whatever its body holds.
pub proof fn law_other_apis_and_versions_are_refused(header: HeaderModel, body: Seq<u8>)
    requires
        sendable(header, header.api_key, header.api_version, body),
        version_of(header.api_key) != Some(header.api_version),
    ensures
        refused(
            header,
            body,
            if version_of(header.api_key) is None {
                Error::UnsupportedApi
            } else {
                Error::UnsupportedVersion
            },
        ),
{
    lemma_start(header, body);
    lemma_payload(header, body);
    if version_of(header.api_key) is None {
        lemma_only_these_are_advertised(header.api_key);
    } else {
        lemma_advertised(header.api_key);
        lemma_other_version(
            payload(header, body),
            start(header),
            header.api_key,
            header.api_version,
        );
    }
}

/// The flag of an EndTxn request is zero or one: any other is invalid.
pub proof fn law_end_txn_flag_is_checked(
    header: HeaderModel,
    transactional_id: Seq<u8>,
    producer_id: i64,
    producer_epoch: i16,
    flag: i8,
)
    requires
        sendable(
            header,
            api::END_TXN,
            version::END_TXN,
            end_txn_body(transactional_id, producer_id, producer_epoch, flag),
        ),
        transactional_id.len() <= MAX_STRING_LEN,
        flag != 0 && flag != 1,
    ensures
        refused(
            header,
            end_txn_body(transactional_id, producer_id, producer_epoch, flag),
            Error::Invalid,
        ),
{
    let body = end_txn_body(transactional_id, producer_id, producer_epoch, flag);
    let s = payload(header, body);
    let p0 = start(header);
    let f1 = codec::i64_bytes(producer_id);
    let f2 = codec::i16_bytes(producer_epoch);
    let f3 = codec::i8_bytes(flag);
    let nothing = Seq::<u8>::empty();
    lemma_start(header, body);
    lemma_advertised(header.api_key);
    assert(body =~= places::string(transactional_id) + (f1 + (f2 + (f3 + nothing))));
    places::lemma_string(s, p0, transactional_id, f1 + (f2 + (f3 + nothing)));
    let p1 = p0 + 2 + transactional_id.len();
    places::lemma_i64(s, p1, producer_id, f2 + (f3 + nothing));
    places::lemma_i16(s, p1 + 8, producer_epoch, f3 + nothing);
    places::lemma_i8(s, p1 + 10, flag, nothing);
    lemma_refused(header, body, Error::Invalid);
}

/// A FindCoordinator request names a key, and its type is zero or one.
pub proof fn law_find_coordinator_key_is_checked(header: HeaderModel, key: Seq<u8>, key_type: i8)
    requires
        sendable(
            header,
            api::FIND_COORDINATOR,
            version::FIND_COORDINATOR,
            find_coordinator_body(key, key_type),
        ),
        key.len() <= MAX_STRING_LEN,
        key.len() == 0 || key_type != 0 && key_type != 1,
    ensures
        refused(header, find_coordinator_body(key, key_type), Error::Invalid),
{
    let body = find_coordinator_body(key, key_type);
    let s = payload(header, body);
    let p0 = start(header);
    let f1 = codec::i8_bytes(key_type);
    let nothing = Seq::<u8>::empty();
    lemma_start(header, body);
    lemma_advertised(header.api_key);
    assert(body =~= places::string(key) + (f1 + nothing));
    places::lemma_string(s, p0, key, f1 + nothing);
    places::lemma_i8(s, p0 + 2 + key.len(), key_type, nothing);
    lemma_refused(header, body, Error::Invalid);
}

/// The wait and the bounds of a Fetch request are not negative, and its
/// isolation is zero or one.
pub proof fn law_fetch_fields_are_checked(
    header: HeaderModel,
    replica_id: i32,
    max_wait_ms: i32,
    min_bytes: i32,
    max_bytes: i32,
    isolation: i8,
    topics: Seq<FetchTopicModel>,
)
    requires
        sendable(
            header,
            api::FETCH,
            version::FETCH,
            fetch_body(replica_id, max_wait_ms, min_bytes, max_bytes, isolation, topics),
        ),
        max_wait_ms < 0 || min_bytes < 0 || max_bytes < 0 || isolation != 0 && isolation != 1,
    ensures
        refused(
            header,
            fetch_body(replica_id, max_wait_ms, min_bytes, max_bytes, isolation, topics),
            Error::Invalid,
        ),
{
    let body = fetch_body(replica_id, max_wait_ms, min_bytes, max_bytes, isolation, topics);
    let s = payload(header, body);
    let p0 = start(header);
    let f1 = codec::i32_bytes(max_wait_ms);
    let f2 = codec::i32_bytes(min_bytes);
    let f3 = codec::i32_bytes(max_bytes);
    let f4 = codec::i8_bytes(isolation);
    let f5 = places::counted(topics, fetch_topic_bytes());
    lemma_start(header, body);
    lemma_advertised(header.api_key);
    assert(body =~= codec::i32_bytes(replica_id) + (f1 + (f2 + (f3 + (f4 + f5)))));
    places::lemma_i32(s, p0, replica_id, f1 + (f2 + (f3 + (f4 + f5))));
    places::lemma_i32(s, p0 + 4, max_wait_ms, f2 + (f3 + (f4 + f5)));
    places::lemma_i32(s, p0 + 8, min_bytes, f3 + (f4 + f5));
    places::lemma_i32(s, p0 + 12, max_bytes, f4 + f5);
    places::lemma_i8(s, p0 + 16, isolation, f5);
    lemma_refused(header, body, Error::Invalid);
}

/// An OffsetFetch request names one topic: any other number is invalid.
pub proof fn law_offset_fetch_is_for_one_topic(
    header: HeaderModel,
    group_id: Seq<u8>,
    count: i32,
    rest: Seq<u8>,
)
    requires
        sendable(
            header,
            api::OFFSET_FETCH,
            version::OFFSET_FETCH,
            places::string(group_id) + codec::i32_bytes(count) + rest,
        ),
        group_id.len() <= MAX_STRING_LEN,
        count <= MAX_ARRAY_LEN,
        count != 1,
    ensures
        refused(
            header,
            places::string(group_id) + codec::i32_bytes(count) + rest,
            Error::Invalid,
        ),
{
    let body = places::string(group_id) + codec::i32_bytes(count) + rest;
    let s = payload(header, body);
    let p0 = start(header);
    lemma_start(header, body);
    lemma_advertised(header.api_key);
    assert(body =~= places::string(group_id) + (codec::i32_bytes(count) + rest));
    places::lemma_string(s, p0, group_id, codec::i32_bytes(count) + rest);
    places::lemma_i32(s, p0 + 2 + group_id.len(), count, rest);
    lemma_refused(header, body, Error::Invalid);
}

} // verus!
