//! Request decoding for the supported Kafka subset.

use vstd::prelude::*;

use crate::broker_core::log::{DataModel, RecordData};
use crate::broker_wire::codec::{self, read_u16, read_u32, Decoder, Parsed};
use crate::broker_wire::protocol::{self, api, is_supported_api, version, Error, MAX_FRAME_LEN};
use crate::broker_wire::record_batch::{self, decode_record_batches_with_identity, RecordSet};
use crate::bytes::copy_bytes;

verus! {

broadcast use crate::bytes::lemma_bytes_deep_view, crate::bytes::lemma_slice_deep_view;

// ---------------------------------------------------------------------------
// Typed requests
// ---------------------------------------------------------------------------

/// Kafka request header version 1 (non-flexible).
#[derive(Clone, Debug, Eq, PartialEq)]
pub struct Header {
    /// API key.
    pub api_key: i16,
    /// API version.
    pub api_version: i16,
    /// Client correlation id echoed in the response.
    pub correlation_id: i32,
    /// Optional client id.
    pub client_id: Option<Vec<u8>>,
}

/// What a request header says.
#[verifier::ext_equal]
pub struct HeaderModel {
    pub api_key: i16,
    pub api_version: i16,
    pub correlation_id: i32,
    pub client_id: Option<Seq<u8>>,
}

impl DeepView for Header {
    type V = HeaderModel;

    open spec fn deep_view(&self) -> HeaderModel {
        HeaderModel {
            api_key: self.api_key,
            api_version: self.api_version,
            correlation_id: self.correlation_id,
            client_id: self.client_id.deep_view(),
        }
    }
}

/// One partition entry of a produce request.
#[derive(Clone, Debug, Eq, PartialEq)]
pub struct ProducePartition {
    /// Partition index.
    pub partition: i32,
    /// Decoded records to append.
    pub records: Vec<RecordData>,
    /// How many of the records each batch holds, in order. Each batch is
    /// appended as one unit; records behind the last are one more batch.
    pub batch_lens: Vec<usize>,
    /// Producer ID/epoch from a transactional record batch, if present.
    pub producer: Option<(i64, i16)>,
}

/// What a partition entry of a produce request says.
#[verifier::ext_equal]
pub struct ProducePartitionModel {
    pub partition: i32,
    pub records: Seq<DataModel>,
    pub batches: Seq<Seq<DataModel>>,
    pub producer: Option<(i64, i16)>,
}

impl ProducePartitionModel {
    /// What is appended, one after the other: each batch or, where there are no
    /// records at all, nothing once.
    pub open spec fn units(self) -> Seq<Seq<DataModel>> {
        if self.batches.len() == 0 {
            seq![seq![]]
        } else {
            self.batches
        }
    }
}

impl DeepView for ProducePartition {
    type V = ProducePartitionModel;

    open spec fn deep_view(&self) -> ProducePartitionModel {
        ProducePartitionModel {
            partition: self.partition,
            records: self.records.deep_view(),
            batches: record_batch::split(self.records.deep_view(), self.batch_lens@),
            producer: self.producer,
        }
    }
}

/// One topic entry of a produce request.
#[derive(Clone, Debug, Eq, PartialEq)]
pub struct ProduceTopic {
    /// Topic name.
    pub name: Vec<u8>,
    /// Partitions carried by this request.
    pub partitions: Vec<ProducePartition>,
}

/// What a topic entry of a produce request says.
#[verifier::ext_equal]
pub struct ProduceTopicModel {
    pub name: Seq<u8>,
    pub partitions: Seq<ProducePartitionModel>,
}

impl DeepView for ProduceTopic {
    type V = ProduceTopicModel;

    open spec fn deep_view(&self) -> ProduceTopicModel {
        ProduceTopicModel { name: self.name@, partitions: self.partitions.deep_view() }
    }
}

/// One partition entry of a fetch request.
#[derive(Clone, Copy, Debug, Eq, PartialEq)]
pub struct FetchPartition {
    /// Partition index.
    pub partition: i32,
    /// Next offset the client wants to read.
    pub fetch_offset: i64,
    /// Per-partition byte cap.
    pub partition_max_bytes: i32,
}

impl DeepView for FetchPartition {
    type V = FetchPartition;

    open spec fn deep_view(&self) -> FetchPartition {
        *self
    }
}

/// One topic entry of a fetch request.
#[derive(Clone, Debug, Eq, PartialEq)]
pub struct FetchTopic {
    /// Topic name.
    pub name: Vec<u8>,
    /// Partitions carried by this request.
    pub partitions: Vec<FetchPartition>,
}

/// What a topic entry of a fetch request says.
#[verifier::ext_equal]
pub struct FetchTopicModel {
    pub name: Seq<u8>,
    pub partitions: Seq<FetchPartition>,
}

impl DeepView for FetchTopic {
    type V = FetchTopicModel;

    open spec fn deep_view(&self) -> FetchTopicModel {
        FetchTopicModel { name: self.name@, partitions: self.partitions.deep_view() }
    }
}

/// One partition entry of a list-offsets request.
#[derive(Clone, Copy, Debug, Eq, PartialEq)]
pub struct ListOffsetsPartition {
    /// Partition index.
    pub partition: i32,
    /// `-2` for earliest, `-1` for latest.
    pub timestamp: i64,
}

impl DeepView for ListOffsetsPartition {
    type V = ListOffsetsPartition;

    open spec fn deep_view(&self) -> ListOffsetsPartition {
        *self
    }
}

/// One topic entry of a list-offsets request.
#[derive(Clone, Debug, Eq, PartialEq)]
pub struct ListOffsetsTopic {
    /// Topic name.
    pub name: Vec<u8>,
    /// Partitions carried by this request.
    pub partitions: Vec<ListOffsetsPartition>,
}

/// What a topic entry of a list-offsets request says.
#[verifier::ext_equal]
pub struct ListOffsetsTopicModel {
    pub name: Seq<u8>,
    pub partitions: Seq<ListOffsetsPartition>,
}

impl DeepView for ListOffsetsTopic {
    type V = ListOffsetsTopicModel;

    open spec fn deep_view(&self) -> ListOffsetsTopicModel {
        ListOffsetsTopicModel { name: self.name@, partitions: self.partitions.deep_view() }
    }
}

/// The body of a decoded request.
#[derive(Clone, Debug, Eq, PartialEq)]
pub enum RequestBody {
    /// ApiVersions has no body.
    ApiVersions,
    /// Finds the coordinator for a group or transactional id.
    FindCoordinator { key: Vec<u8>, key_type: i8 },
    /// Allocates a producer identity for a transactional id.
    InitProducerId { transactional_id: Option<Vec<u8>>, timeout_ms: i32 },
    /// Enlists partitions in a transaction.
    AddPartitionsToTxn {
        transactional_id: Vec<u8>,
        producer_id: i64,
        producer_epoch: i16,
        topics: Vec<(Vec<u8>, Vec<i32>)>,
    },
    /// Commits or aborts a transaction.
    EndTxn { transactional_id: Vec<u8>, producer_id: i64, producer_epoch: i16, commit: bool },
    /// Joins a consumer group.
    JoinGroup { group_id: Vec<u8>, member_id: Vec<u8>, subscriptions: Vec<Vec<u8>> },
    /// Asks for the assignment of a group member.
    SyncGroup { group_id: Vec<u8>, generation: i32, member_id: Vec<u8>, assignment: Vec<u8> },
    /// Keeps a group member alive.
    Heartbeat { group_id: Vec<u8>, generation: i32, member_id: Vec<u8> },
    /// Leaves a consumer group.
    LeaveGroup { group_id: Vec<u8>, member_id: Vec<u8> },
    /// Commits one offset of a consumer group.
    OffsetCommit {
        group_id: Vec<u8>,
        generation: i32,
        member_id: Vec<u8>,
        topic: Vec<u8>,
        partition: i32,
        offset: i64,
    },
    /// Reads one offset of a consumer group.
    OffsetFetch { group_id: Vec<u8>, topic: Vec<u8>, partition: i32 },
    /// Metadata for the listed topics, or every topic when `None`.
    Metadata {
        /// Requested topic names.
        topics: Option<Vec<Vec<u8>>>,
    },
    /// Produce records.
    Produce {
        /// Transactional id.
        transactional_id: Option<Vec<u8>>,
        /// Requested acknowledgement mode echoed by the client.
        acks: i16,
        /// Client timeout hint.
        timeout_ms: i32,
        /// Topics carried by this request.
        topics: Vec<ProduceTopic>,
    },
    /// Fetch records.
    Fetch {
        /// Replica id; `-1` for consumers.
        replica_id: i32,
        /// Maximum time the broker may wait before answering.
        max_wait_ms: i32,
        /// Minimum bytes before answering early.
        min_bytes: i32,
        /// Overall byte cap.
        max_bytes: i32,
        /// Whether the client asked for read-committed isolation.
        read_committed: bool,
        /// Topics carried by this request.
        topics: Vec<FetchTopic>,
    },
    /// List partition offsets.
    ListOffsets {
        /// Replica id; `-1` for consumers.
        replica_id: i32,
        /// Topics carried by this request.
        topics: Vec<ListOffsetsTopic>,
    },
}

/// What a request body says.
#[verifier::ext_equal]
pub enum BodyModel {
    ApiVersions,
    FindCoordinator { key: Seq<u8>, key_type: i8 },
    InitProducerId { transactional_id: Option<Seq<u8>>, timeout_ms: i32 },
    AddPartitionsToTxn {
        transactional_id: Seq<u8>,
        producer_id: i64,
        producer_epoch: i16,
        topics: Seq<(Seq<u8>, Seq<i32>)>,
    },
    EndTxn { transactional_id: Seq<u8>, producer_id: i64, producer_epoch: i16, commit: bool },
    JoinGroup { group_id: Seq<u8>, member_id: Seq<u8>, subscriptions: Seq<Seq<u8>> },
    SyncGroup { group_id: Seq<u8>, generation: i32, member_id: Seq<u8>, assignment: Seq<u8> },
    Heartbeat { group_id: Seq<u8>, generation: i32, member_id: Seq<u8> },
    LeaveGroup { group_id: Seq<u8>, member_id: Seq<u8> },
    OffsetCommit {
        group_id: Seq<u8>,
        generation: i32,
        member_id: Seq<u8>,
        topic: Seq<u8>,
        partition: i32,
        offset: i64,
    },
    OffsetFetch { group_id: Seq<u8>, topic: Seq<u8>, partition: i32 },
    Metadata { topics: Option<Seq<Seq<u8>>> },
    Produce {
        transactional_id: Option<Seq<u8>>,
        acks: i16,
        timeout_ms: i32,
        topics: Seq<ProduceTopicModel>,
    },
    Fetch {
        replica_id: i32,
        max_wait_ms: i32,
        min_bytes: i32,
        max_bytes: i32,
        read_committed: bool,
        topics: Seq<FetchTopicModel>,
    },
    ListOffsets { replica_id: i32, topics: Seq<ListOffsetsTopicModel> },
}

impl DeepView for RequestBody {
    type V = BodyModel;

    open spec fn deep_view(&self) -> BodyModel {
        match *self {
            RequestBody::ApiVersions => BodyModel::ApiVersions,
            RequestBody::FindCoordinator { key, key_type } => BodyModel::FindCoordinator {
                key: key@,
                key_type,
            },
            RequestBody::InitProducerId {
                transactional_id,
                timeout_ms,
            } => BodyModel::InitProducerId {
                transactional_id: transactional_id.deep_view(),
                timeout_ms,
            },
            RequestBody::AddPartitionsToTxn {
                transactional_id,
                producer_id,
                producer_epoch,
                topics,
            } => BodyModel::AddPartitionsToTxn {
                transactional_id: transactional_id@,
                producer_id,
                producer_epoch,
                topics: topics.deep_view(),
            },
            RequestBody::EndTxn {
                transactional_id,
                producer_id,
                producer_epoch,
                commit,
            } => BodyModel::EndTxn {
                transactional_id: transactional_id@,
                producer_id,
                producer_epoch,
                commit,
            },
            RequestBody::JoinGroup { group_id, member_id, subscriptions } => BodyModel::JoinGroup {
                group_id: group_id@,
                member_id: member_id@,
                subscriptions: subscriptions.deep_view(),
            },
            RequestBody::SyncGroup {
                group_id,
                generation,
                member_id,
                assignment,
            } => BodyModel::SyncGroup {
                group_id: group_id@,
                generation,
                member_id: member_id@,
                assignment: assignment@,
            },
            RequestBody::Heartbeat { group_id, generation, member_id } => BodyModel::Heartbeat {
                group_id: group_id@,
                generation,
                member_id: member_id@,
            },
            RequestBody::LeaveGroup { group_id, member_id } => BodyModel::LeaveGroup {
                group_id: group_id@,
                member_id: member_id@,
            },
            RequestBody::OffsetCommit {
                group_id,
                generation,
                member_id,
                topic,
                partition,
                offset,
            } => BodyModel::OffsetCommit {
                group_id: group_id@,
                generation,
                member_id: member_id@,
                topic: topic@,
                partition,
                offset,
            },
            RequestBody::OffsetFetch { group_id, topic, partition } => BodyModel::OffsetFetch {
                group_id: group_id@,
                topic: topic@,
                partition,
            },
            RequestBody::Metadata { topics } => BodyModel::Metadata { topics: topics.deep_view() },
            RequestBody::Produce {
                transactional_id,
                acks,
                timeout_ms,
                topics,
            } => BodyModel::Produce {
                transactional_id: transactional_id.deep_view(),
                acks,
                timeout_ms,
                topics: topics.deep_view(),
            },
            RequestBody::Fetch {
                replica_id,
                max_wait_ms,
                min_bytes,
                max_bytes,
                read_committed,
                topics,
            } => BodyModel::Fetch {
                replica_id,
                max_wait_ms,
                min_bytes,
                max_bytes,
                read_committed,
                topics: topics.deep_view(),
            },
            RequestBody::ListOffsets { replica_id, topics } => BodyModel::ListOffsets {
                replica_id,
                topics: topics.deep_view(),
            },
        }
    }
}

/// A decoded request frame.
#[derive(Clone, Debug, Eq, PartialEq)]
pub struct Request {
    /// Wire header.
    pub header: Header,
    /// Typed body.
    pub body: RequestBody,
}

/// What a request says.
#[verifier::ext_equal]
pub struct RequestModel {
    pub header: HeaderModel,
    pub body: BodyModel,
}

impl DeepView for Request {
    type V = RequestModel;

    open spec fn deep_view(&self) -> RequestModel {
        RequestModel { header: self.header.deep_view(), body: self.body.deep_view() }
    }
}

// ---------------------------------------------------------------------------
// Lists of fields
// ---------------------------------------------------------------------------

/// What a decoded value stands for.
pub open spec fn value_result<T: DeepView>(r: Result<T, Error>) -> Result<<T as DeepView>::V, Error> {
    match r {
        Ok(value) => Ok(value.deep_view()),
        Err(error) => Err(error),
    }
}

/// A field that can be read again and again.
pub trait Item {
    /// What is read.
    type Out: DeepView;

    /// What the bytes at `pos` say.
    spec fn parse(s: Seq<u8>, pos: nat) -> Parsed<<Self::Out as DeepView>::V>;

    /// Reads one field.
    fn read(decoder: &mut Decoder<'_>) -> (r: Result<Self::Out, Error>)
        requires
            old(decoder).wf(),
        ensures
            final(decoder).moved(*old(decoder), Self::parse(old(decoder).input(), old(decoder).pos()).end),
            value_result(r) == Self::parse(old(decoder).input(), old(decoder).pos()).result,
    ;

    /// A field that can be read is read in the same way when more bytes
    /// follow.
    proof fn grows(s: Seq<u8>, t: Seq<u8>, pos: nat)
        requires
            codec::extends(s, t),
            Self::parse(s, pos).result is Ok,
        ensures
            Self::parse(t, pos) == Self::parse(s, pos),
    ;
}

/// The reader of one item, for lists.
pub open spec fn item_of<I: Item>() -> spec_fn(Seq<u8>, nat) -> Parsed<<I::Out as DeepView>::V> {
    |s: Seq<u8>, pos: nat| I::parse(s, pos)
}

/// A counted list.
pub open spec fn parse_array<I: Item>(s: Seq<u8>, pos: nat) -> Parsed<Seq<<I::Out as DeepView>::V>> {
    codec::parse_array_len(s, pos).and_then(
        |count: usize, end: nat| codec::parse_many(s, end, count as nat, item_of::<I>()),
    )
}

pub broadcast proof fn lemma_array_grows<I: Item>(s: Seq<u8>, t: Seq<u8>, pos: nat)
    requires
        #[trigger] codec::extends(s, t),
        parse_array::<I>(s, pos).result is Ok,
    ensures
        #[trigger] parse_array::<I>(t, pos) == parse_array::<I>(s, pos),
{
    broadcast use codec::group_grows;

    let count = codec::parse_array_len(s, pos);
    lemma_items_grow::<I>(s, t, count.end, count.result->Ok_0 as nat);
}

pub(crate) proof fn lemma_items_grow<I: Item>(s: Seq<u8>, t: Seq<u8>, pos: nat, count: nat)
    requires
        codec::extends(s, t),
        codec::parse_many(s, pos, count, item_of::<I>()).result is Ok,
    ensures
        codec::parse_many(t, pos, count, item_of::<I>()) == codec::parse_many(
            s,
            pos,
            count,
            item_of::<I>(),
        ),
{
    let item = item_of::<I>();
    assert forall|p: nat| (#[trigger] item(s, p)).result is Ok implies item(t, p) == item(s, p) by {
        I::grows(s, t, p);
    }
    codec::lemma_many_grows(s, t, pos, count, item);
}

/// Reads `count` items.
fn read_many<I: Item>(decoder: &mut Decoder<'_>, count: usize) -> (r: Result<Vec<I::Out>, Error>)
    requires
        old(decoder).wf(),
    ensures
        final(decoder).moved(
            *old(decoder),
            codec::parse_many(
                old(decoder).input(),
                old(decoder).pos(),
                count as nat,
                item_of::<I>(),
            ).end,
        ),
        value_result(r) == codec::parse_many(
            old(decoder).input(),
            old(decoder).pos(),
            count as nat,
            item_of::<I>(),
        ).result,
{
    let ghost input = decoder.input();
    let ghost start = decoder.pos();
    let ghost item = item_of::<I>();
    let mut items: Vec<I::Out> = Vec::new();
    let mut i: usize = 0;
    proof {
        assert(items.deep_view() =~= seq![]);
    }
    while i < count
        invariant
            decoder.wf(),
            decoder.input() == input,
            input == old(decoder).input(),
            start == old(decoder).pos(),
            item == item_of::<I>(),
            i <= count,
            codec::parse_many(input, start, i as nat, item) == codec::parsed(
                items.deep_view(),
                decoder.pos(),
            ),
        decreases count - i,
    {
        let ghost before = items.deep_view();
        proof {
            codec::lemma_many_step(input, start, i as nat, item, before, decoder.pos());
        }
        match I::read(decoder) {
            Ok(value) => {
                let ghost model = value.deep_view();
                items.push(value);
                proof {
                    assert(items.deep_view() =~= before.push(model));
                }
            },
            Err(error) => {
                proof {
                    codec::lemma_many_error(input, start, (i + 1) as nat, count as nat, item);
                }
                return Err(error);
            },
        }
        i += 1;
    }
    Ok(items)
}

/// Reads a counted list.
fn read_array<I: Item>(decoder: &mut Decoder<'_>) -> (r: Result<Vec<I::Out>, Error>)
    requires
        old(decoder).wf(),
    ensures
        final(decoder).moved(
            *old(decoder),
            parse_array::<I>(old(decoder).input(), old(decoder).pos()).end,
        ),
        value_result(r) == parse_array::<I>(old(decoder).input(), old(decoder).pos()).result,
{
    let count: usize = decoder.array_len()?;
    read_many::<I>(decoder, count)
}

/// Bytes that must be present.
pub open spec fn parse_required_bytes(s: Seq<u8>, pos: nat) -> Parsed<Seq<u8>> {
    codec::parse_bytes(s, pos).and_then(
        |bytes: Option<Seq<u8>>, end: nat|
            match bytes {
                Some(bytes) => codec::parsed(bytes, end),
                None => codec::failed(Error::Invalid, end),
            },
    )
}

/// A string that must not be empty.
pub open spec fn parse_name(s: Seq<u8>, pos: nat) -> Parsed<Seq<u8>> {
    codec::parse_string(s, pos).and_then(
        |name: Seq<u8>, end: nat|
            if name.len() == 0 {
                codec::failed(Error::Invalid, end)
            } else {
                codec::parsed(name, end)
            },
    )
}

fn read_required_bytes<'a>(decoder: &mut Decoder<'a>) -> (r: Result<&'a [u8], Error>)
    requires
        old(decoder).wf(),
    ensures
        final(decoder).moved(
            *old(decoder),
            parse_required_bytes(old(decoder).input(), old(decoder).pos()).end,
        ),
        codec::slice_result(r) == parse_required_bytes(
            old(decoder).input(),
            old(decoder).pos(),
        ).result,
{
    match decoder.bytes()? {
        Some(bytes) => Ok(bytes),
        None => Err(Error::Invalid),
    }
}

fn read_string(decoder: &mut Decoder<'_>) -> (r: Result<Vec<u8>, Error>)
    requires
        old(decoder).wf(),
    ensures
        final(decoder).moved(
            *old(decoder),
            codec::parse_string(old(decoder).input(), old(decoder).pos()).end,
        ),
        codec::bytes_result(r) == codec::parse_string(
            old(decoder).input(),
            old(decoder).pos(),
        ).result,
{
    let bytes = decoder.string_bytes()?;
    Ok(copy_bytes(bytes))
}

fn read_nullable_string(decoder: &mut Decoder<'_>) -> (r: Result<Option<Vec<u8>>, Error>)
    requires
        old(decoder).wf(),
    ensures
        final(decoder).moved(
            *old(decoder),
            codec::parse_nullable_string(old(decoder).input(), old(decoder).pos()).end,
        ),
        value_result(r) == codec::parse_nullable_string(
            old(decoder).input(),
            old(decoder).pos(),
        ).result,
{
    match decoder.nullable_string_bytes()? {
        Some(bytes) => Ok(Some(copy_bytes(bytes))),
        None => Ok(None),
    }
}

fn read_name(decoder: &mut Decoder<'_>) -> (r: Result<Vec<u8>, Error>)
    requires
        old(decoder).wf(),
    ensures
        final(decoder).moved(*old(decoder), parse_name(old(decoder).input(), old(decoder).pos()).end),
        codec::bytes_result(r) == parse_name(old(decoder).input(), old(decoder).pos()).result,
{
    let name = decoder.string_bytes()?;
    if name.len() == 0 {
        return Err(Error::Invalid);
    }
    Ok(copy_bytes(name))
}

/// A string.
pub struct StringItem;

impl Item for StringItem {
    type Out = Vec<u8>;

    open spec fn parse(s: Seq<u8>, pos: nat) -> Parsed<Seq<u8>> {
        codec::parse_string(s, pos)
    }

    fn read(decoder: &mut Decoder<'_>) -> (r: Result<Vec<u8>, Error>) {
        read_string(decoder)
    }

    proof fn grows(s: Seq<u8>, t: Seq<u8>, pos: nat) {
        broadcast use codec::group_grows;

    }
}

/// A string that must not be empty.
pub struct NameItem;

impl Item for NameItem {
    type Out = Vec<u8>;

    open spec fn parse(s: Seq<u8>, pos: nat) -> Parsed<Seq<u8>> {
        parse_name(s, pos)
    }

    fn read(decoder: &mut Decoder<'_>) -> (r: Result<Vec<u8>, Error>) {
        read_name(decoder)
    }

    proof fn grows(s: Seq<u8>, t: Seq<u8>, pos: nat) {
        broadcast use codec::group_grows;

    }
}

/// A name and the bytes that go with it, of which the bytes are kept.
pub struct NamedBytesItem;

impl Item for NamedBytesItem {
    type Out = Vec<u8>;

    open spec fn parse(s: Seq<u8>, pos: nat) -> Parsed<Seq<u8>> {
        codec::parse_string(s, pos).and_then(
            |_name: Seq<u8>, end: nat| parse_required_bytes(s, end),
        )
    }

    fn read(decoder: &mut Decoder<'_>) -> (r: Result<Vec<u8>, Error>) {
        let _name = decoder.string_bytes()?;
        let bytes = read_required_bytes(decoder)?;
        Ok(copy_bytes(bytes))
    }

    proof fn grows(s: Seq<u8>, t: Seq<u8>, pos: nat) {
        broadcast use codec::group_grows;

    }
}

/// A partition index that must not be negative.
pub struct IndexItem;

impl Item for IndexItem {
    type Out = i32;

    open spec fn parse(s: Seq<u8>, pos: nat) -> Parsed<i32> {
        codec::parse_i32(s, pos).and_then(
            |partition: i32, end: nat|
                if partition < 0 {
                    codec::failed(Error::Invalid, end)
                } else {
                    codec::parsed(partition, end)
                },
        )
    }

    fn read(decoder: &mut Decoder<'_>) -> (r: Result<i32, Error>) {
        let partition: i32 = decoder.i32()?;
        if partition < 0 {
            return Err(Error::Invalid);
        }
        Ok(partition)
    }

    proof fn grows(s: Seq<u8>, t: Seq<u8>, pos: nat) {
        broadcast use codec::group_grows;

    }
}

/// A topic and the partitions of it that join a transaction.
pub struct TxnTopicItem;

impl Item for TxnTopicItem {
    type Out = (Vec<u8>, Vec<i32>);

    open spec fn parse(s: Seq<u8>, pos: nat) -> Parsed<(Seq<u8>, Seq<i32>)> {
        codec::parse_string(s, pos).and_then(
            |topic: Seq<u8>, end: nat|
                parse_array::<IndexItem>(s, end).and_then(
                    |partitions: Seq<i32>, end: nat| codec::parsed((topic, partitions), end),
                ),
        )
    }

    fn read(decoder: &mut Decoder<'_>) -> (r: Result<(Vec<u8>, Vec<i32>), Error>) {
        let topic = read_string(decoder)?;
        let partitions = read_array::<IndexItem>(decoder)?;
        Ok((topic, partitions))
    }

    proof fn grows(s: Seq<u8>, t: Seq<u8>, pos: nat) {
        broadcast use codec::group_grows;
        broadcast use lemma_array_grows;

    }
}

/// A partition entry once its record set is decoded; a set without records is
/// invalid.
pub open spec fn produce_entry(partition: i32, set: Result<RecordSet, Error>, end: nat) -> Parsed<
    ProducePartitionModel,
> {
    match set {
        Err(error) => codec::failed(error, end),
        Ok(set) => if set.records.len() == 0 {
            codec::failed(Error::Invalid, end)
        } else {
            codec::parsed(
                ProducePartitionModel {
                    partition,
                    records: set.records,
                    batches: set.batches,
                    producer: set.producer,
                },
                end,
            )
        },
    }
}

/// A partition entry of a produce request.
pub struct ProducePartitionItem;

impl Item for ProducePartitionItem {
    type Out = ProducePartition;

    open spec fn parse(s: Seq<u8>, pos: nat) -> Parsed<ProducePartitionModel> {
        codec::parse_i32(s, pos).and_then(
            |partition: i32, end: nat|
                parse_required_bytes(s, end).and_then(
                    |set: Seq<u8>, end: nat|
                        produce_entry(partition, record_batch::decoded_set(set), end),
                ),
        )
    }

    fn read(decoder: &mut Decoder<'_>) -> (r: Result<ProducePartition, Error>) {
        let partition: i32 = decoder.i32()?;
        let record_set = read_required_bytes(decoder)?;
        let decoded = decode_record_batches_with_identity(record_set)?;
        proof {
            assert(decoded.records.deep_view().len() == decoded.records@.len());
        }
        if decoded.records.len() == 0 {
            return Err(Error::Invalid);
        }
        let ghost set = decoded.deep_view();
        let entry = ProducePartition {
            partition,
            records: decoded.records,
            batch_lens: decoded.batch_lens,
            producer: decoded.producer,
        };
        proof {
            assert(entry.deep_view() == (ProducePartitionModel {
                partition,
                records: set.records,
                batches: set.batches,
                producer: set.producer,
            }));
        }
        Ok(entry)
    }

    proof fn grows(s: Seq<u8>, t: Seq<u8>, pos: nat) {
        broadcast use codec::group_grows;

    }
}

/// A topic entry of a produce request.
pub struct ProduceTopicItem;

impl Item for ProduceTopicItem {
    type Out = ProduceTopic;

    open spec fn parse(s: Seq<u8>, pos: nat) -> Parsed<ProduceTopicModel> {
        parse_name(s, pos).and_then(
            |name: Seq<u8>, end: nat|
                parse_array::<ProducePartitionItem>(s, end).and_then(
                    |partitions: Seq<ProducePartitionModel>, end: nat|
                        codec::parsed(ProduceTopicModel { name, partitions }, end),
                ),
        )
    }

    fn read(decoder: &mut Decoder<'_>) -> (r: Result<ProduceTopic, Error>) {
        let name = read_name(decoder)?;
        let partitions = read_array::<ProducePartitionItem>(decoder)?;
        let entry = ProduceTopic { name, partitions };
        proof {
            assert(entry.deep_view() == (ProduceTopicModel {
                name: entry.name@,
                partitions: entry.partitions.deep_view(),
            }));
        }
        Ok(entry)
    }

    proof fn grows(s: Seq<u8>, t: Seq<u8>, pos: nat) {
        broadcast use codec::group_grows;
        broadcast use lemma_array_grows;

    }
}

/// A partition entry of a fetch request.
pub struct FetchPartitionItem;

impl Item for FetchPartitionItem {
    type Out = FetchPartition;

    open spec fn parse(s: Seq<u8>, pos: nat) -> Parsed<FetchPartition> {
        codec::parse_i32(s, pos).and_then(
            |partition: i32, end: nat|
                codec::parse_i64(s, end).and_then(
                    |fetch_offset: i64, end: nat|
                        codec::parse_i32(s, end).and_then(
                            |partition_max_bytes: i32, end: nat|
                                if partition_max_bytes < 0 {
                                    codec::failed(Error::Invalid, end)
                                } else {
                                    codec::parsed(
                                        FetchPartition { partition, fetch_offset, partition_max_bytes },
                                        end,
                                    )
                                },
                        ),
                ),
        )
    }

    fn read(decoder: &mut Decoder<'_>) -> (r: Result<FetchPartition, Error>) {
        let partition: i32 = decoder.i32()?;
        let fetch_offset: i64 = decoder.i64()?;
        let partition_max_bytes: i32 = decoder.i32()?;
        if partition_max_bytes < 0 {
            return Err(Error::Invalid);
        }
        let entry = FetchPartition { partition, fetch_offset, partition_max_bytes };
        proof {
            assert(entry.deep_view() == entry);
        }
        Ok(entry)
    }

    proof fn grows(s: Seq<u8>, t: Seq<u8>, pos: nat) {
        broadcast use codec::group_grows;

    }
}

/// A topic entry of a fetch request.
pub struct FetchTopicItem;

impl Item for FetchTopicItem {
    type Out = FetchTopic;

    open spec fn parse(s: Seq<u8>, pos: nat) -> Parsed<FetchTopicModel> {
        parse_name(s, pos).and_then(
            |name: Seq<u8>, end: nat|
                parse_array::<FetchPartitionItem>(s, end).and_then(
                    |partitions: Seq<FetchPartition>, end: nat|
                        codec::parsed(FetchTopicModel { name, partitions }, end),
                ),
        )
    }

    fn read(decoder: &mut Decoder<'_>) -> (r: Result<FetchTopic, Error>) {
        let name = read_name(decoder)?;
        let partitions = read_array::<FetchPartitionItem>(decoder)?;
        let entry = FetchTopic { name, partitions };
        proof {
            assert(entry.deep_view() == (FetchTopicModel {
                name: entry.name@,
                partitions: entry.partitions.deep_view(),
            }));
        }
        Ok(entry)
    }

    proof fn grows(s: Seq<u8>, t: Seq<u8>, pos: nat) {
        broadcast use codec::group_grows;
        broadcast use lemma_array_grows;

    }
}

/// A partition entry of a list-offsets request.
pub struct ListOffsetsPartitionItem;

impl Item for ListOffsetsPartitionItem {
    type Out = ListOffsetsPartition;

    open spec fn parse(s: Seq<u8>, pos: nat) -> Parsed<ListOffsetsPartition> {
        codec::parse_i32(s, pos).and_then(
            |partition: i32, end: nat|
                codec::parse_i64(s, end).and_then(
                    |timestamp: i64, end: nat|
                        codec::parsed(ListOffsetsPartition { partition, timestamp }, end),
                ),
        )
    }

    fn read(decoder: &mut Decoder<'_>) -> (r: Result<ListOffsetsPartition, Error>) {
        let partition: i32 = decoder.i32()?;
        let timestamp: i64 = decoder.i64()?;
        let entry = ListOffsetsPartition { partition, timestamp };
        proof {
            assert(entry.deep_view() == entry);
        }
        Ok(entry)
    }

    proof fn grows(s: Seq<u8>, t: Seq<u8>, pos: nat) {
        broadcast use codec::group_grows;

    }
}

/// A topic entry of a list-offsets request.
pub struct ListOffsetsTopicItem;

impl Item for ListOffsetsTopicItem {
    type Out = ListOffsetsTopic;

    open spec fn parse(s: Seq<u8>, pos: nat) -> Parsed<ListOffsetsTopicModel> {
        parse_name(s, pos).and_then(
            |name: Seq<u8>, end: nat|
                parse_array::<ListOffsetsPartitionItem>(s, end).and_then(
                    |partitions: Seq<ListOffsetsPartition>, end: nat|
                        codec::parsed(ListOffsetsTopicModel { name, partitions }, end),
                ),
        )
    }

    fn read(decoder: &mut Decoder<'_>) -> (r: Result<ListOffsetsTopic, Error>) {
        let name = read_name(decoder)?;
        let partitions = read_array::<ListOffsetsPartitionItem>(decoder)?;
        let entry = ListOffsetsTopic { name, partitions };
        proof {
            assert(entry.deep_view() == (ListOffsetsTopicModel {
                name: entry.name@,
                partitions: entry.partitions.deep_view(),
            }));
        }
        Ok(entry)
    }

    proof fn grows(s: Seq<u8>, t: Seq<u8>, pos: nat) {
        broadcast use codec::group_grows;
        broadcast use lemma_array_grows;

    }
}

// ---------------------------------------------------------------------------
// Request bodies
// ---------------------------------------------------------------------------

/// A non-empty key, and whether it names a group (0) or a transaction (1).
pub open spec fn parse_find_coordinator(s: Seq<u8>, pos: nat) -> Parsed<BodyModel> {
    parse_name(s, pos).and_then(
        |key: Seq<u8>, end: nat|
            codec::parse_i8(s, end).and_then(
                |key_type: i8, end: nat|
                    if key_type != 0 && key_type != 1 {
                        codec::failed(Error::Invalid, end)
                    } else {
                        codec::parsed(BodyModel::FindCoordinator { key, key_type }, end)
                    },
            ),
    )
}

pub open spec fn parse_init_producer_id(s: Seq<u8>, pos: nat) -> Parsed<BodyModel> {
    codec::parse_nullable_string(s, pos).and_then(
        |transactional_id: Option<Seq<u8>>, end: nat|
            codec::parse_i32(s, end).and_then(
                |timeout_ms: i32, end: nat|
                    codec::parsed(BodyModel::InitProducerId { transactional_id, timeout_ms }, end),
            ),
    )
}

pub open spec fn parse_add_partitions_to_txn(s: Seq<u8>, pos: nat) -> Parsed<BodyModel> {
    codec::parse_string(s, pos).and_then(
        |transactional_id: Seq<u8>, end: nat|
            codec::parse_i64(s, end).and_then(
                |producer_id: i64, end: nat|
                    codec::parse_i16(s, end).and_then(
                        |producer_epoch: i16, end: nat|
                            parse_array::<TxnTopicItem>(s, end).and_then(
                                |topics: Seq<(Seq<u8>, Seq<i32>)>, end: nat|
                                    codec::parsed(
                                        BodyModel::AddPartitionsToTxn {
                                            transactional_id,
                                            producer_id,
                                            producer_epoch,
                                            topics,
                                        },
                                        end,
                                    ),
                            ),
                    ),
            ),
    )
}

pub open spec fn parse_end_txn(s: Seq<u8>, pos: nat) -> Parsed<BodyModel> {
    codec::parse_string(s, pos).and_then(
        |transactional_id: Seq<u8>, end: nat|
            codec::parse_i64(s, end).and_then(
                |producer_id: i64, end: nat|
                    codec::parse_i16(s, end).and_then(
                        |producer_epoch: i16, end: nat|
                            codec::parse_i8(s, end).and_then(
                                |commit: i8, end: nat|
                                    if commit != 0 && commit != 1 {
                                        codec::failed(Error::Invalid, end)
                                    } else {
                                        codec::parsed(
                                            BodyModel::EndTxn {
                                                transactional_id,
                                                producer_id,
                                                producer_epoch,
                                                commit: commit == 1,
                                            },
                                            end,
                                        )
                                    },
                            ),
                    ),
            ),
    )
}

/// The topics that the metadata of a group protocol subscribes to: a version,
/// the topics, user data.
pub open spec fn parse_subscriptions(metadata: Seq<u8>) -> Parsed<Seq<Seq<u8>>> {
    codec::parse_i16(metadata, 0).and_then(
        |_version: i16, end: nat|
            parse_array::<StringItem>(metadata, end).and_then(
                |topics: Seq<Seq<u8>>, end: nat|
                    codec::parse_bytes(metadata, end).and_then(
                        |_user_data: Option<Seq<u8>>, end: nat| codec::parsed(topics, end),
                    ),
            ),
    )
}

/// The protocols that a member offers: at least one, of which the first gives
/// the subscriptions.
pub open spec fn parse_protocols(s: Seq<u8>, pos: nat) -> Parsed<Seq<Seq<u8>>> {
    codec::parse_array_len(s, pos).and_then(
        |count: usize, end: nat|
            if count == 0 {
                codec::failed(Error::Invalid, end)
            } else {
                codec::parse_string(s, end).and_then(
                    |_name: Seq<u8>, end: nat|
                        parse_required_bytes(s, end).and_then(
                            |metadata: Seq<u8>, end: nat|
                                (Parsed { result: parse_subscriptions(metadata).result, end }).and_then(
                                    |topics: Seq<Seq<u8>>, end: nat|
                                        codec::parse_many(
                                            s,
                                            end,
                                            (count - 1) as nat,
                                            item_of::<NamedBytesItem>(),
                                        ).and_then(
                                            |_rest: Seq<Seq<u8>>, end: nat| codec::parsed(topics, end),
                                        ),
                                ),
                        ),
                )
            },
    )
}

pub open spec fn parse_join_group(s: Seq<u8>, pos: nat) -> Parsed<BodyModel> {
    codec::parse_string(s, pos).and_then(
        |group_id: Seq<u8>, end: nat|
            codec::parse_i32(s, end).and_then(
                |session_timeout: i32, end: nat|
                    codec::parse_i32(s, end).and_then(
                        |rebalance_timeout: i32, end: nat|
                            if session_timeout < 0 || rebalance_timeout < 0 {
                                codec::failed(Error::Invalid, end)
                            } else {
                                codec::parse_string(s, end).and_then(
                                    |member_id: Seq<u8>, end: nat|
                                        codec::parse_string(s, end).and_then(
                                            |_protocol_type: Seq<u8>, end: nat|
                                                parse_protocols(s, end).and_then(
                                                    |subscriptions: Seq<Seq<u8>>, end: nat|
                                                        codec::parsed(
                                                            BodyModel::JoinGroup {
                                                                group_id,
                                                                member_id,
                                                                subscriptions,
                                                            },
                                                            end,
                                                        ),
                                                ),
                                        ),
                                )
                            },
                    ),
            ),
    )
}

/// The first non-empty byte string, or none at all.
pub open spec fn first_non_empty(items: Seq<Seq<u8>>) -> Seq<u8>
    decreases items.len(),
{
    if items.len() == 0 {
        seq![]
    } else if items[0].len() > 0 {
        items[0]
    } else {
        first_non_empty(items.skip(1))
    }
}

pub open spec fn parse_sync_group(s: Seq<u8>, pos: nat) -> Parsed<BodyModel> {
    codec::parse_string(s, pos).and_then(
        |group_id: Seq<u8>, end: nat|
            codec::parse_i32(s, end).and_then(
                |generation: i32, end: nat|
                    codec::parse_string(s, end).and_then(
                        |member_id: Seq<u8>, end: nat|
                            parse_array::<NamedBytesItem>(s, end).and_then(
                                |assignments: Seq<Seq<u8>>, end: nat|
                                    codec::parsed(
                                        BodyModel::SyncGroup {
                                            group_id,
                                            generation,
                                            member_id,
                                            assignment: first_non_empty(assignments),
                                        },
                                        end,
                                    ),
                            ),
                    ),
            ),
    )
}

pub open spec fn parse_heartbeat(s: Seq<u8>, pos: nat) -> Parsed<BodyModel> {
    codec::parse_string(s, pos).and_then(
        |group_id: Seq<u8>, end: nat|
            codec::parse_i32(s, end).and_then(
                |generation: i32, end: nat|
                    codec::parse_string(s, end).and_then(
                        |member_id: Seq<u8>, end: nat|
                            codec::parsed(
                                BodyModel::Heartbeat { group_id, generation, member_id },
                                end,
                            ),
                    ),
            ),
    )
}

pub open spec fn parse_leave_group(s: Seq<u8>, pos: nat) -> Parsed<BodyModel> {
    codec::parse_string(s, pos).and_then(
        |group_id: Seq<u8>, end: nat|
            codec::parse_string(s, end).and_then(
                |member_id: Seq<u8>, end: nat|
                    codec::parsed(BodyModel::LeaveGroup { group_id, member_id }, end),
            ),
    )
}

/// A list that must hold exactly one entry.
pub open spec fn parse_single(s: Seq<u8>, pos: nat) -> Parsed<()> {
    codec::parse_array_len(s, pos).and_then(
        |count: usize, end: nat|
            if count != 1 {
                codec::failed(Error::Invalid, end)
            } else {
                codec::parsed((), end)
            },
    )
}

/// One topic with one partition.
pub open spec fn parse_one_partition(s: Seq<u8>, pos: nat) -> Parsed<(Seq<u8>, i32)> {
    parse_single(s, pos).and_then(
        |_one: (), end: nat|
            codec::parse_string(s, end).and_then(
                |topic: Seq<u8>, end: nat|
                    parse_single(s, end).and_then(
                        |_one: (), end: nat|
                            codec::parse_i32(s, end).and_then(
                                |partition: i32, end: nat| codec::parsed((topic, partition), end),
                            ),
                    ),
            ),
    )
}

pub open spec fn parse_offset_commit(s: Seq<u8>, pos: nat) -> Parsed<BodyModel> {
    codec::parse_string(s, pos).and_then(
        |group_id: Seq<u8>, end: nat|
            codec::parse_i32(s, end).and_then(
                |generation: i32, end: nat|
                    codec::parse_string(s, end).and_then(
                        |member_id: Seq<u8>, end: nat|
                            codec::parse_i64(s, end).and_then(
                                |_retention: i64, end: nat|
                                    parse_one_partition(s, end).and_then(
                                        |at: (Seq<u8>, i32), end: nat|
                                            codec::parse_i64(s, end).and_then(
                                                |offset: i64, end: nat|
                                                    codec::parse_nullable_string(s, end).and_then(
                                                        |_metadata: Option<Seq<u8>>, end: nat|
                                                            codec::parsed(
                                                                BodyModel::OffsetCommit {
                                                                    group_id,
                                                                    generation,
                                                                    member_id,
                                                                    topic: at.0,
                                                                    partition: at.1,
                                                                    offset,
                                                                },
                                                                end,
                                                            ),
                                                    ),
                                            ),
                                    ),
                            ),
                    ),
            ),
    )
}

pub open spec fn parse_offset_fetch(s: Seq<u8>, pos: nat) -> Parsed<BodyModel> {
    codec::parse_string(s, pos).and_then(
        |group_id: Seq<u8>, end: nat|
            parse_one_partition(s, end).and_then(
                |at: (Seq<u8>, i32), end: nat|
                    codec::parsed(
                        BodyModel::OffsetFetch { group_id, topic: at.0, partition: at.1 },
                        end,
                    ),
            ),
    )
}

pub open spec fn parse_metadata(s: Seq<u8>, pos: nat) -> Parsed<BodyModel> {
    codec::parse_nullable_array_len(s, pos).and_then(
        |count: Option<usize>, end: nat|
            match count {
                None => codec::parsed(BodyModel::Metadata { topics: None }, end),
                Some(count) => codec::parse_many(s, end, count as nat, item_of::<NameItem>()).and_then(
                    |topics: Seq<Seq<u8>>, end: nat|
                        codec::parsed(BodyModel::Metadata { topics: Some(topics) }, end),
                ),
            },
    )
}

pub open spec fn parse_produce(s: Seq<u8>, pos: nat) -> Parsed<BodyModel> {
    codec::parse_nullable_string(s, pos).and_then(
        |transactional_id: Option<Seq<u8>>, end: nat|
            codec::parse_i16(s, end).and_then(
                |acks: i16, end: nat|
                    codec::parse_i32(s, end).and_then(
                        |timeout_ms: i32, end: nat|
                            parse_array::<ProduceTopicItem>(s, end).and_then(
                                |topics: Seq<ProduceTopicModel>, end: nat|
                                    codec::parsed(
                                        BodyModel::Produce { transactional_id, acks, timeout_ms, topics },
                                        end,
                                    ),
                            ),
                    ),
            ),
    )
}

pub open spec fn parse_fetch(s: Seq<u8>, pos: nat) -> Parsed<BodyModel> {
    codec::parse_i32(s, pos).and_then(
        |replica_id: i32, end: nat|
            codec::parse_i32(s, end).and_then(
                |max_wait_ms: i32, end: nat|
                    codec::parse_i32(s, end).and_then(
                        |min_bytes: i32, end: nat|
                            codec::parse_i32(s, end).and_then(
                                |max_bytes: i32, end: nat|
                                    if max_wait_ms < 0 || min_bytes < 0 || max_bytes < 0 {
                                        codec::failed(Error::Invalid, end)
                                    } else {
                                        codec::parse_i8(s, end).and_then(
                                            |isolation: i8, end: nat|
                                                if isolation != 0 && isolation != 1 {
                                                    codec::failed(Error::Invalid, end)
                                                } else {
                                                    parse_array::<FetchTopicItem>(s, end).and_then(
                                                        |topics: Seq<FetchTopicModel>, end: nat|
                                                            codec::parsed(
                                                                BodyModel::Fetch {
                                                                    replica_id,
                                                                    max_wait_ms,
                                                                    min_bytes,
                                                                    max_bytes,
                                                                    read_committed: isolation == 1,
                                                                    topics,
                                                                },
                                                                end,
                                                            ),
                                                    )
                                                },
                                        )
                                    },
                            ),
                    ),
            ),
    )
}

pub open spec fn parse_list_offsets(s: Seq<u8>, pos: nat) -> Parsed<BodyModel> {
    codec::parse_i32(s, pos).and_then(
        |replica_id: i32, end: nat|
            parse_array::<ListOffsetsTopicItem>(s, end).and_then(
                |topics: Seq<ListOffsetsTopicModel>, end: nat|
                    codec::parsed(BodyModel::ListOffsets { replica_id, topics }, end),
            ),
    )
}

fn decode_find_coordinator(decoder: &mut Decoder<'_>) -> (r: Result<RequestBody, Error>)
    requires
        old(decoder).wf(),
    ensures
        final(decoder).moved(
            *old(decoder),
            parse_find_coordinator(old(decoder).input(), old(decoder).pos()).end,
        ),
        value_result(r) == parse_find_coordinator(old(decoder).input(), old(decoder).pos()).result,
{
    let key = read_name(decoder)?;
    let key_type: i8 = decoder.i8()?;
    if key_type != 0 && key_type != 1 {
        return Err(Error::Invalid);
    }
    Ok(RequestBody::FindCoordinator { key, key_type })
}

fn decode_init_producer_id(decoder: &mut Decoder<'_>) -> (r: Result<RequestBody, Error>)
    requires
        old(decoder).wf(),
    ensures
        final(decoder).moved(
            *old(decoder),
            parse_init_producer_id(old(decoder).input(), old(decoder).pos()).end,
        ),
        value_result(r) == parse_init_producer_id(old(decoder).input(), old(decoder).pos()).result,
{
    let transactional_id = read_nullable_string(decoder)?;
    let timeout_ms: i32 = decoder.i32()?;
    Ok(RequestBody::InitProducerId { transactional_id, timeout_ms })
}

fn decode_add_partitions_to_txn(decoder: &mut Decoder<'_>) -> (r: Result<RequestBody, Error>)
    requires
        old(decoder).wf(),
    ensures
        final(decoder).moved(
            *old(decoder),
            parse_add_partitions_to_txn(old(decoder).input(), old(decoder).pos()).end,
        ),
        value_result(r) == parse_add_partitions_to_txn(old(decoder).input(), old(decoder).pos()).result,
{
    let transactional_id = read_string(decoder)?;
    let producer_id: i64 = decoder.i64()?;
    let producer_epoch: i16 = decoder.i16()?;
    let topics = read_array::<TxnTopicItem>(decoder)?;
    Ok(RequestBody::AddPartitionsToTxn { transactional_id, producer_id, producer_epoch, topics })
}

fn decode_end_txn(decoder: &mut Decoder<'_>) -> (r: Result<RequestBody, Error>)
    requires
        old(decoder).wf(),
    ensures
        final(decoder).moved(
            *old(decoder),
            parse_end_txn(old(decoder).input(), old(decoder).pos()).end,
        ),
        value_result(r) == parse_end_txn(old(decoder).input(), old(decoder).pos()).result,
{
    let transactional_id = read_string(decoder)?;
    let producer_id: i64 = decoder.i64()?;
    let producer_epoch: i16 = decoder.i16()?;
    let commit: i8 = decoder.i8()?;
    if commit != 0 && commit != 1 {
        return Err(Error::Invalid);
    }
    Ok(RequestBody::EndTxn { transactional_id, producer_id, producer_epoch, commit: commit != 0 })
}

fn read_subscriptions(metadata: &[u8]) -> (r: Result<Vec<Vec<u8>>, Error>)
    ensures
        value_result(r) == parse_subscriptions(metadata@).result,
{
    let mut decoder = Decoder::new(metadata);
    let _version: i16 = decoder.i16()?;
    let topics = read_array::<StringItem>(&mut decoder)?;
    let _user_data = decoder.bytes()?;
    Ok(topics)
}

fn read_protocols(decoder: &mut Decoder<'_>) -> (r: Result<Vec<Vec<u8>>, Error>)
    requires
        old(decoder).wf(),
    ensures
        final(decoder).moved(
            *old(decoder),
            parse_protocols(old(decoder).input(), old(decoder).pos()).end,
        ),
        value_result(r) == parse_protocols(old(decoder).input(), old(decoder).pos()).result,
{
    let protocols: usize = decoder.array_len()?;
    if protocols == 0 {
        return Err(Error::Invalid);
    }
    let _name = decoder.string_bytes()?;
    let metadata = read_required_bytes(decoder)?;
    let subscriptions = read_subscriptions(metadata)?;
    let _rest = read_many::<NamedBytesItem>(decoder, protocols - 1)?;
    Ok(subscriptions)
}

fn decode_join_group(decoder: &mut Decoder<'_>) -> (r: Result<RequestBody, Error>)
    requires
        old(decoder).wf(),
    ensures
        final(decoder).moved(
            *old(decoder),
            parse_join_group(old(decoder).input(), old(decoder).pos()).end,
        ),
        value_result(r) == parse_join_group(old(decoder).input(), old(decoder).pos()).result,
{
    let group_id = read_string(decoder)?;
    let session_timeout: i32 = decoder.i32()?;
    let rebalance_timeout: i32 = decoder.i32()?;
    if session_timeout < 0 || rebalance_timeout < 0 {
        return Err(Error::Invalid);
    }
    let member_id = read_string(decoder)?;
    let _protocol_type = decoder.string_bytes()?;
    let subscriptions = read_protocols(decoder)?;
    Ok(RequestBody::JoinGroup { group_id, member_id, subscriptions })
}

fn pick_assignment(items: Vec<Vec<u8>>) -> (r: Vec<u8>)
    ensures
        r@ == first_non_empty(items.deep_view()),
{
    let ghost models = items.deep_view();
    let mut i: usize = 0;
    proof {
        assert(models.skip(0) =~= models);
    }
    while i < items.len()
        invariant
            models == items.deep_view(),
            i <= items.len(),
            first_non_empty(models) == first_non_empty(models.skip(i as int)),
        decreases items.len() - i,
    {
        proof {
            assert(models.skip(i as int)[0] == items@[i as int].deep_view());
            assert(models.skip(i as int).skip(1) =~= models.skip(i + 1));
        }
        if items[i].len() > 0 {
            return copy_bytes(items[i].as_slice());
        }
        i += 1;
    }
    Vec::new()
}

fn decode_sync_group(decoder: &mut Decoder<'_>) -> (r: Result<RequestBody, Error>)
    requires
        old(decoder).wf(),
    ensures
        final(decoder).moved(
            *old(decoder),
            parse_sync_group(old(decoder).input(), old(decoder).pos()).end,
        ),
        value_result(r) == parse_sync_group(old(decoder).input(), old(decoder).pos()).result,
{
    let group_id = read_string(decoder)?;
    let generation: i32 = decoder.i32()?;
    let member_id = read_string(decoder)?;
    let assignments = read_array::<NamedBytesItem>(decoder)?;
    let assignment = pick_assignment(assignments);
    Ok(RequestBody::SyncGroup { group_id, generation, member_id, assignment })
}

fn decode_heartbeat(decoder: &mut Decoder<'_>) -> (r: Result<RequestBody, Error>)
    requires
        old(decoder).wf(),
    ensures
        final(decoder).moved(
            *old(decoder),
            parse_heartbeat(old(decoder).input(), old(decoder).pos()).end,
        ),
        value_result(r) == parse_heartbeat(old(decoder).input(), old(decoder).pos()).result,
{
    let group_id = read_string(decoder)?;
    let generation: i32 = decoder.i32()?;
    let member_id = read_string(decoder)?;
    Ok(RequestBody::Heartbeat { group_id, generation, member_id })
}

fn decode_leave_group(decoder: &mut Decoder<'_>) -> (r: Result<RequestBody, Error>)
    requires
        old(decoder).wf(),
    ensures
        final(decoder).moved(
            *old(decoder),
            parse_leave_group(old(decoder).input(), old(decoder).pos()).end,
        ),
        value_result(r) == parse_leave_group(old(decoder).input(), old(decoder).pos()).result,
{
    let group_id = read_string(decoder)?;
    let member_id = read_string(decoder)?;
    Ok(RequestBody::LeaveGroup { group_id, member_id })
}

fn read_single(decoder: &mut Decoder<'_>) -> (r: Result<(), Error>)
    requires
        old(decoder).wf(),
    ensures
        final(decoder).moved(
            *old(decoder),
            parse_single(old(decoder).input(), old(decoder).pos()).end,
        ),
        r == parse_single(old(decoder).input(), old(decoder).pos()).result,
{
    let count: usize = decoder.array_len()?;
    if count != 1 {
        return Err(Error::Invalid);
    }
    Ok(())
}

fn read_one_partition(decoder: &mut Decoder<'_>) -> (r: Result<(Vec<u8>, i32), Error>)
    requires
        old(decoder).wf(),
    ensures
        final(decoder).moved(
            *old(decoder),
            parse_one_partition(old(decoder).input(), old(decoder).pos()).end,
        ),
        value_result(r) == parse_one_partition(old(decoder).input(), old(decoder).pos()).result,
{
    read_single(decoder)?;
    let topic = read_string(decoder)?;
    read_single(decoder)?;
    let partition: i32 = decoder.i32()?;
    Ok((topic, partition))
}

fn decode_offset_commit(decoder: &mut Decoder<'_>) -> (r: Result<RequestBody, Error>)
    requires
        old(decoder).wf(),
    ensures
        final(decoder).moved(
            *old(decoder),
            parse_offset_commit(old(decoder).input(), old(decoder).pos()).end,
        ),
        value_result(r) == parse_offset_commit(old(decoder).input(), old(decoder).pos()).result,
{
    let group_id = read_string(decoder)?;
    let generation: i32 = decoder.i32()?;
    let member_id = read_string(decoder)?;
    let _retention: i64 = decoder.i64()?;
    let (topic, partition) = read_one_partition(decoder)?;
    let offset: i64 = decoder.i64()?;
    let _metadata = decoder.nullable_string_bytes()?;
    Ok(RequestBody::OffsetCommit { group_id, generation, member_id, topic, partition, offset })
}

fn decode_offset_fetch(decoder: &mut Decoder<'_>) -> (r: Result<RequestBody, Error>)
    requires
        old(decoder).wf(),
    ensures
        final(decoder).moved(
            *old(decoder),
            parse_offset_fetch(old(decoder).input(), old(decoder).pos()).end,
        ),
        value_result(r) == parse_offset_fetch(old(decoder).input(), old(decoder).pos()).result,
{
    let group_id = read_string(decoder)?;
    let (topic, partition) = read_one_partition(decoder)?;
    Ok(RequestBody::OffsetFetch { group_id, topic, partition })
}

fn decode_metadata(decoder: &mut Decoder<'_>) -> (r: Result<RequestBody, Error>)
    requires
        old(decoder).wf(),
    ensures
        final(decoder).moved(
            *old(decoder),
            parse_metadata(old(decoder).input(), old(decoder).pos()).end,
        ),
        value_result(r) == parse_metadata(old(decoder).input(), old(decoder).pos()).result,
{
    match decoder.nullable_array_len()? {
        None => Ok(RequestBody::Metadata { topics: None }),
        Some(count) => {
            let topics = read_many::<NameItem>(decoder, count)?;
            Ok(RequestBody::Metadata { topics: Some(topics) })
        },
    }
}

fn decode_produce(decoder: &mut Decoder<'_>) -> (r: Result<RequestBody, Error>)
    requires
        old(decoder).wf(),
    ensures
        final(decoder).moved(
            *old(decoder),
            parse_produce(old(decoder).input(), old(decoder).pos()).end,
        ),
        value_result(r) == parse_produce(old(decoder).input(), old(decoder).pos()).result,
{
    let transactional_id = read_nullable_string(decoder)?;
    let acks: i16 = decoder.i16()?;
    let timeout_ms: i32 = decoder.i32()?;
    let topics = read_array::<ProduceTopicItem>(decoder)?;
    Ok(RequestBody::Produce { transactional_id, acks, timeout_ms, topics })
}

fn decode_fetch(decoder: &mut Decoder<'_>) -> (r: Result<RequestBody, Error>)
    requires
        old(decoder).wf(),
    ensures
        final(decoder).moved(
            *old(decoder),
            parse_fetch(old(decoder).input(), old(decoder).pos()).end,
        ),
        value_result(r) == parse_fetch(old(decoder).input(), old(decoder).pos()).result,
{
    let replica_id: i32 = decoder.i32()?;
    let max_wait_ms: i32 = decoder.i32()?;
    let min_bytes: i32 = decoder.i32()?;
    let max_bytes: i32 = decoder.i32()?;
    if max_wait_ms < 0 || min_bytes < 0 || max_bytes < 0 {
        return Err(Error::Invalid);
    }
    let isolation: i8 = decoder.i8()?;
    if isolation != 0 && isolation != 1 {
        return Err(Error::Invalid);
    }
    let topics = read_array::<FetchTopicItem>(decoder)?;
    Ok(
        RequestBody::Fetch {
            replica_id,
            max_wait_ms,
            min_bytes,
            max_bytes,
            read_committed: isolation == 1,
            topics,
        },
    )
}

fn decode_list_offsets(decoder: &mut Decoder<'_>) -> (r: Result<RequestBody, Error>)
    requires
        old(decoder).wf(),
    ensures
        final(decoder).moved(
            *old(decoder),
            parse_list_offsets(old(decoder).input(), old(decoder).pos()).end,
        ),
        value_result(r) == parse_list_offsets(old(decoder).input(), old(decoder).pos()).result,
{
    let replica_id: i32 = decoder.i32()?;
    let topics = read_array::<ListOffsetsTopicItem>(decoder)?;
    Ok(RequestBody::ListOffsets { replica_id, topics })
}

// ---------------------------------------------------------------------------
// Request frames
// ---------------------------------------------------------------------------

/// The header fields that every request begins with.
pub open spec fn parse_request_header(s: Seq<u8>, pos: nat) -> Parsed<HeaderModel> {
    codec::parse_i16(s, pos).and_then(
        |api_key: i16, end: nat|
            codec::parse_i16(s, end).and_then(
                |api_version: i16, end: nat|
                    codec::parse_i32(s, end).and_then(
                        |correlation_id: i32, end: nat|
                            codec::parse_nullable_string(s, end).and_then(
                                |client_id: Option<Seq<u8>>, end: nat|
                                    codec::parsed(
                                        HeaderModel { api_key, api_version, correlation_id, client_id },
                                        end,
                                    ),
                            ),
                    ),
            ),
    )
}

/// The body that goes with an API key and version.
pub open spec fn parse_body(s: Seq<u8>, pos: nat, api_key: i16, api_version: i16) -> Parsed<BodyModel> {
    if api_key == api::API_VERSIONS && api_version == version::API_VERSIONS {
        codec::parsed(BodyModel::ApiVersions, pos)
    } else if api_key == api::FIND_COORDINATOR && api_version == version::FIND_COORDINATOR {
        parse_find_coordinator(s, pos)
    } else if api_key == api::INIT_PRODUCER_ID && api_version == version::INIT_PRODUCER_ID {
        parse_init_producer_id(s, pos)
    } else if api_key == api::ADD_PARTITIONS_TO_TXN && api_version == version::ADD_PARTITIONS_TO_TXN {
        parse_add_partitions_to_txn(s, pos)
    } else if api_key == api::END_TXN && api_version == version::END_TXN {
        parse_end_txn(s, pos)
    } else if api_key == api::JOIN_GROUP && api_version == version::JOIN_GROUP {
        parse_join_group(s, pos)
    } else if api_key == api::SYNC_GROUP && api_version == version::SYNC_GROUP {
        parse_sync_group(s, pos)
    } else if api_key == api::HEARTBEAT && api_version == version::HEARTBEAT {
        parse_heartbeat(s, pos)
    } else if api_key == api::LEAVE_GROUP && api_version == version::LEAVE_GROUP {
        parse_leave_group(s, pos)
    } else if api_key == api::OFFSET_COMMIT && api_version == version::OFFSET_COMMIT {
        parse_offset_commit(s, pos)
    } else if api_key == api::OFFSET_FETCH && api_version == version::OFFSET_FETCH {
        parse_offset_fetch(s, pos)
    } else if api_key == api::METADATA && api_version == version::METADATA {
        parse_metadata(s, pos)
    } else if api_key == api::PRODUCE && api_version == version::PRODUCE {
        parse_produce(s, pos)
    } else if api_key == api::FETCH && api_version == version::FETCH {
        parse_fetch(s, pos)
    } else if api_key == api::LIST_OFFSETS && api_version == version::LIST_OFFSETS {
        parse_list_offsets(s, pos)
    } else {
        codec::failed(Error::UnsupportedVersion, pos)
    }
}

/// A request from its header on, with nothing after it.
pub open spec fn parse_request(s: Seq<u8>) -> Parsed<RequestModel> {
    parse_request_header(s, 0).and_then(
        |header: HeaderModel, end: nat|
            if !protocol::advertised(header.api_key) {
                codec::failed(Error::UnsupportedApi, end)
            } else {
                parse_body(s, end, header.api_key, header.api_version).and_then(
                    |body: BodyModel, end: nat|
                        if end != s.len() {
                            codec::failed(Error::Invalid, end)
                        } else {
                            codec::parsed(RequestModel { header, body }, end)
                        },
                )
            },
    )
}

/// What a request frame says. Its length prefix must be exact and within
/// bounds.
pub open spec fn decoded_request(frame: Seq<u8>) -> Result<RequestModel, Error> {
    if frame.len() < 4 {
        Err(Error::Incomplete)
    } else {
        let declared = codec::i32_of(frame.subrange(0, 4));
        if declared < 0 {
            Err(Error::Invalid)
        } else if declared > MAX_FRAME_LEN {
            Err(Error::TooLarge)
        } else if declared + 4 != frame.len() {
            Err(Error::Incomplete)
        } else {
            parse_request(frame.skip(4)).result
        }
    }
}

/// The fixed header fields of a frame.
pub open spec fn peeked_header(frame: Seq<u8>) -> Result<HeaderModel, Error> {
    if frame.len() < 12 {
        Err(Error::Incomplete)
    } else {
        Ok(
            HeaderModel {
                api_key: codec::i16_of(frame.subrange(4, 6)),
                api_version: codec::i16_of(frame.subrange(6, 8)),
                correlation_id: codec::i32_of(frame.subrange(8, 12)),
                client_id: None,
            },
        )
    }
}

/// Reads only the fixed request header fields.
///
/// This exists for the ApiVersions downgrade response: a request using a
/// version this broker does not implement cannot be decoded, but the error
/// response still needs its correlation id. The header fields used here are
/// identical in the v1 and flexible v2 request headers.
pub fn peek_header(frame: &[u8]) -> (r: Result<Header, Error>)
    ensures
        value_result(r) == peeked_header(frame@),
{
    if frame.len() < 12 {
        return Err(Error::Incomplete);
    }
    Ok(
        Header {
            api_key: read_u16(frame, 4) as i16,
            api_version: read_u16(frame, 6) as i16,
            correlation_id: read_u32(frame, 8) as i32,
            client_id: None,
        },
    )
}

fn decode_header(decoder: &mut Decoder<'_>) -> (r: Result<Header, Error>)
    requires
        old(decoder).wf(),
    ensures
        final(decoder).moved(
            *old(decoder),
            parse_request_header(old(decoder).input(), old(decoder).pos()).end,
        ),
        value_result(r) == parse_request_header(old(decoder).input(), old(decoder).pos()).result,
{
    let api_key: i16 = decoder.i16()?;
    let api_version: i16 = decoder.i16()?;
    let correlation_id: i32 = decoder.i32()?;
    let client_id = read_nullable_string(decoder)?;
    Ok(Header { api_key, api_version, correlation_id, client_id })
}

fn decode_body(decoder: &mut Decoder<'_>, api_key: i16, api_version: i16) -> (r: Result<RequestBody, Error>)
    requires
        old(decoder).wf(),
    ensures
        final(decoder).moved(
            *old(decoder),
            parse_body(old(decoder).input(), old(decoder).pos(), api_key, api_version).end,
        ),
        value_result(r) == parse_body(
            old(decoder).input(),
            old(decoder).pos(),
            api_key,
            api_version,
        ).result,
{
    if api_key == api::API_VERSIONS && api_version == version::API_VERSIONS {
        Ok(RequestBody::ApiVersions)
    } else if api_key == api::FIND_COORDINATOR && api_version == version::FIND_COORDINATOR {
        decode_find_coordinator(decoder)
    } else if api_key == api::INIT_PRODUCER_ID && api_version == version::INIT_PRODUCER_ID {
        decode_init_producer_id(decoder)
    } else if api_key == api::ADD_PARTITIONS_TO_TXN && api_version == version::ADD_PARTITIONS_TO_TXN {
        decode_add_partitions_to_txn(decoder)
    } else if api_key == api::END_TXN && api_version == version::END_TXN {
        decode_end_txn(decoder)
    } else if api_key == api::JOIN_GROUP && api_version == version::JOIN_GROUP {
        decode_join_group(decoder)
    } else if api_key == api::SYNC_GROUP && api_version == version::SYNC_GROUP {
        decode_sync_group(decoder)
    } else if api_key == api::HEARTBEAT && api_version == version::HEARTBEAT {
        decode_heartbeat(decoder)
    } else if api_key == api::LEAVE_GROUP && api_version == version::LEAVE_GROUP {
        decode_leave_group(decoder)
    } else if api_key == api::OFFSET_COMMIT && api_version == version::OFFSET_COMMIT {
        decode_offset_commit(decoder)
    } else if api_key == api::OFFSET_FETCH && api_version == version::OFFSET_FETCH {
        decode_offset_fetch(decoder)
    } else if api_key == api::METADATA && api_version == version::METADATA {
        decode_metadata(decoder)
    } else if api_key == api::PRODUCE && api_version == version::PRODUCE {
        decode_produce(decoder)
    } else if api_key == api::FETCH && api_version == version::FETCH {
        decode_fetch(decoder)
    } else if api_key == api::LIST_OFFSETS && api_version == version::LIST_OFFSETS {
        decode_list_offsets(decoder)
    } else {
        Err(Error::UnsupportedVersion)
    }
}

/// Decodes one length-prefixed Kafka request frame.
///
/// # Errors
///
/// Returns [`Error::UnsupportedApi`] or [`Error::UnsupportedVersion`] for
/// anything outside the supported subset, and structural errors otherwise.
pub fn decode_request(frame: &[u8]) -> (r: Result<Request, Error>)
    ensures
        value_result(r) == decoded_request(frame@),
{
    if frame.len() < 4 {
        return Err(Error::Incomplete);
    }
    let declared: i32 = read_u32(frame, 0) as i32;
    if declared < 0 {
        return Err(Error::Invalid);
    }
    if declared as usize > MAX_FRAME_LEN {
        return Err(Error::TooLarge);
    }
    if declared as usize + 4 != frame.len() {
        return Err(Error::Incomplete);
    }
    let payload = vstd::slice::slice_subrange(frame, 4, frame.len());
    proof {
        assert(payload@ =~= frame@.skip(4));
    }
    let mut decoder = Decoder::new(payload);
    let header = decode_header(&mut decoder)?;
    if !is_supported_api(header.api_key) {
        return Err(Error::UnsupportedApi);
    }
    let body = decode_body(&mut decoder, header.api_key, header.api_version)?;
    if !decoder.done() {
        return Err(Error::Invalid);
    }
    Ok(Request { header, body })
}

} // verus!
