//! Response encoding for the supported Kafka subset.

use vstd::prelude::*;

use crate::broker_core::log::{Record, RecordModel};
use crate::broker_wire::codec::{self, Encoder};
use crate::broker_wire::protocol::{Error, NO_ERROR};
use crate::broker_wire::record_batch::{self, encode_record_batch};

verus! {

broadcast use crate::bytes::lemma_bytes_deep_view, crate::bytes::lemma_slice_deep_view;

// ---------------------------------------------------------------------------
// Fields and lists of them
// ---------------------------------------------------------------------------

/// Whether `after` continues `before` by what `encoded` says. On an error a
/// part of it may have been written.
pub open spec fn wrote(
    before: Encoder,
    after: Encoder,
    encoded: Result<Seq<u8>, Error>,
    r: Result<(), Error>,
) -> bool {
    &&& after.correlation() == before.correlation()
    &&& match encoded {
        Ok(bytes) => r is Ok && after.body() == before.body() + bytes,
        Err(error) => r == Err::<(), Error>(error),
    }
}

/// Something that has a place in a response.
pub trait Field: DeepView + Sized {
    /// Its bytes.
    spec fn encoded(value: <Self as DeepView>::V) -> Result<Seq<u8>, Error>;

    /// Writes it.
    fn write(&self, encoder: &mut Encoder) -> (r: Result<(), Error>)
        ensures
            wrote(*old(encoder), *final(encoder), Self::encoded(self.deep_view()), r),
    ;
}

/// The encoding of one item, for lists.
pub open spec fn field_of<T: Field>() -> spec_fn(<T as DeepView>::V) -> Result<Seq<u8>, Error> {
    |value: <T as DeepView>::V| T::encoded(value)
}

/// A counted list of items.
pub open spec fn array_of<T: Field>(items: Seq<<T as DeepView>::V>) -> Result<Seq<u8>, Error> {
    codec::array_bytes(items, field_of::<T>())
}

/// Writes a counted list.
fn write_array<T: Field>(encoder: &mut Encoder, items: &[T]) -> (r: Result<(), Error>)
    ensures
        wrote(*old(encoder), *final(encoder), array_of::<T>(items.deep_view()), r),
{
    let ghost models = items.deep_view();
    let ghost item = field_of::<T>();
    let ghost start = encoder.body();
    encoder.array_len(items.len())?;
    let ghost head = codec::array_len_bytes(models.len())->Ok_0;
    let mut i: usize = 0;
    proof {
        assert(models.take(0) =~= seq![]);
        assert(encoder.body() =~= start + head + seq![]);
    }
    while i < items.len()
        invariant
            models == items.deep_view(),
            item == field_of::<T>(),
            i <= items.len(),
            start == old(encoder).body(),
            codec::array_len_bytes(models.len()) == Ok::<Seq<u8>, Error>(head),
            encoder.correlation() == old(encoder).correlation(),
            codec::list_bytes(models.take(i as int), item) is Ok,
            encoder.body() == start + head + codec::list_bytes(models.take(i as int), item)->Ok_0,
        decreases items.len() - i,
    {
        proof {
            assert(models.take(i + 1).drop_last() =~= models.take(i as int));
            assert(models.take(i + 1).last() == items@[i as int].deep_view());
        }
        let step = items[i].write(encoder);
        proof {
            if step is Err {
                codec::lemma_list_error(models, i + 1, item);
            } else {
                assert(encoder.body() =~= start + head + codec::list_bytes(
                    models.take(i + 1),
                    item,
                )->Ok_0);
            }
        }
        step?;
        i += 1;
    }
    proof {
        assert(models.take(i as int) =~= models);
        assert(encoder.body() =~= start + (head + codec::list_bytes(models, item)->Ok_0));
    }
    Ok(())
}

/// A node id in a list.
impl Field for i32 {
    open spec fn encoded(value: i32) -> Result<Seq<u8>, Error> {
        Ok(codec::i32_bytes(value))
    }

    fn write(&self, encoder: &mut Encoder) -> (r: Result<(), Error>) {
        encoder.i32(*self);
        Ok(())
    }
}

/// An API key with its lowest and highest version.
impl Field for (i16, i16, i16) {
    open spec fn encoded(value: (i16, i16, i16)) -> Result<Seq<u8>, Error> {
        let fields = codec::join(Ok(codec::i16_bytes(value.0)), Ok(codec::i16_bytes(value.1)));
        codec::join(fields, Ok(codec::i16_bytes(value.2)))
    }

    fn write(&self, encoder: &mut Encoder) -> (r: Result<(), Error>) {
        let ghost start = encoder.body();
        encoder.i16(self.0);
        encoder.i16(self.1);
        encoder.i16(self.2);
        proof {
            assert(encoder.body() =~= start + Self::encoded(self.deep_view())->Ok_0);
        }
        Ok(())
    }
}

/// An aborted producer and its first offset.
impl Field for (i64, i64) {
    open spec fn encoded(value: (i64, i64)) -> Result<Seq<u8>, Error> {
        codec::join(Ok(codec::i64_bytes(value.0)), Ok(codec::i64_bytes(value.1)))
    }

    fn write(&self, encoder: &mut Encoder) -> (r: Result<(), Error>) {
        let ghost start = encoder.body();
        encoder.i64(self.0);
        encoder.i64(self.1);
        proof {
            assert(encoder.body() =~= start + Self::encoded(self.deep_view())->Ok_0);
        }
        Ok(())
    }
}

/// A partition and its error code.
impl Field for (i32, i16) {
    open spec fn encoded(value: (i32, i16)) -> Result<Seq<u8>, Error> {
        codec::join(Ok(codec::i32_bytes(value.0)), Ok(codec::i16_bytes(value.1)))
    }

    fn write(&self, encoder: &mut Encoder) -> (r: Result<(), Error>) {
        let ghost start = encoder.body();
        encoder.i32(self.0);
        encoder.i16(self.1);
        proof {
            assert(encoder.body() =~= start + Self::encoded(self.deep_view())->Ok_0);
        }
        Ok(())
    }
}

/// A group member and its metadata.
impl Field for (Vec<u8>, Vec<u8>) {
    open spec fn encoded(value: (Seq<u8>, Seq<u8>)) -> Result<Seq<u8>, Error> {
        codec::join(codec::string_bytes(value.0), codec::blob_bytes(value.1))
    }

    fn write(&self, encoder: &mut Encoder) -> (r: Result<(), Error>) {
        let ghost start = encoder.body();
        encoder.string(self.0.as_slice())?;
        encoder.bytes(self.1.as_slice())?;
        proof {
            assert(encoder.body() =~= start + Self::encoded(self.deep_view())->Ok_0);
        }
        Ok(())
    }
}

// ---------------------------------------------------------------------------
// Typed responses
// ---------------------------------------------------------------------------

/// One broker in a metadata response.
#[derive(Clone, Debug, Eq, PartialEq)]
pub struct BrokerMetadata {
    /// Broker node id.
    pub node_id: i32,
    /// Advertised host.
    pub host: Vec<u8>,
    /// Advertised port.
    pub port: i32,
}

/// What [`BrokerMetadata`] says.
#[verifier::ext_equal]
pub struct BrokerMetadataModel {
    pub node_id: i32,
    pub host: Seq<u8>,
    pub port: i32,
}

impl DeepView for BrokerMetadata {
    type V = BrokerMetadataModel;

    open spec fn deep_view(&self) -> BrokerMetadataModel {
        BrokerMetadataModel {
            node_id: self.node_id,
            host: self.host@,
            port: self.port,
        }
    }
}

impl Field for BrokerMetadata {
    open spec fn encoded(value: BrokerMetadataModel) -> Result<Seq<u8>, Error> {
        let fields = codec::join(Ok(codec::i32_bytes(value.node_id)), codec::string_bytes(value.host));
        let fields = codec::join(fields, Ok(codec::i32_bytes(value.port)));
        codec::join(fields, codec::nullable_string_bytes(None))
    }

    fn write(&self, encoder: &mut Encoder) -> (r: Result<(), Error>) {
        let ghost start = encoder.body();
        encoder.i32(self.node_id);
        encoder.string(self.host.as_slice())?;
        encoder.i32(self.port);
        encoder.nullable_string(None)?;
        proof {
            assert(encoder.body() =~= start + Self::encoded(self.deep_view())->Ok_0);
        }
        Ok(())
    }
}

/// One partition in a metadata response.
#[derive(Clone, Debug, Eq, PartialEq)]
pub struct PartitionMetadata {
    /// Per-partition error code.
    pub error: i16,
    /// Partition index.
    pub partition: i32,
    /// Leader node id.
    pub leader: i32,
    /// Replica node ids.
    pub replicas: Vec<i32>,
    /// In-sync replica node ids.
    pub isr: Vec<i32>,
}

/// What [`PartitionMetadata`] says.
#[verifier::ext_equal]
pub struct PartitionMetadataModel {
    pub error: i16,
    pub partition: i32,
    pub leader: i32,
    pub replicas: Seq<i32>,
    pub isr: Seq<i32>,
}

impl DeepView for PartitionMetadata {
    type V = PartitionMetadataModel;

    open spec fn deep_view(&self) -> PartitionMetadataModel {
        PartitionMetadataModel {
            error: self.error,
            partition: self.partition,
            leader: self.leader,
            replicas: self.replicas.deep_view(),
            isr: self.isr.deep_view(),
        }
    }
}

impl Field for PartitionMetadata {
    open spec fn encoded(value: PartitionMetadataModel) -> Result<Seq<u8>, Error> {
        let fields = codec::join(Ok(codec::i16_bytes(value.error)), Ok(codec::i32_bytes(value.partition)));
        let fields = codec::join(fields, Ok(codec::i32_bytes(value.leader)));
        let fields = codec::join(fields, array_of::<i32>(value.replicas));
        codec::join(fields, array_of::<i32>(value.isr))
    }

    fn write(&self, encoder: &mut Encoder) -> (r: Result<(), Error>) {
        let ghost start = encoder.body();
        encoder.i16(self.error);
        encoder.i32(self.partition);
        encoder.i32(self.leader);
        write_array(encoder, self.replicas.as_slice())?;
        write_array(encoder, self.isr.as_slice())?;
        proof {
            assert(encoder.body() =~= start + Self::encoded(self.deep_view())->Ok_0);
        }
        Ok(())
    }
}

/// One topic in a metadata response.
#[derive(Clone, Debug, Eq, PartialEq)]
pub struct TopicMetadata {
    /// Per-topic error code.
    pub error: i16,
    /// Topic name.
    pub name: Vec<u8>,
    /// Whether the topic is internal.
    pub is_internal: bool,
    /// Partitions of this topic.
    pub partitions: Vec<PartitionMetadata>,
}

/// What [`TopicMetadata`] says.
#[verifier::ext_equal]
pub struct TopicMetadataModel {
    pub error: i16,
    pub name: Seq<u8>,
    pub is_internal: bool,
    pub partitions: Seq<PartitionMetadataModel>,
}

impl DeepView for TopicMetadata {
    type V = TopicMetadataModel;

    open spec fn deep_view(&self) -> TopicMetadataModel {
        TopicMetadataModel {
            error: self.error,
            name: self.name@,
            is_internal: self.is_internal,
            partitions: self.partitions.deep_view(),
        }
    }
}

impl Field for TopicMetadata {
    open spec fn encoded(value: TopicMetadataModel) -> Result<Seq<u8>, Error> {
        let fields = codec::join(Ok(codec::i16_bytes(value.error)), codec::string_bytes(value.name));
        let fields = codec::join(fields, Ok(codec::i8_bytes(if value.is_internal { 1 } else { 0 })));
        codec::join(fields, array_of::<PartitionMetadata>(value.partitions))
    }

    fn write(&self, encoder: &mut Encoder) -> (r: Result<(), Error>) {
        let ghost start = encoder.body();
        encoder.i16(self.error);
        encoder.string(self.name.as_slice())?;
        encoder.bool(self.is_internal);
        write_array(encoder, self.partitions.as_slice())?;
        proof {
            assert(encoder.body() =~= start + Self::encoded(self.deep_view())->Ok_0);
        }
        Ok(())
    }
}

/// A complete metadata response.
#[derive(Clone, Debug, Eq, PartialEq)]
pub struct MetadataResponse {
    /// Cluster brokers.
    pub brokers: Vec<BrokerMetadata>,
    /// Controller node id.
    pub controller_id: i32,
    /// Topic metadata.
    pub topics: Vec<TopicMetadata>,
}

/// What [`MetadataResponse`] says.
#[verifier::ext_equal]
pub struct MetadataResponseModel {
    pub brokers: Seq<BrokerMetadataModel>,
    pub controller_id: i32,
    pub topics: Seq<TopicMetadataModel>,
}

impl DeepView for MetadataResponse {
    type V = MetadataResponseModel;

    open spec fn deep_view(&self) -> MetadataResponseModel {
        MetadataResponseModel {
            brokers: self.brokers.deep_view(),
            controller_id: self.controller_id,
            topics: self.topics.deep_view(),
        }
    }
}

impl Field for MetadataResponse {
    open spec fn encoded(value: MetadataResponseModel) -> Result<Seq<u8>, Error> {
        let fields = codec::join(array_of::<BrokerMetadata>(value.brokers), Ok(codec::i32_bytes(value.controller_id)));
        codec::join(fields, array_of::<TopicMetadata>(value.topics))
    }

    fn write(&self, encoder: &mut Encoder) -> (r: Result<(), Error>) {
        let ghost start = encoder.body();
        write_array(encoder, self.brokers.as_slice())?;
        encoder.i32(self.controller_id);
        write_array(encoder, self.topics.as_slice())?;
        proof {
            assert(encoder.body() =~= start + Self::encoded(self.deep_view())->Ok_0);
        }
        Ok(())
    }
}

/// One produce result partition.
#[derive(Clone, Copy, Debug, Eq, PartialEq)]
pub struct ProducePartitionResult {
    /// Partition index.
    pub partition: i32,
    /// Per-partition error code.
    pub error: i16,
    /// First offset assigned to the appended batch.
    pub base_offset: i64,
    /// Broker append time, or `-1` when disabled.
    pub log_append_time_ms: i64,
}

impl DeepView for ProducePartitionResult {
    type V = ProducePartitionResult;

    open spec fn deep_view(&self) -> ProducePartitionResult {
        *self
    }
}

impl Field for ProducePartitionResult {
    open spec fn encoded(value: ProducePartitionResult) -> Result<Seq<u8>, Error> {
        let fields = codec::join(Ok(codec::i32_bytes(value.partition)), Ok(codec::i16_bytes(value.error)));
        let fields = codec::join(fields, Ok(codec::i64_bytes(value.base_offset)));
        codec::join(fields, Ok(codec::i64_bytes(value.log_append_time_ms)))
    }

    fn write(&self, encoder: &mut Encoder) -> (r: Result<(), Error>) {
        let ghost start = encoder.body();
        encoder.i32(self.partition);
        encoder.i16(self.error);
        encoder.i64(self.base_offset);
        encoder.i64(self.log_append_time_ms);
        proof {
            assert(encoder.body() =~= start + Self::encoded(self.deep_view())->Ok_0);
        }
        Ok(())
    }
}

/// One produce result topic.
#[derive(Clone, Debug, Eq, PartialEq)]
pub struct ProduceTopicResult {
    /// Topic name.
    pub name: Vec<u8>,
    /// Per-partition results.
    pub partitions: Vec<ProducePartitionResult>,
}

/// What [`ProduceTopicResult`] says.
#[verifier::ext_equal]
pub struct ProduceTopicResultModel {
    pub name: Seq<u8>,
    pub partitions: Seq<ProducePartitionResult>,
}

impl DeepView for ProduceTopicResult {
    type V = ProduceTopicResultModel;

    open spec fn deep_view(&self) -> ProduceTopicResultModel {
        ProduceTopicResultModel {
            name: self.name@,
            partitions: self.partitions.deep_view(),
        }
    }
}

impl Field for ProduceTopicResult {
    open spec fn encoded(value: ProduceTopicResultModel) -> Result<Seq<u8>, Error> {
        codec::join(
            codec::string_bytes(value.name),
            array_of::<ProducePartitionResult>(value.partitions),
        )
    }

    fn write(&self, encoder: &mut Encoder) -> (r: Result<(), Error>) {
        let ghost start = encoder.body();
        encoder.string(self.name.as_slice())?;
        write_array(encoder, self.partitions.as_slice())?;
        proof {
            assert(encoder.body() =~= start + Self::encoded(self.deep_view())->Ok_0);
        }
        Ok(())
    }
}

/// A complete produce response.
#[derive(Clone, Debug, Eq, PartialEq)]
pub struct ProduceResponse {
    /// Per-topic results.
    pub topics: Vec<ProduceTopicResult>,
    /// Broker throttle time.
    pub throttle_time_ms: i32,
}

/// What [`ProduceResponse`] says.
#[verifier::ext_equal]
pub struct ProduceResponseModel {
    pub topics: Seq<ProduceTopicResultModel>,
    pub throttle_time_ms: i32,
}

impl DeepView for ProduceResponse {
    type V = ProduceResponseModel;

    open spec fn deep_view(&self) -> ProduceResponseModel {
        ProduceResponseModel {
            topics: self.topics.deep_view(),
            throttle_time_ms: self.throttle_time_ms,
        }
    }
}

impl Field for ProduceResponse {
    open spec fn encoded(value: ProduceResponseModel) -> Result<Seq<u8>, Error> {
        codec::join(
            array_of::<ProduceTopicResult>(value.topics),
            Ok(codec::i32_bytes(value.throttle_time_ms)),
        )
    }

    fn write(&self, encoder: &mut Encoder) -> (r: Result<(), Error>) {
        let ghost start = encoder.body();
        write_array(encoder, self.topics.as_slice())?;
        encoder.i32(self.throttle_time_ms);
        proof {
            assert(encoder.body() =~= start + Self::encoded(self.deep_view())->Ok_0);
        }
        Ok(())
    }
}

/// One fetch result partition.
#[derive(Clone, Debug, Eq, PartialEq)]
pub struct FetchPartitionResult {
    /// Partition index.
    pub partition: i32,
    /// Per-partition error code.
    pub error: i16,
    /// Next offset after the returned records.
    pub high_watermark: i64,
    /// Last stable offset; equal to the high watermark without transactions.
    pub last_stable_offset: i64,
    /// Aborted producer ranges, or `None` when the broker sends null.
    pub aborted_transactions: Option<Vec<(i64, i64)>>,
    /// Records beginning at the requested offset.
    pub records: Vec<Record>,
}

/// What [`FetchPartitionResult`] says.
#[verifier::ext_equal]
pub struct FetchPartitionResultModel {
    pub partition: i32,
    pub error: i16,
    pub high_watermark: i64,
    pub last_stable_offset: i64,
    pub aborted_transactions: Option<Seq<(i64, i64)>>,
    pub records: Seq<RecordModel>,
}

impl DeepView for FetchPartitionResult {
    type V = FetchPartitionResultModel;

    open spec fn deep_view(&self) -> FetchPartitionResultModel {
        FetchPartitionResultModel {
            partition: self.partition,
            error: self.error,
            high_watermark: self.high_watermark,
            last_stable_offset: self.last_stable_offset,
            aborted_transactions: self.aborted_transactions.deep_view(),
            records: self.records.deep_view(),
        }
    }
}

/// The aborted transactions of a fetch result partition.
pub open spec fn aborted_bytes(aborted: Option<Seq<(i64, i64)>>) -> Result<Seq<u8>, Error> {
    match aborted {
        Some(aborted) => array_of::<(i64, i64)>(aborted),
        None => codec::nullable_array_len_bytes(None),
    }
}

/// The record set of a fetch result partition: one batch based at the first
/// record, or no bytes when there are no records.
pub open spec fn record_set_bytes(records: Seq<RecordModel>) -> Result<Seq<u8>, Error> {
    if records.len() == 0 {
        codec::blob_bytes(seq![])
    } else {
        match record_batch::encoded_batch(records[0].offset, records) {
            Ok(batch) => codec::blob_bytes(batch),
            Err(error) => Err(error),
        }
    }
}

fn write_aborted(encoder: &mut Encoder, aborted: &Option<Vec<(i64, i64)>>) -> (r: Result<(), Error>)
    ensures
        wrote(*old(encoder), *final(encoder), aborted_bytes(aborted.deep_view()), r),
{
    match aborted {
        Some(aborted) => write_array(encoder, aborted.as_slice()),
        None => encoder.nullable_array_len(None),
    }
}

fn write_record_set(encoder: &mut Encoder, records: &Vec<Record>) -> (r: Result<(), Error>)
    ensures
        wrote(*old(encoder), *final(encoder), record_set_bytes(records.deep_view()), r),
{
    proof {
        assert(records.deep_view().len() == records@.len());
    }
    if records.len() == 0 {
        let none: Vec<u8> = Vec::new();
        return encoder.bytes(none.as_slice());
    }
    let slice = records.as_slice();
    proof {
        assert(slice.deep_view() =~= records.deep_view());
        assert(records.deep_view()[0] == records@[0].deep_view());
    }
    let batch = encode_record_batch(records[0].offset, slice)?;
    encoder.bytes(batch.as_slice())
}

impl Field for FetchPartitionResult {
    open spec fn encoded(value: FetchPartitionResultModel) -> Result<Seq<u8>, Error> {
        codec::join(
            codec::join(
                Ok(
                    codec::i32_bytes(value.partition) + codec::i16_bytes(value.error)
                        + codec::i64_bytes(value.high_watermark) + codec::i64_bytes(
                        value.last_stable_offset,
                    ),
                ),
                aborted_bytes(value.aborted_transactions),
            ),
            record_set_bytes(value.records),
        )
    }

    fn write(&self, encoder: &mut Encoder) -> (r: Result<(), Error>) {
        let ghost start = encoder.body();
        encoder.i32(self.partition);
        encoder.i16(self.error);
        encoder.i64(self.high_watermark);
        encoder.i64(self.last_stable_offset);
        write_aborted(encoder, &self.aborted_transactions)?;
        write_record_set(encoder, &self.records)?;
        proof {
            assert(encoder.body() =~= start + Self::encoded(self.deep_view())->Ok_0);
        }
        Ok(())
    }
}

/// One fetch result topic.
#[derive(Clone, Debug, Eq, PartialEq)]
pub struct FetchTopicResult {
    /// Topic name.
    pub name: Vec<u8>,
    /// Per-partition results.
    pub partitions: Vec<FetchPartitionResult>,
}

/// What [`FetchTopicResult`] says.
#[verifier::ext_equal]
pub struct FetchTopicResultModel {
    pub name: Seq<u8>,
    pub partitions: Seq<FetchPartitionResultModel>,
}

impl DeepView for FetchTopicResult {
    type V = FetchTopicResultModel;

    open spec fn deep_view(&self) -> FetchTopicResultModel {
        FetchTopicResultModel {
            name: self.name@,
            partitions: self.partitions.deep_view(),
        }
    }
}

impl Field for FetchTopicResult {
    open spec fn encoded(value: FetchTopicResultModel) -> Result<Seq<u8>, Error> {
        codec::join(
            codec::string_bytes(value.name),
            array_of::<FetchPartitionResult>(value.partitions),
        )
    }

    fn write(&self, encoder: &mut Encoder) -> (r: Result<(), Error>) {
        let ghost start = encoder.body();
        encoder.string(self.name.as_slice())?;
        write_array(encoder, self.partitions.as_slice())?;
        proof {
            assert(encoder.body() =~= start + Self::encoded(self.deep_view())->Ok_0);
        }
        Ok(())
    }
}

/// A complete fetch response.
#[derive(Clone, Debug, Eq, PartialEq)]
pub struct FetchResponse {
    /// Broker throttle time.
    pub throttle_time_ms: i32,
    /// Per-topic results.
    pub topics: Vec<FetchTopicResult>,
}

/// What [`FetchResponse`] says.
#[verifier::ext_equal]
pub struct FetchResponseModel {
    pub throttle_time_ms: i32,
    pub topics: Seq<FetchTopicResultModel>,
}

impl DeepView for FetchResponse {
    type V = FetchResponseModel;

    open spec fn deep_view(&self) -> FetchResponseModel {
        FetchResponseModel {
            throttle_time_ms: self.throttle_time_ms,
            topics: self.topics.deep_view(),
        }
    }
}

impl Field for FetchResponse {
    open spec fn encoded(value: FetchResponseModel) -> Result<Seq<u8>, Error> {
        codec::join(
            Ok(codec::i32_bytes(value.throttle_time_ms)),
            array_of::<FetchTopicResult>(value.topics),
        )
    }

    fn write(&self, encoder: &mut Encoder) -> (r: Result<(), Error>) {
        let ghost start = encoder.body();
        encoder.i32(self.throttle_time_ms);
        write_array(encoder, self.topics.as_slice())?;
        proof {
            assert(encoder.body() =~= start + Self::encoded(self.deep_view())->Ok_0);
        }
        Ok(())
    }
}

/// One list-offsets result partition.
#[derive(Clone, Copy, Debug, Eq, PartialEq)]
pub struct ListOffsetsPartitionResult {
    /// Partition index.
    pub partition: i32,
    /// Per-partition error code.
    pub error: i16,
    /// Timestamp associated with the returned offset.
    pub timestamp_ms: i64,
    /// The earliest or latest offset.
    pub offset: i64,
}

impl DeepView for ListOffsetsPartitionResult {
    type V = ListOffsetsPartitionResult;

    open spec fn deep_view(&self) -> ListOffsetsPartitionResult {
        *self
    }
}

impl Field for ListOffsetsPartitionResult {
    open spec fn encoded(value: ListOffsetsPartitionResult) -> Result<Seq<u8>, Error> {
        let fields = codec::join(Ok(codec::i32_bytes(value.partition)), Ok(codec::i16_bytes(value.error)));
        let fields = codec::join(fields, Ok(codec::i64_bytes(value.timestamp_ms)));
        codec::join(fields, Ok(codec::i64_bytes(value.offset)))
    }

    fn write(&self, encoder: &mut Encoder) -> (r: Result<(), Error>) {
        let ghost start = encoder.body();
        encoder.i32(self.partition);
        encoder.i16(self.error);
        encoder.i64(self.timestamp_ms);
        encoder.i64(self.offset);
        proof {
            assert(encoder.body() =~= start + Self::encoded(self.deep_view())->Ok_0);
        }
        Ok(())
    }
}

/// One list-offsets result topic.
#[derive(Clone, Debug, Eq, PartialEq)]
pub struct ListOffsetsTopicResult {
    /// Topic name.
    pub name: Vec<u8>,
    /// Per-partition results.
    pub partitions: Vec<ListOffsetsPartitionResult>,
}

/// What [`ListOffsetsTopicResult`] says.
#[verifier::ext_equal]
pub struct ListOffsetsTopicResultModel {
    pub name: Seq<u8>,
    pub partitions: Seq<ListOffsetsPartitionResult>,
}

impl DeepView for ListOffsetsTopicResult {
    type V = ListOffsetsTopicResultModel;

    open spec fn deep_view(&self) -> ListOffsetsTopicResultModel {
        ListOffsetsTopicResultModel {
            name: self.name@,
            partitions: self.partitions.deep_view(),
        }
    }
}

impl Field for ListOffsetsTopicResult {
    open spec fn encoded(value: ListOffsetsTopicResultModel) -> Result<Seq<u8>, Error> {
        codec::join(
            codec::string_bytes(value.name),
            array_of::<ListOffsetsPartitionResult>(value.partitions),
        )
    }

    fn write(&self, encoder: &mut Encoder) -> (r: Result<(), Error>) {
        let ghost start = encoder.body();
        encoder.string(self.name.as_slice())?;
        write_array(encoder, self.partitions.as_slice())?;
        proof {
            assert(encoder.body() =~= start + Self::encoded(self.deep_view())->Ok_0);
        }
        Ok(())
    }
}

/// A complete list-offsets response.
#[derive(Clone, Debug, Eq, PartialEq)]
pub struct ListOffsetsResponse {
    /// Per-topic results.
    pub topics: Vec<ListOffsetsTopicResult>,
}

/// What [`ListOffsetsResponse`] says.
#[verifier::ext_equal]
pub struct ListOffsetsResponseModel {
    pub topics: Seq<ListOffsetsTopicResultModel>,
}

impl DeepView for ListOffsetsResponse {
    type V = ListOffsetsResponseModel;

    open spec fn deep_view(&self) -> ListOffsetsResponseModel {
        ListOffsetsResponseModel {
            topics: self.topics.deep_view(),
        }
    }
}

impl Field for ListOffsetsResponse {
    open spec fn encoded(value: ListOffsetsResponseModel) -> Result<Seq<u8>, Error> {
        array_of::<ListOffsetsTopicResult>(value.topics)
    }

    fn write(&self, encoder: &mut Encoder) -> (r: Result<(), Error>) {
        let ghost start = encoder.body();
        write_array(encoder, self.topics.as_slice())?;
        proof {
            assert(encoder.body() =~= start + Self::encoded(self.deep_view())->Ok_0);
        }
        Ok(())
    }
}

/// A complete find-coordinator response.
#[derive(Clone, Debug, Eq, PartialEq)]
pub struct FindCoordinatorResponse {
    /// Error code.
    pub error: i16,
    /// Coordinator node id.
    pub node_id: i32,
    /// Coordinator host.
    pub host: Vec<u8>,
    /// Coordinator port.
    pub port: i32,
}

/// What [`FindCoordinatorResponse`] says.
#[verifier::ext_equal]
pub struct FindCoordinatorResponseModel {
    pub error: i16,
    pub node_id: i32,
    pub host: Seq<u8>,
    pub port: i32,
}

impl DeepView for FindCoordinatorResponse {
    type V = FindCoordinatorResponseModel;

    open spec fn deep_view(&self) -> FindCoordinatorResponseModel {
        FindCoordinatorResponseModel {
            error: self.error,
            node_id: self.node_id,
            host: self.host@,
            port: self.port,
        }
    }
}

impl Field for FindCoordinatorResponse {
    open spec fn encoded(value: FindCoordinatorResponseModel) -> Result<Seq<u8>, Error> {
        let fields = codec::join(Ok(codec::i32_bytes(0)), Ok(codec::i16_bytes(value.error)));
        let fields = codec::join(fields, codec::nullable_string_bytes(None));
        let fields = codec::join(fields, Ok(codec::i32_bytes(value.node_id)));
        let fields = codec::join(fields, codec::string_bytes(value.host));
        codec::join(fields, Ok(codec::i32_bytes(value.port)))
    }

    fn write(&self, encoder: &mut Encoder) -> (r: Result<(), Error>) {
        let ghost start = encoder.body();
        encoder.i32(0);
        encoder.i16(self.error);
        encoder.nullable_string(None)?;
        encoder.i32(self.node_id);
        encoder.string(self.host.as_slice())?;
        encoder.i32(self.port);
        proof {
            assert(encoder.body() =~= start + Self::encoded(self.deep_view())->Ok_0);
        }
        Ok(())
    }
}

/// A complete init-producer-id response.
#[derive(Clone, Copy, Debug, Eq, PartialEq)]
pub struct InitProducerIdResponse {
    /// Error code.
    pub error: i16,
    /// Issued producer id, or `-1`.
    pub producer_id: i64,
    /// Issued producer epoch, or `-1`.
    pub producer_epoch: i16,
}

impl DeepView for InitProducerIdResponse {
    type V = InitProducerIdResponse;

    open spec fn deep_view(&self) -> InitProducerIdResponse {
        *self
    }
}

impl Field for InitProducerIdResponse {
    open spec fn encoded(value: InitProducerIdResponse) -> Result<Seq<u8>, Error> {
        let fields = codec::join(Ok(codec::i32_bytes(0)), Ok(codec::i16_bytes(value.error)));
        let fields = codec::join(fields, Ok(codec::i64_bytes(value.producer_id)));
        codec::join(fields, Ok(codec::i16_bytes(value.producer_epoch)))
    }

    fn write(&self, encoder: &mut Encoder) -> (r: Result<(), Error>) {
        let ghost start = encoder.body();
        encoder.i32(0);
        encoder.i16(self.error);
        encoder.i64(self.producer_id);
        encoder.i16(self.producer_epoch);
        proof {
            assert(encoder.body() =~= start + Self::encoded(self.deep_view())->Ok_0);
        }
        Ok(())
    }
}

/// One topic of an add-partitions-to-transaction response.
#[derive(Clone, Debug, Eq, PartialEq)]
pub struct TransactionPartitionResult {
    /// Topic name.
    pub topic: Vec<u8>,
    /// Partitions and their error codes.
    pub partitions: Vec<(i32, i16)>,
}

/// What [`TransactionPartitionResult`] says.
#[verifier::ext_equal]
pub struct TransactionPartitionResultModel {
    pub topic: Seq<u8>,
    pub partitions: Seq<(i32, i16)>,
}

impl DeepView for TransactionPartitionResult {
    type V = TransactionPartitionResultModel;

    open spec fn deep_view(&self) -> TransactionPartitionResultModel {
        TransactionPartitionResultModel {
            topic: self.topic@,
            partitions: self.partitions.deep_view(),
        }
    }
}

impl Field for TransactionPartitionResult {
    open spec fn encoded(value: TransactionPartitionResultModel) -> Result<Seq<u8>, Error> {
        codec::join(codec::string_bytes(value.topic), array_of::<(i32, i16)>(value.partitions))
    }

    fn write(&self, encoder: &mut Encoder) -> (r: Result<(), Error>) {
        let ghost start = encoder.body();
        encoder.string(self.topic.as_slice())?;
        write_array(encoder, self.partitions.as_slice())?;
        proof {
            assert(encoder.body() =~= start + Self::encoded(self.deep_view())->Ok_0);
        }
        Ok(())
    }
}

/// A complete join-group response.
#[derive(Clone, Debug, Eq, PartialEq)]
pub struct JoinGroupResponse {
    /// Error code.
    pub error: i16,
    /// Group generation, or `-1`.
    pub generation: i32,
    /// Chosen group protocol.
    pub protocol: Vec<u8>,
    /// Member id of the group leader.
    pub leader: Vec<u8>,
    /// Member id of the receiver.
    pub member_id: Vec<u8>,
    /// Members and their metadata.
    pub members: Vec<(Vec<u8>, Vec<u8>)>,
}

/// What [`JoinGroupResponse`] says.
#[verifier::ext_equal]
pub struct JoinGroupResponseModel {
    pub error: i16,
    pub generation: i32,
    pub protocol: Seq<u8>,
    pub leader: Seq<u8>,
    pub member_id: Seq<u8>,
    pub members: Seq<(Seq<u8>, Seq<u8>)>,
}

impl DeepView for JoinGroupResponse {
    type V = JoinGroupResponseModel;

    open spec fn deep_view(&self) -> JoinGroupResponseModel {
        JoinGroupResponseModel {
            error: self.error,
            generation: self.generation,
            protocol: self.protocol@,
            leader: self.leader@,
            member_id: self.member_id@,
            members: self.members.deep_view(),
        }
    }
}

impl Field for JoinGroupResponse {
    open spec fn encoded(value: JoinGroupResponseModel) -> Result<Seq<u8>, Error> {
        let fields = codec::join(Ok(codec::i16_bytes(value.error)), Ok(codec::i32_bytes(value.generation)));
        let fields = codec::join(fields, codec::string_bytes(value.protocol));
        let fields = codec::join(fields, codec::string_bytes(value.leader));
        let fields = codec::join(fields, codec::string_bytes(value.member_id));
        codec::join(fields, array_of::<(Vec<u8>, Vec<u8>)>(value.members))
    }

    fn write(&self, encoder: &mut Encoder) -> (r: Result<(), Error>) {
        let ghost start = encoder.body();
        encoder.i16(self.error);
        encoder.i32(self.generation);
        encoder.string(self.protocol.as_slice())?;
        encoder.string(self.leader.as_slice())?;
        encoder.string(self.member_id.as_slice())?;
        write_array(encoder, self.members.as_slice())?;
        proof {
            assert(encoder.body() =~= start + Self::encoded(self.deep_view())->Ok_0);
        }
        Ok(())
    }
}

// ---------------------------------------------------------------------------
// Response frames
// ---------------------------------------------------------------------------

/// Encodes one response frame around a body.
fn encode<T: Field>(correlation_id: i32, body: &T) -> (r: Result<Vec<u8>, Error>)
    ensures
        codec::bytes_result(r) == codec::frame_result(correlation_id, T::encoded(body.deep_view())),
{
    let mut encoder = Encoder::response(correlation_id);
    body.write(&mut encoder)?;
    proof {
        assert(encoder.body() =~= T::encoded(body.deep_view())->Ok_0);
    }
    Ok(encoder.finish())
}

/// An ApiVersions v0 body.
pub open spec fn api_versions_bytes(error: i16, versions: Seq<(i16, i16, i16)>) -> Result<
    Seq<u8>,
    Error,
> {
    codec::join(Ok(codec::i16_bytes(error)), array_of::<(i16, i16, i16)>(versions))
}

/// Encodes an ApiVersions v0 response for `(api_key, min, max)` entries.
pub fn encode_api_versions(correlation_id: i32, versions: &[(i16, i16, i16)]) -> (r: Result<
    Vec<u8>,
    Error,
>)
    ensures
        codec::bytes_result(r) == codec::frame_result(
            correlation_id,
            api_versions_bytes(NO_ERROR, versions.deep_view()),
        ),
{
    encode_api_versions_error(correlation_id, NO_ERROR, versions)
}

/// Encodes an ApiVersions v0 response that carries an error code beside the
/// entries.
pub fn encode_api_versions_error(correlation_id: i32, error: i16, versions: &[(i16, i16, i16)]) -> (r:
    Result<Vec<u8>, Error>)
    ensures
        codec::bytes_result(r) == codec::frame_result(
            correlation_id,
            api_versions_bytes(error, versions.deep_view()),
        ),
{
    let mut encoder = Encoder::response(correlation_id);
    encoder.i16(error);
    write_array(&mut encoder, versions)?;
    proof {
        assert(encoder.body() =~= api_versions_bytes(error, versions.deep_view())->Ok_0);
    }
    Ok(encoder.finish())
}

/// Encodes a Metadata v1 response.
pub fn encode_metadata(correlation_id: i32, response: &MetadataResponse) -> (r: Result<Vec<u8>, Error>)
    ensures
        codec::bytes_result(r) == codec::frame_result(
            correlation_id,
            MetadataResponse::encoded(response.deep_view()),
        ),
{
    encode(correlation_id, response)
}

/// Encodes a Produce v3 response.
pub fn encode_produce(correlation_id: i32, response: &ProduceResponse) -> (r: Result<Vec<u8>, Error>)
    ensures
        codec::bytes_result(r) == codec::frame_result(
            correlation_id,
            ProduceResponse::encoded(response.deep_view()),
        ),
{
    encode(correlation_id, response)
}

/// Encodes a Fetch v4 response, re-encoding stored records as record batch v2.
pub fn encode_fetch(correlation_id: i32, response: &FetchResponse) -> (r: Result<Vec<u8>, Error>)
    ensures
        codec::bytes_result(r) == codec::frame_result(
            correlation_id,
            FetchResponse::encoded(response.deep_view()),
        ),
{
    encode(correlation_id, response)
}

/// Encodes a ListOffsets v1 response.
pub fn encode_list_offsets(correlation_id: i32, response: &ListOffsetsResponse) -> (r: Result<Vec<u8>, Error>)
    ensures
        codec::bytes_result(r) == codec::frame_result(
            correlation_id,
            ListOffsetsResponse::encoded(response.deep_view()),
        ),
{
    encode(correlation_id, response)
}

/// Encodes a FindCoordinator v1 response.
pub fn encode_find_coordinator(correlation_id: i32, response: &FindCoordinatorResponse) -> (r: Result<Vec<u8>, Error>)
    ensures
        codec::bytes_result(r) == codec::frame_result(
            correlation_id,
            FindCoordinatorResponse::encoded(response.deep_view()),
        ),
{
    encode(correlation_id, response)
}

/// Encodes an InitProducerId v0 response.
pub fn encode_init_producer_id(correlation_id: i32, response: InitProducerIdResponse) -> (r: Result<Vec<u8>, Error>)
    ensures
        codec::bytes_result(r) == codec::frame_result(
            correlation_id,
            InitProducerIdResponse::encoded(response.deep_view()),
        ),
{
    encode(correlation_id, &response)
}

/// Encodes a JoinGroup v1 response.
pub fn encode_join_group(correlation_id: i32, response: &JoinGroupResponse) -> (r: Result<Vec<u8>, Error>)
    ensures
        codec::bytes_result(r) == codec::frame_result(
            correlation_id,
            JoinGroupResponse::encoded(response.deep_view()),
        ),
{
    encode(correlation_id, response)
}

/// An AddPartitionsToTxn v0 body.
pub open spec fn add_partitions_to_txn_bytes(topics: Seq<TransactionPartitionResultModel>) -> Result<
    Seq<u8>,
    Error,
> {
    codec::join(Ok(codec::i32_bytes(0)), array_of::<TransactionPartitionResult>(topics))
}

/// Encodes an AddPartitionsToTxn v0 response.
pub fn encode_add_partitions_to_txn(correlation_id: i32, topics: &[TransactionPartitionResult]) -> (r:
    Result<Vec<u8>, Error>)
    ensures
        codec::bytes_result(r) == codec::frame_result(
            correlation_id,
            add_partitions_to_txn_bytes(topics.deep_view()),
        ),
{
    let mut encoder = Encoder::response(correlation_id);
    encoder.i32(0);
    write_array(&mut encoder, topics)?;
    proof {
        assert(encoder.body() =~= add_partitions_to_txn_bytes(topics.deep_view())->Ok_0);
    }
    Ok(encoder.finish())
}

/// Encodes an EndTxn v0 response.
pub fn encode_end_txn(correlation_id: i32, error: i16) -> (r: Result<Vec<u8>, Error>)
    ensures
        r matches Ok(frame) && frame@ == codec::frame_bytes(
            correlation_id,
            codec::i32_bytes(0) + codec::i16_bytes(error),
        ),
{
    let mut encoder = Encoder::response(correlation_id);
    encoder.i32(0);
    encoder.i16(error);
    proof {
        assert(encoder.body() =~= codec::i32_bytes(0) + codec::i16_bytes(error));
    }
    Ok(encoder.finish())
}

/// A SyncGroup v0 body.
pub open spec fn sync_group_bytes(error: i16, assignment: Seq<u8>) -> Result<Seq<u8>, Error> {
    codec::join(Ok(codec::i16_bytes(error)), codec::blob_bytes(assignment))
}

/// Encodes a SyncGroup v0 response.
pub fn encode_sync_group(correlation_id: i32, error: i16, assignment: &[u8]) -> (r: Result<
    Vec<u8>,
    Error,
>)
    ensures
        codec::bytes_result(r) == codec::frame_result(
            correlation_id,
            sync_group_bytes(error, assignment@),
        ),
{
    let mut encoder = Encoder::response(correlation_id);
    encoder.i16(error);
    encoder.bytes(assignment)?;
    proof {
        assert(encoder.body() =~= sync_group_bytes(error, assignment@)->Ok_0);
    }
    Ok(encoder.finish())
}

/// Encodes a Heartbeat v0 or LeaveGroup v0 response.
pub fn encode_group_error(correlation_id: i32, error: i16) -> (r: Result<Vec<u8>, Error>)
    ensures
        r matches Ok(frame) && frame@ == codec::frame_bytes(
            correlation_id,
            codec::i16_bytes(error),
        ),
{
    let mut encoder = Encoder::response(correlation_id);
    encoder.i16(error);
    proof {
        assert(encoder.body() =~= codec::i16_bytes(error));
    }
    Ok(encoder.finish())
}

/// A list of one topic with one partition, up to the fields of the partition.
pub open spec fn one_partition_bytes(topic: Seq<u8>, partition: i32, fields: Seq<u8>) -> Result<
    Seq<u8>,
    Error,
> {
    codec::join(
        codec::join(Ok(codec::i32_bytes(1)), codec::string_bytes(topic)),
        Ok(codec::i32_bytes(1) + codec::i32_bytes(partition) + fields),
    )
}

/// Encodes an OffsetCommit v2 response for one partition.
pub fn encode_offset_commit(correlation_id: i32, topic: &[u8], partition: i32, error: i16) -> (r:
    Result<Vec<u8>, Error>)
    ensures
        codec::bytes_result(r) == codec::frame_result(
            correlation_id,
            one_partition_bytes(topic@, partition, codec::i16_bytes(error)),
        ),
{
    let mut encoder = Encoder::response(correlation_id);
    encoder.i32(1);
    encoder.string(topic)?;
    encoder.i32(1);
    encoder.i32(partition);
    encoder.i16(error);
    proof {
        assert(encoder.body() =~= one_partition_bytes(
            topic@,
            partition,
            codec::i16_bytes(error),
        )->Ok_0);
    }
    Ok(encoder.finish())
}

/// The fields of a partition in an OffsetFetch v1 body: offset, no metadata,
/// error.
pub open spec fn offset_fetch_fields(offset: i64, error: i16) -> Seq<u8> {
    codec::i64_bytes(offset) + codec::i16_bytes((-1) as i16) + codec::i16_bytes(error)
}

/// Encodes an OffsetFetch v1 response for one partition.
pub fn encode_offset_fetch(
    correlation_id: i32,
    topic: &[u8],
    partition: i32,
    offset: i64,
    error: i16,
) -> (r: Result<Vec<u8>, Error>)
    ensures
        codec::bytes_result(r) == codec::frame_result(
            correlation_id,
            one_partition_bytes(topic@, partition, offset_fetch_fields(offset, error)),
        ),
{
    let mut encoder = Encoder::response(correlation_id);
    encoder.i32(1);
    encoder.string(topic)?;
    encoder.i32(1);
    encoder.i32(partition);
    encoder.i64(offset);
    encoder.i16(-1);
    encoder.i16(error);
    proof {
        assert(encoder.body() =~= one_partition_bytes(
            topic@,
            partition,
            offset_fetch_fields(offset, error),
        )->Ok_0);
    }
    Ok(encoder.finish())
}

/// Every response frame starts with the length of what follows it and with
/// the correlation id of the request it answers.
pub proof fn law_frame_starts_with_length_and_correlation(correlation_id: i32, body: Seq<u8>)
    requires
        body.len() + 4 <= i32::MAX,
    ensures
        ({
            let frame = codec::frame_bytes(correlation_id, body);
            &&& frame.len() == body.len() + 8
            &&& codec::i32_of(frame.subrange(0, 4)) == frame.len() - 4
            &&& codec::i32_of(frame.subrange(4, 8)) == correlation_id
            &&& frame.skip(8) == body
        }),
{
    let frame = codec::frame_bytes(correlation_id, body);
    let len = (body.len() + 4) as i32;
    codec::lemma_be_len((body.len() + 4) as nat, 4);
    codec::lemma_be_len((correlation_id as u32) as nat, 4);
    assert(len as u32 == len) by (bit_vector)
        requires
            len >= 0,
    ;
    assert(frame.subrange(0, 4) =~= codec::i32_bytes(len));
    assert(frame.subrange(4, 8) =~= codec::i32_bytes(correlation_id));
    codec::law_integers_round_trip(0, 0, len, 0, 0);
    codec::law_integers_round_trip(0, 0, correlation_id, 0, 0);
    assert(frame.skip(8) =~= body);
}

} // verus!
