//! What holds of the answers of an engine.

use vstd::prelude::*;

use crate::broker_core::coordination::ProducerIdentity;
use crate::broker_core::log::{self, MAX_APPEND_RECORDS};
use crate::broker_engine::answers::{self, EngineModel};
use crate::broker_engine::codes;
use crate::broker_runtime::broker::{self, Broker};
use crate::broker_runtime::error::BrokerError;
use crate::broker_runtime::links::{CallModel, Shards};
use crate::broker_runtime::message::{PartitionRequestModel, PartitionResultModel};
use crate::broker_runtime::partition::ShardModel;
use crate::broker_runtime::runtime_laws;
use crate::broker_wire::codec;
use crate::broker_wire::protocol::{
    api, Error, NO_ERROR, UNKNOWN_TOPIC_OR_PARTITION, UNSUPPORTED_VERSION,
};
use crate::broker_wire::request::{
    self, FetchPartition, ListOffsetsPartition, ProducePartitionModel, RequestModel,
};
use crate::broker_wire::response::{
    FetchPartitionResultModel, ListOffsetsPartitionResult, ProducePartitionResult,
};

verus! {

/// The correlation id that a response frame carries.
pub open spec fn echoed(frame: Seq<u8>) -> i32 {
    codec::i32_of(frame.subrange(4, 8))
}

proof fn lemma_frame_echoes(correlation_id: i32, body: Seq<u8>)
    ensures
        codec::frame_bytes(correlation_id, body).len() >= 8,
        echoed(codec::frame_bytes(correlation_id, body)) == correlation_id,
{
    let frame = codec::frame_bytes(correlation_id, body);
    let payload = codec::i32_bytes(correlation_id) + body;
    codec::lemma_be_len(payload.len(), 4);
    codec::lemma_be_len((correlation_id as u32) as nat, 4);
    assert(frame.subrange(4, 8) =~= codec::i32_bytes(correlation_id));
    codec::law_integers_round_trip(0, 0, correlation_id, 0, 0);
}

/// Every response echoes the correlation id of its request.
pub proof fn law_responses_echo_the_correlation_id<S: Shards>(
    engine: EngineModel<S>,
    request: RequestModel,
    response: Seq<u8>,
)
    requires
        engine.answers(request, Ok(response)),
    ensures
        response.len() >= 8,
        echoed(response) == request.header.correlation_id,
{
    let id = request.header.correlation_id;
    assert(exists|body: Seq<u8>| response == #[trigger] codec::frame_bytes(id, body));
    let body = choose|body: Seq<u8>| response == #[trigger] codec::frame_bytes(id, body);
    lemma_frame_echoes(id, body);
}

/// A frame that cannot be decoded gets no response, except that a client that
/// asks for the versions in an unknown version is answered, with the
/// correlation id it sent.
pub proof fn law_undecodable_frames_end_the_connection<S: Shards>(
    engine: EngineModel<S>,
    frame: Seq<u8>,
    r: Result<Seq<u8>, Error>,
)
    requires
        engine.answers_frame(frame, r),
        request::decoded_request(frame) is Err,
    ensures
        ({
            let error = request::decoded_request(frame)->Err_0;
            let header = request::peeked_header(frame);
            if error == Error::UnsupportedVersion && header is Ok && header->Ok_0.api_key
                == api::API_VERSIONS {
                r matches Ok(response) ==> response.len() >= 8 && echoed(response)
                    == header->Ok_0.correlation_id
            } else {
                r == Err::<Seq<u8>, Error>(error)
            }
        }),
{
    let header = request::peeked_header(frame);
    if let Ok(response) = r {
        let id = header->Ok_0.correlation_id;
        let body = choose|body: Seq<u8>| response == #[trigger] codec::frame_bytes(id, body);
        lemma_frame_echoes(id, body);
    }
}

/// A partition that does not exist is refused in place, with the Kafka code
/// for it and no offsets, whatever the shards do.
pub proof fn law_unknown_partitions_are_refused_in_place<S: Shards>(
    engine: EngineModel<S>,
    topic: Seq<u8>,
    produce: ProducePartitionModel,
    produced: ProducePartitionResult,
    request_max_bytes: i32,
    read_committed: bool,
    fetch: FetchPartition,
    fetched: FetchPartitionResultModel,
    list: ListOffsetsPartition,
    listed: ListOffsetsPartitionResult,
)
    requires
        engine.produced(None, topic, produce, produced),
        engine.fetched(request_max_bytes, read_committed, topic, fetch, fetched),
        engine.listed(topic, list, listed),
    ensures
        engine.broker.catalog().checked(topic, produce.partition) is Err ==> produced
            == answers::produce_refusal(produce.partition, UNKNOWN_TOPIC_OR_PARTITION),
        engine.broker.catalog().checked(topic, fetch.partition) is Err ==> fetched == (
        FetchPartitionResultModel {
            partition: fetch.partition,
            error: UNKNOWN_TOPIC_OR_PARTITION,
            high_watermark: (-1) as i64,
            last_stable_offset: (-1) as i64,
            aborted_transactions: None,
            records: seq![],
        }),
        engine.broker.catalog().checked(topic, list.partition) is Err && (list.timestamp == -2
            || list.timestamp == -1) ==> listed == answers::offset_refusal(
            list.partition,
            UNKNOWN_TOPIC_OR_PARTITION,
        ),
{
    let outcomes = choose|outcomes: Seq<Result<i64, BrokerError>>| #[trigger]
        engine.appended_by(None, topic, produce, outcomes) && produced == answers::produce_result(
            produce.partition,
            answers::entry_outcome(outcomes),
        );
    let first = outcomes[0];
    assert(engine.batch_appended(None, topic, produce.partition, produce.units()[0], first));
}

/// Only the earliest and the latest offset can be listed.
pub proof fn law_other_timestamps_are_not_supported<S: Shards>(
    engine: EngineModel<S>,
    topic: Seq<u8>,
    list: ListOffsetsPartition,
    listed: ListOffsetsPartitionResult,
)
    requires
        engine.listed(topic, list, listed),
        list.timestamp != -2,
        list.timestamp != -1,
    ensures
        listed.error == UNSUPPORTED_VERSION,
        listed.offset == -1,
{
}

/// Metadata tells of every topic that is asked for, in the order of the
/// request, and marks those that do not exist; this broker leads every
/// partition.
pub proof fn law_metadata_tells_of_every_asked_topic<S: Shards>(
    engine: EngineModel<S>,
    names: Seq<Seq<u8>>,
    i: int,
)
    requires
        0 <= i < names.len(),
    ensures
        ({
            let entries = engine.topic_entries(Some(names));
            let count = engine.broker.catalog().partition_count(names[i]);
            &&& entries.len() == names.len()
            &&& entries[i].name == names[i]
            &&& entries[i].error == (if count is Some {
                NO_ERROR
            } else {
                UNKNOWN_TOPIC_OR_PARTITION
            })
            &&& count is None ==> entries[i].partitions.len() == 0
            &&& forall|p: int|
                0 <= p < entries[i].partitions.len() ==> (#[trigger] entries[i].partitions[p]).leader
                    == engine.identity.node_id
        }),
{
}

/// Each batch of an entry is appended as one unit. When the owner of the
/// partition answers one after the other, the entry is answered with the high
/// watermark from before, where its first batch begins, and the high watermark
/// moves past the records of all its batches.
pub proof fn law_batches_of_an_entry_are_appended_in_order<S: Shards>(
    engine: EngineModel<S>,
    shard: ShardModel,
    topic: Seq<u8>,
    produce: ProducePartitionModel,
    outcomes: Seq<Result<i64, BrokerError>>,
)
    requires
        runtime_laws::logs_wf(shard),
        shard.catalog.checked(topic, produce.partition) is Ok,
        produce.batches.len() > 0,
        runtime_laws::appendable(shard, topic, produce.partition, produce.batches),
        engine.appended_by(None, topic, produce, outcomes),
        forall|i: int|
            0 <= i < outcomes.len() ==> #[trigger] outcomes[i] == broker::produce_answer(
                Ok(
                    runtime_laws::served(
                        shard,
                        runtime_laws::produce_requests(topic, produce.partition, produce.batches),
                    ).1[i],
                ),
            ),
    ensures
        ({
            let before = shard.log(topic, produce.partition).next_offset;
            let requests = runtime_laws::produce_requests(topic, produce.partition, produce.batches);
            let after = runtime_laws::served(shard, requests).0;
            let result = answers::produce_result(
                produce.partition,
                answers::entry_outcome(outcomes),
            );
            &&& outcomes.len() == produce.batches.len()
            &&& result.error == NO_ERROR
            &&& result.base_offset == before
            &&& after.log(topic, produce.partition).next_offset == before + runtime_laws::total_len(
                produce.batches,
            )
        }),
{
    let partition = produce.partition;
    let requests = runtime_laws::produce_requests(topic, partition, produce.batches);
    let count = produce.batches.len();
    lemma_no_stop(requests);
    assert forall|i: int| 0 <= i < outcomes.len() implies (#[trigger] outcomes[i]) is Ok by {
        runtime_laws::law_requests_are_answered_in_order(shard, requests, i);
        runtime_laws::law_batches_are_appended_in_order(
            shard,
            topic,
            partition,
            produce.batches,
            i as nat,
        );
    }
    assert(outcomes.len() == count) by {
        if outcomes.len() < count {
            assert(outcomes[outcomes.len() - 1] is Ok);
        }
    }
    runtime_laws::law_requests_are_answered_in_order(shard, requests, 0);
    runtime_laws::law_batches_are_appended_in_order(shard, topic, partition, produce.batches, 0);
    runtime_laws::law_batches_are_appended_in_order(shard, topic, partition, produce.batches, count);
    assert(produce.batches.take(count as int) =~= produce.batches);
    assert(produce.batches.take(0) =~= seq![]);
    assert(outcomes[0] is Ok && outcomes[outcomes.len() - 1] is Ok);
    assert(runtime_laws::state_after(shard, requests, 0) == shard);
}

proof fn lemma_no_stop(requests: Seq<PartitionRequestModel>)
    requires
        forall|i: int| 0 <= i < requests.len() ==> (#[trigger] requests[i]) is Produce,
    ensures
        runtime_laws::taken_requests(requests) == requests.len(),
    decreases requests.len(),
{
    if requests.len() > 0 {
        let rest = requests.skip(1);
        assert(requests[0] is Produce);
        assert forall|i: int| 0 <= i < rest.len() implies (#[trigger] rest[i]) is Produce by {
            assert(rest[i] == requests[i + 1]);
        }
        lemma_no_stop(rest);
    }
}

/// The first batch that is refused ends the work on an entry, and its failure is
/// the answer. The batches before it stay appended; those after it are not
/// sent.
pub proof fn law_refused_batch_ends_the_entry<S: Shards>(
    engine: EngineModel<S>,
    writer: Option<(Seq<u8>, ProducerIdentity)>,
    topic: Seq<u8>,
    produce: ProducePartitionModel,
    outcomes: Seq<Result<i64, BrokerError>>,
    error: BrokerError,
    i: int,
)
    requires
        engine.appended_by(writer, topic, produce, outcomes),
        0 <= i < outcomes.len(),
        outcomes[i] == Err::<i64, BrokerError>(error),
    ensures
        i == outcomes.len() - 1,
        forall|k: int| 0 <= k < i ==> (#[trigger] outcomes[k]) is Ok,
        answers::produce_result(produce.partition, answers::entry_outcome(outcomes))
            == answers::produce_refusal(produce.partition, codes::code_of(error)),
{
}

/// Whether the shard that owns a partition answers a request in this way.
pub open spec fn owner_answers<S: Shards>(
    broker: Broker<S>,
    topic: Seq<u8>,
    partition: i32,
    request: PartitionRequestModel,
    answer: PartitionResultModel,
) -> bool {
    forall|call: CallModel| #[trigger]
        broker.can_call(topic, partition, request, call) ==> call == Ok::<
            PartitionResultModel,
            BrokerError,
        >(answer)
}

/// The record set that is fetched at the offset that a produce was answered is
/// what was produced in one batch, as far as the fetch allows, when the owner of
/// the partition handles the one request after the other.
pub proof fn law_fetch_returns_what_was_produced<S: Shards>(
    engine: EngineModel<S>,
    shard: ShardModel,
    topic: Seq<u8>,
    produce: ProducePartitionModel,
    produced: ProducePartitionResult,
    request_max_bytes: i32,
    read_committed: bool,
    partition_max_bytes: i32,
    fetched: FetchPartitionResultModel,
)
    requires
        shard.catalog == engine.broker.catalog(),
        runtime_laws::logs_wf(shard),
        shard.catalog.checked(topic, produce.partition) is Ok,
        produce.batches == seq![produce.records],
        shard.log(topic, produce.partition).has_room(produce.records),
        0 < produce.records.len() <= MAX_APPEND_RECORDS,
        ({
            let partition = produce.partition;
            let append = PartitionRequestModel::Produce {
                topic,
                partition,
                records: produce.records,
            };
            let read = PartitionRequestModel::Fetch {
                topic,
                partition,
                offset: produced.base_offset,
                max_records: engine.max_fetch_records,
                max_bytes: answers::fetch_budget(
                    partition_max_bytes,
                    request_max_bytes,
                    engine.max_fetch_bytes,
                ),
                read_committed,
            };
            let (after, answer) = shard.handled(append);
            &&& owner_answers(engine.broker, topic, partition, append, answer)
            &&& owner_answers(engine.broker, topic, partition, read, after.handled(read).1)
        }),
        engine.produced(None, topic, produce, produced),
        engine.fetched(
            request_max_bytes,
            read_committed,
            topic,
            FetchPartition {
                partition: produce.partition,
                fetch_offset: produced.base_offset,
                partition_max_bytes,
            },
            fetched,
        ),
    ensures
        produced.error == NO_ERROR,
        fetched.error == NO_ERROR,
        fetched.records == log::budgeted(
            log::stamped(produced.base_offset as int, produce.records),
            engine.max_fetch_records as nat,
            answers::fetch_budget(partition_max_bytes, request_max_bytes, engine.max_fetch_bytes) as nat,
        ),
{
    let outcomes = choose|outcomes: Seq<Result<i64, BrokerError>>| #[trigger]
        engine.appended_by(None, topic, produce, outcomes) && produced == answers::produce_result(
            produce.partition,
            answers::entry_outcome(outcomes),
        );
    let first = outcomes[0];
    assert(engine.batch_appended(None, topic, produce.partition, produce.units()[0], first));
    runtime_laws::law_produce_then_fetch(
        shard,
        topic,
        produce.partition,
        produce.records,
        engine.max_fetch_records,
        answers::fetch_budget(partition_max_bytes, request_max_bytes, engine.max_fetch_bytes),
        read_committed,
    );
}

} // verus!
