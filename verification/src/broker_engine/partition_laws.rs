//! What producers and readers get from the shards that own partitions.

use vstd::prelude::*;

use crate::broker_core::coordination::{CompletionModel, CoordinationError, ProducerIdentity};
use crate::broker_core::error::LogError;
use crate::broker_core::log::{WindowModel, MAX_APPEND_RECORDS};
use crate::broker_core::log_laws;
use crate::broker_engine::answers::{self, EngineModel};
use crate::broker_engine::codes;
use crate::broker_engine::end_to_end;
use crate::broker_runtime::error::BrokerError;
use crate::broker_runtime::links::Shards;
use crate::broker_runtime::message::{
    CoordinationRequestModel, CoordinationResultModel, PartitionRequestModel, PartitionResultModel,
};
use crate::broker_runtime::partition::{CoordinationModel, ShardModel};
use crate::broker_runtime::runtime_laws;
use crate::broker_runtime::transaction_laws;
use crate::broker_wire::codec;
use crate::broker_wire::protocol::{Error, NO_ERROR, UNSUPPORTED_VERSION};
use crate::broker_wire::request::{
    BodyModel, FetchPartition, FetchTopicModel, HeaderModel, ListOffsetsPartition,
    ListOffsetsTopicModel, ProducePartitionModel, ProduceTopicModel, RequestModel,
};
use crate::broker_wire::response::{
    FetchPartitionResultModel, FetchResponse, FetchResponseModel, FetchTopicResultModel, Field,
    ListOffsetsPartitionResult, ListOffsetsResponse, ListOffsetsResponseModel,
    ListOffsetsTopicResultModel, ProducePartitionResult, ProduceResponse, ProduceResponseModel,
    ProduceTopicResultModel,
};

verus! {

// ---------------------------------------------------------------------------
// Producing
// ---------------------------------------------------------------------------

/// Every entry of a produce request is answered in its place, under its topic
/// and partition, as an entry of a request with that transactional id.
pub proof fn law_produce_answers_every_entry<S: Shards>(
    engine: EngineModel<S>,
    header: HeaderModel,
    transactional_id: Option<Seq<u8>>,
    acks: i16,
    timeout_ms: i32,
    topics: Seq<ProduceTopicModel>,
    r: Result<Seq<u8>, Error>,
) -> (results: Seq<ProduceTopicResultModel>)
    requires
        engine.answers(
            RequestModel {
                header,
                body: BodyModel::Produce { transactional_id, acks, timeout_ms, topics },
            },
            r,
        ),
    ensures
        r == codec::frame_result(
            header.correlation_id,
            ProduceResponse::encoded(ProduceResponseModel { topics: results, throttle_time_ms: 0 }),
        ),
        results.len() == topics.len(),
        forall|t: int|
            0 <= t < topics.len() ==> (#[trigger] results[t]).name == topics[t].name
                && results[t].partitions.len() == topics[t].partitions.len(),
        forall|t: int, p: int|
            0 <= t < topics.len() && 0 <= p < topics[t].partitions.len() ==> (
            #[trigger] results[t].partitions[p]).partition == topics[t].partitions[p].partition
                && engine.produced(
                transactional_id,
                topics[t].name,
                topics[t].partitions[p],
                results[t].partitions[p],
            ),
{
    let results = choose|results: Seq<ProduceTopicResultModel>| #[trigger]
        engine.produced_topics(transactional_id, topics, results) && r == codec::frame_result(
            header.correlation_id,
            ProduceResponse::encoded(ProduceResponseModel { topics: results, throttle_time_ms: 0 }),
        );
    assert forall|t: int| 0 <= t < topics.len() implies (#[trigger] results[t]).name
        == topics[t].name && results[t].partitions.len() == topics[t].partitions.len() by {
        assert(engine.produced_topic(transactional_id, topics[t], results[t]));
    }
    assert forall|t: int, p: int|
        0 <= t < topics.len() && 0 <= p < topics[t].partitions.len() implies (
    #[trigger] results[t].partitions[p]).partition == topics[t].partitions[p].partition
        && engine.produced(
        transactional_id,
        topics[t].name,
        topics[t].partitions[p],
        results[t].partitions[p],
    ) by {
        assert(engine.produced_topic(transactional_id, topics[t], results[t]));
        assert(engine.produced(
            transactional_id,
            topics[t].name,
            topics[t].partitions[p],
            results[t].partitions[p],
        ));
    }
    results
}

/// An entry of a request with a transactional id, whose batches carry a
/// producer, succeeds only when every one of its batches was appended in that
/// transaction by that producer. The answer is where each batch starts, and the
/// entry is answered where the first one starts.
pub proof fn law_transactional_success_is_a_transactional_append<S: Shards>(
    engine: EngineModel<S>,
    transactional_id: Seq<u8>,
    producer: ProducerIdentity,
    topic: Seq<u8>,
    entry: ProducePartitionModel,
    result: ProducePartitionResult,
) -> (bases: Seq<i64>)
    requires
        entry.producer == Some((producer.id, producer.epoch)),
        engine.produced(Some(transactional_id), topic, entry, result),
        result.error == NO_ERROR,
    ensures
        bases.len() == entry.units().len(),
        bases.len() > 0,
        result.base_offset == bases[0],
        forall|i: int|
            0 <= i < bases.len() ==> engine.broker.can_produce_transactional(
                transactional_id,
                producer,
                topic,
                entry.partition,
                entry.units()[i],
                Ok(#[trigger] bases[i]),
            ),
{
    let writer = Some((transactional_id, producer));
    let outcomes = choose|outcomes: Seq<Result<i64, BrokerError>>| #[trigger]
        engine.appended_by(writer, topic, entry, outcomes) && result == answers::produce_result(
            entry.partition,
            answers::entry_outcome(outcomes),
        );
    let bases = outcomes.map_values(|outcome: Result<i64, BrokerError>| outcome->Ok_0);
    assert forall|i: int| 0 <= i < outcomes.len() implies (#[trigger] outcomes[i]) is Ok by {
        if i == outcomes.len() - 1 {
            assert(outcomes.last() == outcomes[i]);
        }
    }
    assert forall|i: int| 0 <= i < bases.len() implies engine.broker.can_produce_transactional(
        transactional_id,
        producer,
        topic,
        entry.partition,
        entry.units()[i],
        Ok(#[trigger] bases[i]),
    ) by {
        assert(engine.batch_appended(
            writer,
            topic,
            entry.partition,
            entry.units()[i],
            outcomes[i],
        ));
    }
    bases
}

/// An entry of a request with a transactional id is checked with the coordinator
/// under that id, for the producer of its batches and for its partition, and its
/// batches go to the owner of the partition as batches of that producer. When
/// both do as asked, the entry is answered where its first batch starts.
pub proof fn law_transactional_entry_is_written_in_its_transaction<S: Shards>(
    engine: EngineModel<S>,
    transactional_id: Seq<u8>,
    producer: ProducerIdentity,
    topic: Seq<u8>,
    entry: ProducePartitionModel,
    bases: Seq<i64>,
    result: ProducePartitionResult,
)
    requires
        engine.broker.catalog().checked(topic, entry.partition) is Ok,
        entry.producer == Some((producer.id, producer.epoch)),
        engine.produced(Some(transactional_id), topic, entry, result),
        end_to_end::coordinator_replies(
            engine.broker,
            CoordinationRequestModel::ValidateProduce {
                transactional_id,
                producer,
                topic,
                partition: entry.partition,
            },
            Ok(CoordinationResultModel::Applied),
        ),
        bases.len() == entry.units().len(),
        forall|i: int|
            0 <= i < bases.len() ==> end_to_end::owner_replies(
                engine.broker,
                (topic, entry.partition),
                PartitionRequestModel::ProduceTransactional {
                    topic,
                    partition: entry.partition,
                    records: entry.units()[i],
                    producer_id: producer.id,
                },
                PartitionResultModel::Produced { base_offset: #[trigger] bases[i] },
            ),
    ensures
        result == (ProducePartitionResult {
            partition: entry.partition,
            error: NO_ERROR,
            base_offset: bases[0],
            log_append_time_ms: (-1) as i64,
        }),
{
    let writer = Some((transactional_id, producer));
    let outcomes = choose|outcomes: Seq<Result<i64, BrokerError>>| #[trigger]
        engine.appended_by(writer, topic, entry, outcomes) && result == answers::produce_result(
            entry.partition,
            answers::entry_outcome(outcomes),
        );
    assert forall|i: int| 0 <= i < outcomes.len() implies #[trigger] outcomes[i] == Ok::<
        i64,
        BrokerError,
    >(bases[i]) by {
        assert(engine.batch_appended(
            writer,
            topic,
            entry.partition,
            entry.units()[i],
            outcomes[i],
        ));
        let check = choose|check: Result<(), BrokerError>| #[trigger]
            engine.broker.can_apply(
                CoordinationRequestModel::ValidateProduce {
                    transactional_id,
                    producer,
                    topic,
                    partition: entry.partition,
                },
                check,
            ) && match check {
                Err(error) => outcomes[i] == Err::<i64, BrokerError>(error),
                Ok(_) => engine.broker.can_append(
                    producer.id,
                    topic,
                    entry.partition,
                    entry.units()[i],
                    outcomes[i],
                ),
            };
        end_to_end::lemma_applied(
            engine.broker,
            CoordinationRequestModel::ValidateProduce {
                transactional_id,
                producer,
                topic,
                partition: entry.partition,
            },
            Ok(CoordinationResultModel::Applied),
            check,
        );
        let _ = bases[i];
    }
}

/// An entry whose producer the coordinator does not let write to the partition
/// in that transaction is refused, and nothing is appended: no shard is asked.
pub proof fn law_transactional_entry_is_refused_with_its_transaction<S: Shards>(
    engine: EngineModel<S>,
    transactional_id: Seq<u8>,
    producer: ProducerIdentity,
    topic: Seq<u8>,
    entry: ProducePartitionModel,
    error: CoordinationError,
    result: ProducePartitionResult,
)
    requires
        entry.producer == Some((producer.id, producer.epoch)),
        engine.produced(Some(transactional_id), topic, entry, result),
        end_to_end::coordinator_replies(
            engine.broker,
            CoordinationRequestModel::ValidateProduce {
                transactional_id,
                producer,
                topic,
                partition: entry.partition,
            },
            Err(error),
        ),
    ensures
        result.partition == entry.partition,
        result.error == codes::code_of(BrokerError::Coordination(error)),
        result.error != NO_ERROR,
        result.base_offset == -1,
        result.log_append_time_ms == -1,
{
    let writer = Some((transactional_id, producer));
    let request = CoordinationRequestModel::ValidateProduce {
        transactional_id,
        producer,
        topic,
        partition: entry.partition,
    };
    let outcomes = choose|outcomes: Seq<Result<i64, BrokerError>>| #[trigger]
        engine.appended_by(writer, topic, entry, outcomes) && result == answers::produce_result(
            entry.partition,
            answers::entry_outcome(outcomes),
        );
    assert forall|i: int| 0 <= i < outcomes.len() implies #[trigger] outcomes[i] == Err::<
        i64,
        BrokerError,
    >(BrokerError::Coordination(error)) by {
        assert(engine.batch_appended(
            writer,
            topic,
            entry.partition,
            entry.units()[i],
            outcomes[i],
        ));
        let check = choose|check: Result<(), BrokerError>| #[trigger]
            engine.broker.can_apply(request, check) && match check {
                Err(error) => outcomes[i] == Err::<i64, BrokerError>(error),
                Ok(_) => engine.broker.can_append(
                    producer.id,
                    topic,
                    entry.partition,
                    entry.units()[i],
                    outcomes[i],
                ),
            };
        end_to_end::lemma_applied(engine.broker, request, Err(error), check);
    }
}

/// The batches of an entry of a request without a transactional id go to the
/// owner of the partition as they are. When it appends them, the entry is
/// answered where its first batch starts.
pub proof fn law_plain_entry_is_appended_by_the_owner<S: Shards>(
    engine: EngineModel<S>,
    topic: Seq<u8>,
    entry: ProducePartitionModel,
    bases: Seq<i64>,
    result: ProducePartitionResult,
)
    requires
        engine.broker.catalog().checked(topic, entry.partition) is Ok,
        engine.produced(None, topic, entry, result),
        bases.len() == entry.units().len(),
        forall|i: int|
            0 <= i < bases.len() ==> end_to_end::owner_replies(
                engine.broker,
                (topic, entry.partition),
                PartitionRequestModel::Produce {
                    topic,
                    partition: entry.partition,
                    records: entry.units()[i],
                },
                PartitionResultModel::Produced { base_offset: #[trigger] bases[i] },
            ),
    ensures
        result == (ProducePartitionResult {
            partition: entry.partition,
            error: NO_ERROR,
            base_offset: bases[0],
            log_append_time_ms: (-1) as i64,
        }),
{
    let outcomes = choose|outcomes: Seq<Result<i64, BrokerError>>| #[trigger]
        engine.appended_by(None, topic, entry, outcomes) && result == answers::produce_result(
            entry.partition,
            answers::entry_outcome(outcomes),
        );
    assert forall|i: int| 0 <= i < outcomes.len() implies #[trigger] outcomes[i] == Ok::<
        i64,
        BrokerError,
    >(bases[i]) by {
        assert(engine.batch_appended(None, topic, entry.partition, entry.units()[i], outcomes[i]));
        let _ = bases[i];
    }
}

/// What becomes of an entry of a request with a transactional id, when the
/// coordinator and the owner of the partition serve one request after the other.
/// It succeeds exactly when the transaction is open, belongs to this producer
/// and has the partition enlisted. Then no read-committed fetch at any offset is
/// answered with one of its records as long as the transaction is open, and the
/// last stable offset stays in front of them.
pub proof fn law_records_of_an_open_transaction_are_hidden<S: Shards>(
    engine: EngineModel<S>,
    coordinator: CoordinationModel,
    shard: ShardModel,
    transactional_id: Seq<u8>,
    producer: ProducerIdentity,
    topic: Seq<u8>,
    entry: ProducePartitionModel,
    produced: ProducePartitionResult,
    request_max_bytes: i32,
    asked: FetchPartition,
    budget: usize,
    fetched: FetchPartitionResultModel,
    k: int,
)
    requires
        shard.catalog == engine.broker.catalog(),
        runtime_laws::logs_wf(shard),
        shard.catalog.checked(topic, entry.partition) is Ok,
        entry.batches == seq![entry.records],
        entry.producer == Some((producer.id, producer.epoch)),
        shard.log(topic, entry.partition).has_room(entry.records),
        0 < entry.records.len() <= MAX_APPEND_RECORDS,
        0 <= k < entry.records.len(),
        asked.partition == entry.partition,
        is_budget(budget, asked.partition_max_bytes, request_max_bytes, engine.max_fetch_bytes),
        ({
            let partition = entry.partition;
            let validate = CoordinationRequestModel::ValidateProduce {
                transactional_id,
                producer,
                topic,
                partition,
            };
            let append = PartitionRequestModel::ProduceTransactional {
                topic,
                partition,
                records: entry.records,
                producer_id: producer.id,
            };
            let read = PartitionRequestModel::Fetch {
                topic,
                partition,
                offset: asked.fetch_offset,
                max_records: engine.max_fetch_records,
                max_bytes: budget,
                read_committed: true,
            };
            let (after, reply) = shard.handled(append);
            &&& end_to_end::coordinator_replies(
                engine.broker,
                validate,
                coordinator.coordinated(validate).1,
            )
            &&& end_to_end::owner_replies(engine.broker, (topic, partition), append, reply)
            &&& end_to_end::owner_replies(
                engine.broker,
                (topic, partition),
                read,
                after.handled(read).1,
            )
        }),
        engine.produced(Some(transactional_id), topic, entry, produced),
        engine.fetched(request_max_bytes, true, topic, asked, fetched),
    ensures
        ({
            let transactions = coordinator.transactions.transactions;
            produced.error == NO_ERROR <==> {
                &&& transactions.contains_key(transactional_id)
                &&& transactions[transactional_id].identity == producer
                &&& transactions[transactional_id].state is Ongoing
                &&& transactions[transactional_id].partitions.contains((topic, entry.partition))
            }
        }),
        produced.error == NO_ERROR ==> {
            &&& !fetched.records.contains(entry.records[k].at(produced.base_offset + k))
            &&& fetched.error == NO_ERROR ==> fetched.last_stable_offset <= produced.base_offset
        },
{
    let partition = entry.partition;
    let before = shard.log(topic, partition);
    assert(before.wf());
    let transaction = Some(producer.id);
    log_laws::law_append_is_contiguous(before, entry.records, transaction);
    let after = before.appended(entry.records, transaction).0;
    let last = after.batches.len() - 1;
    log_laws::law_last_stable_offset(after, last);
    log_laws::law_hidden_record_is_not_read(
        after,
        last,
        k,
        asked.fetch_offset,
        engine.max_fetch_records,
        budget,
    );
    assert(after.batches[last].records[k] == entry.records[k].at(before.next_offset + k));
    let validate = CoordinationRequestModel::ValidateProduce {
        transactional_id,
        producer,
        topic,
        partition,
    };
    assert(entry.units() == seq![entry.records]);
    match coordinator.coordinated(validate).1 {
        Err(error) => {
            law_transactional_entry_is_refused_with_its_transaction(
                engine,
                transactional_id,
                producer,
                topic,
                entry,
                error,
                produced,
            );
        },
        Ok(_) => {
            law_transactional_entry_is_written_in_its_transaction(
                engine,
                transactional_id,
                producer,
                topic,
                entry,
                seq![before.next_offset],
                produced,
            );
            match after.fetched(asked.fetch_offset, engine.max_fetch_records, budget, true) {
                Ok(window) => law_fetch_is_what_the_owner_reads(
                    engine,
                    request_max_bytes,
                    true,
                    topic,
                    asked,
                    budget,
                    window,
                    fetched,
                ),
                Err(error) => law_fetch_reports_a_refusal(
                    engine,
                    request_max_bytes,
                    true,
                    topic,
                    asked,
                    budget,
                    error,
                    fetched,
                ),
            }
        },
    }
}

// ---------------------------------------------------------------------------
// Reading
// ---------------------------------------------------------------------------

/// Whether a byte budget is the smallest of what a fetch allows the partition,
/// what it allows overall and what the engine allows; less than nothing is
/// nothing.
pub open spec fn is_budget(
    budget: usize,
    partition_max_bytes: i32,
    request_max_bytes: i32,
    limit: usize,
) -> bool {
    &&& budget <= limit
    &&& partition_max_bytes < 0 && budget == 0 || budget <= partition_max_bytes
    &&& request_max_bytes < 0 && budget == 0 || budget <= request_max_bytes
    &&& budget == limit || budget == partition_max_bytes || budget == request_max_bytes || budget
        == 0 && (partition_max_bytes < 0 || request_max_bytes < 0)
}

/// Every entry of a fetch request is answered in its place, under its topic and
/// partition, as an entry of a request with that isolation and that bound.
pub proof fn law_fetch_answers_every_entry<S: Shards>(
    engine: EngineModel<S>,
    header: HeaderModel,
    replica_id: i32,
    max_wait_ms: i32,
    min_bytes: i32,
    max_bytes: i32,
    read_committed: bool,
    topics: Seq<FetchTopicModel>,
    r: Result<Seq<u8>, Error>,
) -> (results: Seq<FetchTopicResultModel>)
    requires
        engine.answers(
            RequestModel {
                header,
                body: BodyModel::Fetch {
                    replica_id,
                    max_wait_ms,
                    min_bytes,
                    max_bytes,
                    read_committed,
                    topics,
                },
            },
            r,
        ),
    ensures
        r == codec::frame_result(
            header.correlation_id,
            FetchResponse::encoded(FetchResponseModel { topics: results, throttle_time_ms: 0 }),
        ),
        results.len() == topics.len(),
        forall|t: int|
            0 <= t < topics.len() ==> (#[trigger] results[t]).name == topics[t].name
                && results[t].partitions.len() == topics[t].partitions.len(),
        forall|t: int, p: int|
            0 <= t < topics.len() && 0 <= p < topics[t].partitions.len() ==> (
            #[trigger] results[t].partitions[p]).partition == topics[t].partitions[p].partition
                && engine.fetched(
                max_bytes,
                read_committed,
                topics[t].name,
                topics[t].partitions[p],
                results[t].partitions[p],
            ),
{
    let results = choose|results: Seq<FetchTopicResultModel>| #[trigger]
        engine.fetched_topics(max_bytes, read_committed, topics, results) && r
            == codec::frame_result(
            header.correlation_id,
            FetchResponse::encoded(FetchResponseModel { topics: results, throttle_time_ms: 0 }),
        );
    assert forall|t: int| 0 <= t < topics.len() implies (#[trigger] results[t]).name
        == topics[t].name && results[t].partitions.len() == topics[t].partitions.len() by {
        assert(engine.fetched_topic(max_bytes, read_committed, topics[t], results[t]));
    }
    assert forall|t: int, p: int|
        0 <= t < topics.len() && 0 <= p < topics[t].partitions.len() implies (
    #[trigger] results[t].partitions[p]).partition == topics[t].partitions[p].partition
        && engine.fetched(
        max_bytes,
        read_committed,
        topics[t].name,
        topics[t].partitions[p],
        results[t].partitions[p],
    ) by {
        assert(engine.fetched_topic(max_bytes, read_committed, topics[t], results[t]));
        assert(engine.fetched(
            max_bytes,
            read_committed,
            topics[t].name,
            topics[t].partitions[p],
            results[t].partitions[p],
        ));
    }
    results
}

/// A fetched partition is what its owner reads at the asked offset, for a reader
/// of the asked isolation and within the smallest of the bounds: the records,
/// the end of the log and the last stable offset.
pub proof fn law_fetch_is_what_the_owner_reads<S: Shards>(
    engine: EngineModel<S>,
    request_max_bytes: i32,
    read_committed: bool,
    topic: Seq<u8>,
    asked: FetchPartition,
    budget: usize,
    window: WindowModel,
    result: FetchPartitionResultModel,
)
    requires
        engine.broker.catalog().checked(topic, asked.partition) is Ok,
        engine.fetched(request_max_bytes, read_committed, topic, asked, result),
        is_budget(budget, asked.partition_max_bytes, request_max_bytes, engine.max_fetch_bytes),
        end_to_end::owner_replies(
            engine.broker,
            (topic, asked.partition),
            PartitionRequestModel::Fetch {
                topic,
                partition: asked.partition,
                offset: asked.fetch_offset,
                max_records: engine.max_fetch_records,
                max_bytes: budget,
                read_committed,
            },
            PartitionResultModel::Fetched(window),
        ),
    ensures
        result == (FetchPartitionResultModel {
            partition: asked.partition,
            error: NO_ERROR,
            high_watermark: window.high_watermark,
            last_stable_offset: window.last_stable_offset,
            aborted_transactions: None,
            records: window.records,
        }),
{
    assert(budget == answers::fetch_budget(
        asked.partition_max_bytes,
        request_max_bytes,
        engine.max_fetch_bytes,
    ));
}

/// A fetched partition that its owner refuses is answered with the error and
/// without records.
pub proof fn law_fetch_reports_a_refusal<S: Shards>(
    engine: EngineModel<S>,
    request_max_bytes: i32,
    read_committed: bool,
    topic: Seq<u8>,
    asked: FetchPartition,
    budget: usize,
    error: LogError,
    result: FetchPartitionResultModel,
)
    requires
        engine.broker.catalog().checked(topic, asked.partition) is Ok,
        engine.fetched(request_max_bytes, read_committed, topic, asked, result),
        is_budget(budget, asked.partition_max_bytes, request_max_bytes, engine.max_fetch_bytes),
        end_to_end::owner_replies(
            engine.broker,
            (topic, asked.partition),
            PartitionRequestModel::Fetch {
                topic,
                partition: asked.partition,
                offset: asked.fetch_offset,
                max_records: engine.max_fetch_records,
                max_bytes: budget,
                read_committed,
            },
            PartitionResultModel::Failed(error),
        ),
    ensures
        result.partition == asked.partition,
        result.error == codes::code_of(BrokerError::Core(error)),
        result.error != NO_ERROR,
        result.high_watermark == -1,
        result.last_stable_offset == -1,
        result.records.len() == 0,
{
    assert(budget == answers::fetch_budget(
        asked.partition_max_bytes,
        request_max_bytes,
        engine.max_fetch_bytes,
    ));
}

/// Every entry of a list-offsets request is answered in its place, under its
/// topic and partition.
pub proof fn law_list_offsets_answers_every_entry<S: Shards>(
    engine: EngineModel<S>,
    header: HeaderModel,
    replica_id: i32,
    topics: Seq<ListOffsetsTopicModel>,
    r: Result<Seq<u8>, Error>,
) -> (results: Seq<ListOffsetsTopicResultModel>)
    requires
        engine.answers(
            RequestModel { header, body: BodyModel::ListOffsets { replica_id, topics } },
            r,
        ),
    ensures
        r == codec::frame_result(
            header.correlation_id,
            ListOffsetsResponse::encoded(ListOffsetsResponseModel { topics: results }),
        ),
        results.len() == topics.len(),
        forall|t: int|
            0 <= t < topics.len() ==> (#[trigger] results[t]).name == topics[t].name
                && results[t].partitions.len() == topics[t].partitions.len(),
        forall|t: int, p: int|
            0 <= t < topics.len() && 0 <= p < topics[t].partitions.len() ==> (
            #[trigger] results[t].partitions[p]).partition == topics[t].partitions[p].partition
                && engine.listed(topics[t].name, topics[t].partitions[p], results[t].partitions[p]),
{
    let results = choose|results: Seq<ListOffsetsTopicResultModel>| #[trigger]
        engine.listed_topics(topics, results) && r == codec::frame_result(
            header.correlation_id,
            ListOffsetsResponse::encoded(ListOffsetsResponseModel { topics: results }),
        );
    assert forall|t: int| 0 <= t < topics.len() implies (#[trigger] results[t]).name
        == topics[t].name && results[t].partitions.len() == topics[t].partitions.len() by {
        assert(engine.listed_topic(topics[t], results[t]));
    }
    assert forall|t: int, p: int|
        0 <= t < topics.len() && 0 <= p < topics[t].partitions.len() implies (
    #[trigger] results[t].partitions[p]).partition == topics[t].partitions[p].partition
        && engine.listed(topics[t].name, topics[t].partitions[p], results[t].partitions[p]) by {
        assert(engine.listed_topic(topics[t], results[t]));
        assert(engine.listed(topics[t].name, topics[t].partitions[p], results[t].partitions[p]));
    }
    results
}

/// The timestamp -2 asks for the start of a partition and -1 for its end. When
/// its owner holds this log, the answer to the first is the offset of the oldest
/// record that is kept, or the end where none is, and the answer to the second
/// is the offset that the next record will get.
pub proof fn law_listed_offsets_are_the_ends_of_the_log<S: Shards>(
    engine: EngineModel<S>,
    shard: ShardModel,
    topic: Seq<u8>,
    asked: ListOffsetsPartition,
    result: ListOffsetsPartitionResult,
)
    requires
        asked.timestamp == -1 || asked.timestamp == -2,
        shard.catalog == engine.broker.catalog(),
        shard.catalog.checked(topic, asked.partition) is Ok,
        engine.listed(topic, asked, result),
        ({
            let request = PartitionRequestModel::ListOffset {
                topic,
                partition: asked.partition,
                earliest: asked.timestamp == -2,
            };
            end_to_end::owner_replies(
                engine.broker,
                (topic, asked.partition),
                request,
                shard.handled(request).1,
            )
        }),
    ensures
        result.partition == asked.partition,
        result.error == NO_ERROR,
        result.timestamp_ms == -1,
        ({
            let log = shard.log(topic, asked.partition);
            if asked.timestamp == -2 && log.batches.len() > 0 {
                result.offset == log.batches[0].base_offset
            } else {
                result.offset == log.next_offset
            }
        }),
{
}

// ---------------------------------------------------------------------------
// Ending a transaction
// ---------------------------------------------------------------------------

/// What the end of a transaction means for readers, when the shards serve one
/// request after the other. The request is answered without an error. Of a
/// record that the producer had written to an enlisted partition, a
/// read-committed fetch at any offset is never answered with it when the flag of
/// the request was not set; a fetch at its offset is answered with it when the
/// flag was set, and so is one that reads everything in any case.
pub proof fn law_end_txn_decides_what_is_fetched<S: Shards>(
    engine: EngineModel<S>,
    shards: Seq<ShardModel>,
    header: HeaderModel,
    transactional_id: Seq<u8>,
    producer: ProducerIdentity,
    commit: bool,
    completion: CompletionModel,
    r: Result<Seq<u8>, Error>,
    place: (Seq<u8>, i32),
    b: int,
    k: int,
    request_max_bytes: i32,
    read_committed: bool,
    asked: FetchPartition,
    budget: usize,
    fetched: FetchPartitionResultModel,
)
    requires
        engine.broker.shards().count() == shards.len(),
        shards.len() > 0,
        shards[0].coordination.transactions.ended(transactional_id, producer).1 == Ok::<
            CompletionModel,
            CoordinationError,
        >(completion),
        commit ==> forall|i: int|
            0 <= i < completion.offsets.len() ==> transaction_laws::takes(
                shards[0].coordination.groups,
                #[trigger] completion.offsets[i],
            ),
        engine.answers(
            RequestModel {
                header,
                body: BodyModel::EndTxn {
                    transactional_id,
                    producer_id: producer.id,
                    producer_epoch: producer.epoch,
                    commit,
                },
            },
            r,
        ),
        ({
            let end = CoordinationRequestModel::EndTransaction {
                transactional_id,
                producer,
                commit,
            };
            let resolve = PartitionRequestModel::ResolveTransaction {
                producer_id: producer.id,
                commit,
            };
            &&& end_to_end::coordinator_replies(
                engine.broker,
                end,
                shards[0].coordination.coordinated(end).1,
            )
            &&& forall|i: int|
                0 <= i < completion.partitions.len() ==> end_to_end::owner_replies(
                    engine.broker,
                    #[trigger] completion.partitions[i],
                    resolve,
                    PartitionResultModel::Resolved,
                )
        }),
        commit ==> forall|i: int|
            0 <= i < completion.offsets.len() ==> end_to_end::coordinator_replies(
                engine.broker,
                CoordinationRequestModel::CommitOffset {
                    group_id: (#[trigger] completion.offsets[i]).group_id,
                    generation: completion.offsets[i].generation,
                    topic: completion.offsets[i].topic,
                    partition: completion.offsets[i].partition,
                    offset: completion.offsets[i].offset,
                },
                Ok(CoordinationResultModel::Applied),
            ),
        completion.partitions.contains(place),
        ({
            let shard = shards[transaction_laws::owner(shards, place) as int];
            let log = shard.log(place.0, place.1);
            &&& shard.catalog == engine.broker.catalog()
            &&& shard.catalog.checked(place.0, place.1) is Ok
            &&& log.wf()
            &&& 0 <= b < log.batches.len()
            &&& 0 <= k < log.batches[b].records.len()
            &&& log.batches[b].transaction == Some(producer.id)
        }),
        engine.max_fetch_records > 0,
        asked.partition == place.1,
        is_budget(budget, asked.partition_max_bytes, request_max_bytes, engine.max_fetch_bytes),
        engine.fetched(request_max_bytes, read_committed, place.0, asked, fetched),
        ({
            let after = transaction_laws::ended(
                shards,
                transactional_id,
                producer,
                commit,
                completion,
            )[transaction_laws::owner(shards, place) as int];
            let read = PartitionRequestModel::Fetch {
                topic: place.0,
                partition: place.1,
                offset: asked.fetch_offset,
                max_records: engine.max_fetch_records,
                max_bytes: budget,
                read_committed,
            };
            end_to_end::owner_replies(engine.broker, place, read, after.handled(read).1)
        }),
    ensures
        r is Ok,
        end_to_end::code_at(r->Ok_0, 12) == NO_ERROR,
        ({
            let home = transaction_laws::owner(shards, place) as int;
            let record = shards[home].log(place.0, place.1).batches[b].records[k];
            &&& read_committed && !commit ==> !fetched.records.contains(record)
            &&& asked.fetch_offset == record.offset && (commit || !read_committed) ==> fetched.error
                == NO_ERROR && fetched.records.len() > 0 && fetched.records[0] == record
        }),
{
    end_to_end::law_end_txn_ends_with_the_flag_of_the_request(
        engine,
        header,
        transactional_id,
        producer,
        commit,
        completion,
        r,
    );
    transaction_laws::law_ending_decides_what_is_read(
        shards,
        transactional_id,
        producer,
        commit,
        completion,
        place,
        b,
        k,
        asked.fetch_offset,
        engine.max_fetch_records,
        budget,
    );
    transaction_laws::law_ending_settles_partitions_and_offsets(
        shards,
        transactional_id,
        producer,
        commit,
        completion,
        place,
        place.0,
        place.0,
        place.1,
    );
    let home = transaction_laws::owner(shards, place) as int;
    let after = transaction_laws::ended(
        shards,
        transactional_id,
        producer,
        commit,
        completion,
    )[home];
    let log = after.log(place.0, place.1);
    match log.fetched(asked.fetch_offset, engine.max_fetch_records, budget, read_committed) {
        Ok(window) => law_fetch_is_what_the_owner_reads(
            engine,
            request_max_bytes,
            read_committed,
            place.0,
            asked,
            budget,
            window,
            fetched,
        ),
        Err(error) => law_fetch_reports_a_refusal(
            engine,
            request_max_bytes,
            read_committed,
            place.0,
            asked,
            budget,
            error,
            fetched,
        ),
    }
}

// ---------------------------------------------------------------------------
// Refusals
// ---------------------------------------------------------------------------

/// An entry of a request with a transactional id, whose batches carry no
/// producer, is not supported: nothing is appended.
pub proof fn law_transactional_entry_needs_a_producer<S: Shards>(
    engine: EngineModel<S>,
    transactional_id: Seq<u8>,
    topic: Seq<u8>,
    entry: ProducePartitionModel,
    result: ProducePartitionResult,
)
    requires
        entry.producer is None,
        engine.produced(Some(transactional_id), topic, entry, result),
    ensures
        result == (ProducePartitionResult {
            partition: entry.partition,
            error: UNSUPPORTED_VERSION,
            base_offset: (-1) as i64,
            log_append_time_ms: (-1) as i64,
        }),
{
}

} // verus!
