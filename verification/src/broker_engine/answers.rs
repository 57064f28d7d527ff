//! What a request is answered.

use vstd::prelude::*;

use crate::broker_core::coordination::{AssignmentModel, GroupAssignment, ProducerIdentity};
use crate::broker_core::log::{DataModel, FetchWindow, WindowModel};
use crate::broker_engine::codes::{self, coordination_error_code, error_code};
use crate::broker_engine::config::IdentityModel;
use crate::broker_engine::groups::{self, encode_subscription, group_protocol_name};
use crate::broker_runtime::broker::{self, Broker};
use crate::broker_runtime::error::BrokerError;
use crate::broker_runtime::links::Shards;
use crate::broker_runtime::message::CoordinationRequestModel;
use crate::broker_wire::codec;
use crate::broker_wire::protocol::{
    api, COORDINATION_VERSIONS, Error, INVALID_REQUEST, NO_ERROR, SUPPORTED_VERSIONS,
    UNKNOWN_SERVER_ERROR, UNKNOWN_TOPIC_OR_PARTITION, UNSUPPORTED_VERSION,
};
use crate::broker_wire::request::{
    self, BodyModel, FetchPartition, FetchTopicModel, ListOffsetsPartition, ListOffsetsTopicModel,
    ProducePartitionModel, ProduceTopicModel, RequestModel,
};
use crate::broker_wire::response::{
    self, encode_join_group, BrokerMetadataModel, FetchPartitionResult, FetchPartitionResultModel,
    FetchResponse, FetchResponseModel, FetchTopicResultModel, Field, FindCoordinatorResponse,
    FindCoordinatorResponseModel, InitProducerIdResponse, JoinGroupResponse,
    JoinGroupResponseModel, ListOffsetsPartitionResult, ListOffsetsResponse,
    ListOffsetsResponseModel, ListOffsetsTopicResultModel, MetadataResponse, MetadataResponseModel,
    PartitionMetadataModel, ProducePartitionResult, ProduceResponse, ProduceResponseModel,
    ProduceTopicResultModel, TopicMetadataModel, TransactionPartitionResultModel,
};
use crate::bytes::copy_bytes;

verus! {

broadcast use crate::bytes::lemma_bytes_deep_view, crate::bytes::lemma_slice_deep_view;

/// What an engine knows that decides its answers.
pub struct EngineModel<S: Shards> {
    /// The broker that is asked.
    pub broker: Broker<S>,
    /// How the broker identifies itself.
    pub identity: IdentityModel,
    /// Maximum records returned per fetch partition.
    pub max_fetch_records: usize,
    /// Maximum approximate bytes returned per fetch partition.
    pub max_fetch_bytes: usize,
}

/// Every version that is advertised.
pub open spec fn advertised_versions() -> Seq<(i16, i16, i16)> {
    SUPPORTED_VERSIONS@ + COORDINATION_VERSIONS@
}

/// The metadata of the partitions of a topic: this broker leads them all.
pub open spec fn partition_entries(node_id: i32, count: i32) -> Seq<PartitionMetadataModel> {
    Seq::new(
        if count > 0 {
            count as nat
        } else {
            0
        },
        |i: int|
            PartitionMetadataModel {
                error: NO_ERROR,
                partition: i as i32,
                leader: node_id,
                replicas: seq![node_id],
                isr: seq![node_id],
            },
    )
}

/// The metadata of a topic with a known partition count, or of one that does
/// not exist.
pub open spec fn topic_entry(node_id: i32, name: Seq<u8>, count: Option<i32>) -> TopicMetadataModel {
    match count {
        Some(count) => TopicMetadataModel {
            error: NO_ERROR,
            name,
            is_internal: false,
            partitions: partition_entries(node_id, count),
        },
        None => TopicMetadataModel {
            error: UNKNOWN_TOPIC_OR_PARTITION,
            name,
            is_internal: false,
            partitions: seq![],
        },
    }
}

impl<S: Shards> EngineModel<S> {
    /// The metadata of the asked topics, or of all of them.
    pub open spec fn topic_entries(self, topics: Option<Seq<Seq<u8>>>) -> Seq<TopicMetadataModel> {
        match topics {
            None => {
                let listed = self.broker.catalog().listed();
                Seq::new(
                    listed.len(),
                    |i: int|
                        topic_entry(
                            self.identity.node_id,
                            listed[i].name,
                            Some(listed[i].partitions),
                        ),
                )
            },
            Some(names) => Seq::new(
                names.len(),
                |i: int|
                    topic_entry(
                        self.identity.node_id,
                        names[i],
                        self.broker.catalog().partition_count(names[i]),
                    ),
            ),
        }
    }

    /// The answer to a metadata request.
    pub open spec fn metadata_response(self, topics: Option<Seq<Seq<u8>>>) -> MetadataResponseModel {
        MetadataResponseModel {
            brokers: seq![
                BrokerMetadataModel {
                    node_id: self.identity.node_id,
                    host: self.identity.host,
                    port: self.identity.port,
                },
            ],
            controller_id: self.identity.node_id,
            topics: self.topic_entries(topics),
        }
    }

    /// The answer to a find-coordinator request: this broker.
    pub open spec fn coordinator_response(self) -> FindCoordinatorResponseModel {
        FindCoordinatorResponseModel {
            error: NO_ERROR,
            node_id: self.identity.node_id,
            host: self.identity.host,
            port: self.identity.port,
        }
    }
}

/// The answer to an initialisation, from what the broker said.
pub open spec fn init_response(outcome: Result<ProducerIdentity, BrokerError>) -> InitProducerIdResponse {
    match outcome {
        Ok(identity) => InitProducerIdResponse {
            error: NO_ERROR,
            producer_id: identity.id,
            producer_epoch: identity.epoch,
        },
        Err(_) => init_refusal(UNKNOWN_SERVER_ERROR),
    }
}

/// An initialisation that issued no identity.
pub open spec fn init_refusal(error: i16) -> InitProducerIdResponse {
    InitProducerIdResponse { error, producer_id: (-1) as i64, producer_epoch: (-1) as i16 }
}

/// The member id that a join is about.
pub open spec fn joining_member(correlation_id: i32, member_id: Seq<u8>) -> Seq<u8> {
    if member_id.len() == 0 {
        groups::member_id_for(correlation_id)
    } else {
        member_id
    }
}

/// The answer to a join, from what the broker said. Every member of the group
/// is listed with the metadata of the one that joins.
pub open spec fn join_response(
    correlation_id: i32,
    member_id: Seq<u8>,
    subscriptions: Seq<Seq<u8>>,
    outcome: Result<(i32, Seq<AssignmentModel>), BrokerError>,
) -> Result<Seq<u8>, Error> {
    match outcome {
        Ok((generation, assignments)) => match groups::subscription_bytes(subscriptions) {
            Err(error) if assignments.len() > 0 => Err(error),
            metadata => codec::frame_result(
                correlation_id,
                JoinGroupResponse::encoded(
                    JoinGroupResponseModel {
                        error: NO_ERROR,
                        generation,
                        protocol: groups::group_protocol(),
                        leader: member_id,
                        member_id,
                        members: Seq::new(
                            assignments.len(),
                            |i: int| (assignments[i].member_id, metadata->Ok_0),
                        ),
                    },
                ),
            ),
        },
        Err(error) => codec::frame_result(
            correlation_id,
            JoinGroupResponse::encoded(
                JoinGroupResponseModel {
                    error: codes::coordination_code_of(error),
                    generation: (-1) as i32,
                    protocol: seq![],
                    leader: seq![],
                    member_id,
                    members: seq![],
                },
            ),
        ),
    }
}

/// The committed offset and error code that an offset fetch answers.
pub open spec fn offset_fetch_response(outcome: Result<Option<i64>, BrokerError>) -> (i64, i16) {
    match outcome {
        Ok(Some(offset)) => (offset, NO_ERROR),
        Ok(None) => ((-1) as i64, NO_ERROR),
        Err(error) => ((-1) as i64, codes::coordination_code_of(error)),
    }
}

/// The result of one produced partition, from what the broker said.
pub open spec fn produce_result(partition: i32, outcome: Result<i64, BrokerError>) -> ProducePartitionResult {
    match outcome {
        Ok(base_offset) => ProducePartitionResult {
            partition,
            error: NO_ERROR,
            base_offset,
            log_append_time_ms: (-1) as i64,
        },
        Err(error) => produce_refusal(partition, codes::code_of(error)),
    }
}

/// The result of a partition whose records were not appended.
pub open spec fn produce_refusal(partition: i32, error: i16) -> ProducePartitionResult {
    ProducePartitionResult {
        partition,
        error,
        base_offset: (-1) as i64,
        log_append_time_ms: (-1) as i64,
    }
}

/// The byte budget of one fetched partition: the smallest of what the request
/// allows the partition, what it allows overall, and what the engine allows.
pub open spec fn fetch_budget(partition_max_bytes: i32, request_max_bytes: i32, limit: usize) -> usize {
    let asked = if partition_max_bytes <= request_max_bytes {
        partition_max_bytes
    } else {
        request_max_bytes
    };
    if asked <= 0 {
        0
    } else if asked < limit {
        asked as usize
    } else {
        limit
    }
}

/// The result of one fetched partition, from what the broker said.
pub open spec fn fetch_result(partition: i32, outcome: Result<WindowModel, BrokerError>) -> FetchPartitionResultModel {
    match outcome {
        Ok(window) => FetchPartitionResultModel {
            partition,
            error: NO_ERROR,
            high_watermark: window.high_watermark,
            last_stable_offset: window.last_stable_offset,
            aborted_transactions: None,
            records: window.records,
        },
        Err(error) => FetchPartitionResultModel {
            partition,
            error: codes::code_of(error),
            high_watermark: (-1) as i64,
            last_stable_offset: (-1) as i64,
            aborted_transactions: None,
            records: seq![],
        },
    }
}

/// The result of one listed partition, from what the broker said.
pub open spec fn offset_result(partition: i32, outcome: Result<i64, BrokerError>) -> ListOffsetsPartitionResult {
    match outcome {
        Ok(offset) => ListOffsetsPartitionResult {
            partition,
            error: NO_ERROR,
            timestamp_ms: (-1) as i64,
            offset,
        },
        Err(error) => offset_refusal(partition, codes::code_of(error)),
    }
}

/// The result of a partition whose offset is not known.
pub open spec fn offset_refusal(partition: i32, error: i16) -> ListOffsetsPartitionResult {
    ListOffsetsPartitionResult {
        partition,
        error,
        timestamp_ms: (-1) as i64,
        offset: (-1) as i64,
    }
}

/// Whether batches were appended in order, up to the last of `count` or up to
/// the first failure: what comes before a failure was appended, and what comes
/// after it was not sent.
pub open spec fn in_turn(outcomes: Seq<Result<i64, BrokerError>>, count: nat) -> bool {
    &&& outcomes.len() <= count
    &&& forall|i: int| 0 <= i < outcomes.len() - 1 ==> (#[trigger] outcomes[i]) is Ok
    &&& outcomes.len() < count ==> outcomes.len() > 0 && outcomes.last() is Err
}

/// What an entry is answered, from what its batches were answered: the base
/// offset of the first batch, or the failure that ended the work.
pub open spec fn entry_outcome(outcomes: Seq<Result<i64, BrokerError>>) -> Result<i64, BrokerError> {
    if outcomes.last() is Err {
        outcomes.last()
    } else {
        outcomes[0]
    }
}

/// Who writes in a transaction: its id, and the producer of the batches.
pub open spec fn writer(transactional_id: Option<Seq<u8>>, producer: Option<ProducerIdentity>) -> Option<
    (Seq<u8>, ProducerIdentity),
> {
    match (transactional_id, producer) {
        (Some(id), Some(producer)) => Some((id, producer)),
        _ => None,
    }
}

impl<S: Shards> EngineModel<S> {
    /// Whether a produced partition can get this result. A transactional
    /// request whose batches carry no producer is not supported; everything
    /// else is what the broker says of the batches.
    pub open spec fn produced(
        self,
        transactional_id: Option<Seq<u8>>,
        topic: Seq<u8>,
        partition: ProducePartitionModel,
        result: ProducePartitionResult,
    ) -> bool {
        match (transactional_id, partition.producer) {
            (Some(_), None) => result == produce_refusal(partition.partition, UNSUPPORTED_VERSION),
            (Some(transactional_id), Some((id, epoch))) => self.appended(
                Some((transactional_id, ProducerIdentity { id, epoch })),
                topic,
                partition,
                result,
            ),
            (None, _) => self.appended(None, topic, partition, result),
        }
    }

    /// Whether one batch can be answered this way.
    pub open spec fn batch_appended(
        self,
        writer: Option<(Seq<u8>, ProducerIdentity)>,
        topic: Seq<u8>,
        partition: i32,
        records: Seq<DataModel>,
        outcome: Result<i64, BrokerError>,
    ) -> bool {
        match writer {
            None => self.broker.can_produce(topic, partition, records, outcome),
            Some((transactional_id, producer)) => self.broker.can_produce_transactional(
                transactional_id,
                producer,
                topic,
                partition,
                records,
                outcome,
            ),
        }
    }

    /// Whether the batches of an entry can be answered this way. Each batch is
    /// appended as one unit, one after the other; the first that is refused is
    /// the last that is sent. An entry without records is still asked for.
    pub open spec fn appended_by(
        self,
        writer: Option<(Seq<u8>, ProducerIdentity)>,
        topic: Seq<u8>,
        partition: ProducePartitionModel,
        outcomes: Seq<Result<i64, BrokerError>>,
    ) -> bool {
        &&& in_turn(outcomes, partition.units().len())
        &&& forall|i: int|
            0 <= i < outcomes.len() ==> self.batch_appended(
                writer,
                topic,
                partition.partition,
                partition.units()[i],
                #[trigger] outcomes[i],
            )
    }

    /// Whether a partition whose batches are appended can get this result.
    pub open spec fn appended(
        self,
        writer: Option<(Seq<u8>, ProducerIdentity)>,
        topic: Seq<u8>,
        partition: ProducePartitionModel,
        result: ProducePartitionResult,
    ) -> bool {
        exists|outcomes: Seq<Result<i64, BrokerError>>| #[trigger]
            self.appended_by(writer, topic, partition, outcomes) && result == produce_result(
                partition.partition,
                entry_outcome(outcomes),
            )
    }

    /// Whether a produced topic can get this result.
    pub open spec fn produced_topic(
        self,
        transactional_id: Option<Seq<u8>>,
        topic: ProduceTopicModel,
        result: ProduceTopicResultModel,
    ) -> bool {
        &&& result.name == topic.name
        &&& result.partitions.len() == topic.partitions.len()
        &&& forall|i: int|
            0 <= i < topic.partitions.len() ==> self.produced(
                transactional_id,
                topic.name,
                #[trigger] topic.partitions[i],
                result.partitions[i],
            )
    }

    /// Whether a produce request can be answered with these topics.
    pub open spec fn produced_topics(
        self,
        transactional_id: Option<Seq<u8>>,
        topics: Seq<ProduceTopicModel>,
        results: Seq<ProduceTopicResultModel>,
    ) -> bool {
        &&& results.len() == topics.len()
        &&& forall|i: int|
            0 <= i < topics.len() ==> self.produced_topic(
                transactional_id,
                #[trigger] topics[i],
                results[i],
            )
    }

    /// Whether a fetched partition can get this result: what the broker says
    /// of the asked offset, within the bounds of the request and the engine.
    pub open spec fn fetched(
        self,
        request_max_bytes: i32,
        read_committed: bool,
        topic: Seq<u8>,
        partition: FetchPartition,
        result: FetchPartitionResultModel,
    ) -> bool {
        exists|outcome: Result<WindowModel, BrokerError>| #[trigger]
            self.broker.can_fetch(
                topic,
                partition.partition,
                partition.fetch_offset,
                self.max_fetch_records,
                fetch_budget(
                    partition.partition_max_bytes,
                    request_max_bytes,
                    self.max_fetch_bytes,
                ),
                read_committed,
                outcome,
            ) && result == fetch_result(partition.partition, outcome)
    }

    /// Whether a fetched topic can get this result.
    pub open spec fn fetched_topic(
        self,
        request_max_bytes: i32,
        read_committed: bool,
        topic: FetchTopicModel,
        result: FetchTopicResultModel,
    ) -> bool {
        &&& result.name == topic.name
        &&& result.partitions.len() == topic.partitions.len()
        &&& forall|i: int|
            0 <= i < topic.partitions.len() ==> self.fetched(
                request_max_bytes,
                read_committed,
                topic.name,
                #[trigger] topic.partitions[i],
                result.partitions[i],
            )
    }

    /// Whether a fetch request can be answered with these topics.
    pub open spec fn fetched_topics(
        self,
        request_max_bytes: i32,
        read_committed: bool,
        topics: Seq<FetchTopicModel>,
        results: Seq<FetchTopicResultModel>,
    ) -> bool {
        &&& results.len() == topics.len()
        &&& forall|i: int|
            0 <= i < topics.len() ==> self.fetched_topic(
                request_max_bytes,
                read_committed,
                #[trigger] topics[i],
                results[i],
            )
    }

    /// Whether a listed partition can get this result. Only the earliest and
    /// the latest offset can be asked for.
    pub open spec fn listed(
        self,
        topic: Seq<u8>,
        partition: ListOffsetsPartition,
        result: ListOffsetsPartitionResult,
    ) -> bool {
        let earliest = partition.timestamp == -2;
        if earliest || partition.timestamp == -1 {
            exists|outcome: Result<i64, BrokerError>| #[trigger]
                self.broker.can_list(topic, partition.partition, earliest, outcome) && result
                    == offset_result(partition.partition, outcome)
        } else {
            result == offset_refusal(partition.partition, UNSUPPORTED_VERSION)
        }
    }

    /// Whether a listed topic can get this result.
    pub open spec fn listed_topic(
        self,
        topic: ListOffsetsTopicModel,
        result: ListOffsetsTopicResultModel,
    ) -> bool {
        &&& result.name == topic.name
        &&& result.partitions.len() == topic.partitions.len()
        &&& forall|i: int|
            0 <= i < topic.partitions.len() ==> self.listed(
                topic.name,
                #[trigger] topic.partitions[i],
                result.partitions[i],
            )
    }

    /// Whether a list-offsets request can be answered with these topics.
    pub open spec fn listed_topics(
        self,
        topics: Seq<ListOffsetsTopicModel>,
        results: Seq<ListOffsetsTopicResultModel>,
    ) -> bool {
        &&& results.len() == topics.len()
        &&& forall|i: int|
            0 <= i < topics.len() ==> self.listed_topic(#[trigger] topics[i], results[i])
    }

    /// Whether an enlisted partition can get this result.
    pub open spec fn enlisted(
        self,
        transactional_id: Seq<u8>,
        producer: ProducerIdentity,
        topic: Seq<u8>,
        partition: i32,
        result: (i32, i16),
    ) -> bool {
        exists|outcome: Result<(), BrokerError>| #[trigger]
            self.broker.can_apply(
                CoordinationRequestModel::AddPartition {
                    transactional_id,
                    producer,
                    topic,
                    partition,
                },
                outcome,
            ) && result == (partition, codes::outcome_code(outcome))
    }

    /// Whether the enlisted partitions of a topic can get this result.
    pub open spec fn enlisted_topic(
        self,
        transactional_id: Seq<u8>,
        producer: ProducerIdentity,
        topic: (Seq<u8>, Seq<i32>),
        result: TransactionPartitionResultModel,
    ) -> bool {
        &&& result.topic == topic.0
        &&& result.partitions.len() == topic.1.len()
        &&& forall|i: int|
            0 <= i < topic.1.len() ==> self.enlisted(
                transactional_id,
                producer,
                topic.0,
                #[trigger] topic.1[i],
                result.partitions[i],
            )
    }

    /// Whether an add-partitions request can be answered with these topics.
    pub open spec fn enlisted_topics(
        self,
        transactional_id: Seq<u8>,
        producer: ProducerIdentity,
        topics: Seq<(Seq<u8>, Seq<i32>)>,
        results: Seq<TransactionPartitionResultModel>,
    ) -> bool {
        &&& results.len() == topics.len()
        &&& forall|i: int|
            0 <= i < topics.len() ==> self.enlisted_topic(
                transactional_id,
                producer,
                #[trigger] topics[i],
                results[i],
            )
    }

    /// Whether a request for the identity of a transactional producer can be
    /// answered this way.
    pub open spec fn issue_answer(
        self,
        correlation_id: i32,
        transactional_id: Seq<u8>,
        r: Result<Seq<u8>, Error>,
    ) -> bool {
        exists|outcome: Result<ProducerIdentity, BrokerError>| #[trigger]
            self.broker.can_init(transactional_id, outcome) && r == codec::frame_result(
                correlation_id,
                InitProducerIdResponse::encoded(init_response(outcome)),
            )
    }

    /// Whether an init-producer-id request can be answered this way.
    pub open spec fn init_answer(
        self,
        correlation_id: i32,
        transactional_id: Option<Seq<u8>>,
        r: Result<Seq<u8>, Error>,
    ) -> bool {
        match transactional_id {
            Some(transactional_id) => self.issue_answer(correlation_id, transactional_id, r),
            None => r == codec::frame_result(
                correlation_id,
                InitProducerIdResponse::encoded(init_refusal(INVALID_REQUEST)),
            ),
        }
    }

    /// Whether an add-partitions request can be answered this way.
    pub open spec fn enlist_answer(
        self,
        correlation_id: i32,
        transactional_id: Seq<u8>,
        producer: ProducerIdentity,
        topics: Seq<(Seq<u8>, Seq<i32>)>,
        r: Result<Seq<u8>, Error>,
    ) -> bool {
        exists|results: Seq<TransactionPartitionResultModel>| #[trigger]
            self.enlisted_topics(transactional_id, producer, topics, results) && r
                == codec::frame_result(
                correlation_id,
                response::add_partitions_to_txn_bytes(results),
            )
    }

    /// Whether an end-transaction request can be answered this way.
    pub open spec fn end_answer(
        self,
        correlation_id: i32,
        transactional_id: Seq<u8>,
        producer: ProducerIdentity,
        commit: bool,
        r: Result<Seq<u8>, Error>,
    ) -> bool {
        exists|outcome: Result<(), BrokerError>| #[trigger]
            self.broker.can_end(transactional_id, producer, commit, outcome) && r == Ok::<
                Seq<u8>,
                Error,
            >(
                codec::frame_bytes(
                    correlation_id,
                    codec::i32_bytes(0) + codec::i16_bytes(codes::outcome_code(outcome)),
                ),
            )
    }

    /// Whether a join can be answered this way.
    pub open spec fn join_answer(
        self,
        correlation_id: i32,
        group_id: Seq<u8>,
        member_id: Seq<u8>,
        subscriptions: Seq<Seq<u8>>,
        r: Result<Seq<u8>, Error>,
    ) -> bool {
        let member = joining_member(correlation_id, member_id);
        exists|outcome: Result<(i32, Seq<AssignmentModel>), BrokerError>| #[trigger]
            self.broker.can_join(group_id, member, subscriptions, outcome) && r == join_response(
                correlation_id,
                member,
                subscriptions,
                outcome,
            )
    }

    /// Whether a group request that is answered with an error code alone can
    /// be answered this way.
    pub open spec fn group_error_answer(
        self,
        correlation_id: i32,
        request: CoordinationRequestModel,
        r: Result<Seq<u8>, Error>,
    ) -> bool {
        exists|outcome: Result<(), BrokerError>| #[trigger]
            self.broker.can_apply(request, outcome) && r == Ok::<Seq<u8>, Error>(
                codec::frame_bytes(correlation_id, codec::i16_bytes(codes::outcome_code(outcome))),
            )
    }

    /// Whether an offset commit can be answered this way.
    pub open spec fn offset_commit_answer(
        self,
        correlation_id: i32,
        group_id: Seq<u8>,
        generation: i32,
        topic: Seq<u8>,
        partition: i32,
        offset: i64,
        r: Result<Seq<u8>, Error>,
    ) -> bool {
        exists|outcome: Result<(), BrokerError>| #[trigger]
            self.broker.can_apply(
                CoordinationRequestModel::CommitOffset {
                    group_id,
                    generation,
                    topic,
                    partition,
                    offset,
                },
                outcome,
            ) && r == codec::frame_result(
                correlation_id,
                response::one_partition_bytes(
                    topic,
                    partition,
                    codec::i16_bytes(codes::outcome_code(outcome)),
                ),
            )
    }

    /// Whether an offset fetch can be answered this way.
    pub open spec fn offset_fetch_answer(
        self,
        correlation_id: i32,
        group_id: Seq<u8>,
        topic: Seq<u8>,
        partition: i32,
        r: Result<Seq<u8>, Error>,
    ) -> bool {
        exists|outcome: Result<Option<i64>, BrokerError>| #[trigger]
            self.broker.can_read_offset(group_id, topic, partition, outcome) && r
                == codec::frame_result(
                correlation_id,
                response::one_partition_bytes(
                    topic,
                    partition,
                    response::offset_fetch_fields(
                        offset_fetch_response(outcome).0,
                        offset_fetch_response(outcome).1,
                    ),
                ),
            )
    }

    /// Whether a produce can be answered this way.
    pub open spec fn produce_answer(
        self,
        correlation_id: i32,
        transactional_id: Option<Seq<u8>>,
        topics: Seq<ProduceTopicModel>,
        r: Result<Seq<u8>, Error>,
    ) -> bool {
        exists|results: Seq<ProduceTopicResultModel>| #[trigger]
            self.produced_topics(transactional_id, topics, results) && r == codec::frame_result(
                correlation_id,
                ProduceResponse::encoded(
                    ProduceResponseModel { topics: results, throttle_time_ms: 0 },
                ),
            )
    }

    /// Whether a fetch can be answered this way.
    pub open spec fn fetch_answer(
        self,
        correlation_id: i32,
        request_max_bytes: i32,
        read_committed: bool,
        topics: Seq<FetchTopicModel>,
        r: Result<Seq<u8>, Error>,
    ) -> bool {
        exists|results: Seq<FetchTopicResultModel>| #[trigger]
            self.fetched_topics(request_max_bytes, read_committed, topics, results) && r
                == codec::frame_result(
                correlation_id,
                FetchResponse::encoded(FetchResponseModel { throttle_time_ms: 0, topics: results }),
            )
    }

    /// Whether a list-offsets request can be answered this way.
    pub open spec fn offsets_answer(
        self,
        correlation_id: i32,
        topics: Seq<ListOffsetsTopicModel>,
        r: Result<Seq<u8>, Error>,
    ) -> bool {
        exists|results: Seq<ListOffsetsTopicResultModel>| #[trigger]
            self.listed_topics(topics, results) && r == codec::frame_result(
                correlation_id,
                ListOffsetsResponse::encoded(ListOffsetsResponseModel { topics: results }),
            )
    }

    /// Whether a request can be answered this way: one frame that echoes the
    /// correlation id, with a body that the request and what the broker said
    /// of each item decide.
    pub open spec fn answers(self, request: RequestModel, r: Result<Seq<u8>, Error>) -> bool {
        let id = request.header.correlation_id;
        match request.body {
            BodyModel::ApiVersions => r == codec::frame_result(
                id,
                response::api_versions_bytes(NO_ERROR, advertised_versions()),
            ),
            BodyModel::FindCoordinator { .. } => r == codec::frame_result(
                id,
                FindCoordinatorResponse::encoded(self.coordinator_response()),
            ),
            BodyModel::InitProducerId { transactional_id, .. } => self.init_answer(
                id,
                transactional_id,
                r,
            ),
            BodyModel::AddPartitionsToTxn {
                transactional_id,
                producer_id,
                producer_epoch,
                topics,
            } => self.enlist_answer(
                id,
                transactional_id,
                ProducerIdentity { id: producer_id, epoch: producer_epoch },
                topics,
                r,
            ),
            BodyModel::EndTxn {
                transactional_id,
                producer_id,
                producer_epoch,
                commit,
            } => self.end_answer(
                id,
                transactional_id,
                ProducerIdentity { id: producer_id, epoch: producer_epoch },
                commit,
                r,
            ),
            BodyModel::JoinGroup { group_id, member_id, subscriptions } => self.join_answer(
                id,
                group_id,
                member_id,
                subscriptions,
                r,
            ),
            BodyModel::SyncGroup { assignment, .. } => r == codec::frame_result(
                id,
                response::sync_group_bytes(NO_ERROR, assignment),
            ),
            BodyModel::Heartbeat { group_id, generation, member_id } => self.group_error_answer(
                id,
                CoordinationRequestModel::Heartbeat { group_id, member_id, generation },
                r,
            ),
            BodyModel::LeaveGroup { group_id, member_id } => self.group_error_answer(
                id,
                CoordinationRequestModel::LeaveGroupAny { group_id, member_id },
                r,
            ),
            BodyModel::OffsetCommit {
                group_id,
                generation,
                topic,
                partition,
                offset,
                ..
            } => self.offset_commit_answer(id, group_id, generation, topic, partition, offset, r),
            BodyModel::OffsetFetch { group_id, topic, partition } => self.offset_fetch_answer(
                id,
                group_id,
                topic,
                partition,
                r,
            ),
            BodyModel::Metadata { topics } => r == codec::frame_result(
                id,
                MetadataResponse::encoded(self.metadata_response(topics)),
            ),
            BodyModel::Produce { transactional_id, topics, .. } => self.produce_answer(
                id,
                transactional_id,
                topics,
                r,
            ),
            BodyModel::Fetch { max_bytes, read_committed, topics, .. } => self.fetch_answer(
                id,
                max_bytes,
                read_committed,
                topics,
                r,
            ),
            BodyModel::ListOffsets { topics, .. } => self.offsets_answer(id, topics, r),
        }
    }

    /// Whether a frame can be answered this way. A frame that cannot be
    /// decoded is answered with its error, except that an ApiVersions request
    /// of an unknown version is told which versions there are.
    pub open spec fn answers_frame(self, frame: Seq<u8>, r: Result<Seq<u8>, Error>) -> bool {
        match request::decoded_request(frame) {
            Ok(request) => self.answers(request, r),
            Err(error) => {
                let header = request::peeked_header(frame);
                if error == Error::UnsupportedVersion && header is Ok && header->Ok_0.api_key
                    == api::API_VERSIONS {
                    r == codec::frame_result(
                        header->Ok_0.correlation_id,
                        response::api_versions_bytes(UNSUPPORTED_VERSION, advertised_versions()),
                    )
                } else {
                    r == Err::<Seq<u8>, Error>(error)
                }
            },
        }
    }
}

// ---------------------------------------------------------------------------
// Results from what the broker said
// ---------------------------------------------------------------------------
/// Lists every version that is advertised.
pub(crate) fn versions() -> (r: Vec<(i16, i16, i16)>)
    ensures
        r.deep_view() == advertised_versions(),
{
    let mut all: Vec<(i16, i16, i16)> = Vec::new();
    let mut i: usize = 0;
    while i < 5
        invariant
            i <= 5,
            all@ =~= SUPPORTED_VERSIONS@.take(i as int),
        decreases 5 - i,
    {
        all.push(SUPPORTED_VERSIONS[i]);
        i += 1;
    }
    let mut k: usize = 0;
    while k < 10
        invariant
            k <= 10,
            all@ =~= SUPPORTED_VERSIONS@ + COORDINATION_VERSIONS@.take(k as int),
        decreases 10 - k,
    {
        all.push(COORDINATION_VERSIONS[k]);
        k += 1;
    }
    proof {
        assert(all.deep_view() =~= advertised_versions());
    }
    all
}

/// The answer to an initialisation, from what the broker said.
pub fn respond_init(outcome: Result<ProducerIdentity, BrokerError>) -> (r: InitProducerIdResponse)
    ensures
        r == init_response(outcome),
{
    match outcome {
        Ok(identity) => InitProducerIdResponse {
            error: NO_ERROR,
            producer_id: identity.id,
            producer_epoch: identity.epoch,
        },
        Err(_) => InitProducerIdResponse {
            error: UNKNOWN_SERVER_ERROR,
            producer_id: -1,
            producer_epoch: -1,
        },
    }
}

/// The answer to a join, from what the broker said.
pub fn respond_join(
    correlation_id: i32,
    member_id: Vec<u8>,
    subscriptions: &Vec<Vec<u8>>,
    outcome: Result<(i32, Vec<GroupAssignment>), BrokerError>,
) -> (r: Result<Vec<u8>, Error>)
    ensures
        codec::bytes_result(r) == join_response(
            correlation_id,
            member_id@,
            subscriptions.deep_view(),
            broker::group_view(outcome),
        ),
{
    match outcome {
        Ok((generation, assignments)) => {
            let ghost models = assignments.deep_view();
            let ghost metadata = groups::subscription_bytes(subscriptions.deep_view());
            let ghost wanted = Seq::new(
                models.len(),
                |i: int| (models[i].member_id, metadata->Ok_0),
            );
            let mut members: Vec<(Vec<u8>, Vec<u8>)> = Vec::new();
            let mut i: usize = 0;
            while i < assignments.len()
                invariant
                    models == assignments.deep_view(),
                    metadata == groups::subscription_bytes(subscriptions.deep_view()),
                    wanted == Seq::new(
                        models.len(),
                        |i: int| (models[i].member_id, metadata->Ok_0),
                    ),
                    broker::group_view(outcome) == Ok::<(i32, Seq<AssignmentModel>), BrokerError>(
                        (generation, models),
                    ),
                    i <= assignments.len(),
                    i > 0 ==> metadata is Ok,
                    members.deep_view() =~= wanted.take(i as int),
                decreases assignments.len() - i,
            {
                let bytes = encode_subscription(subscriptions)?;
                let member = (copy_bytes(assignments[i].member_id.as_slice()), bytes);
                let ghost before = members.deep_view();
                let ghost model = member.deep_view();
                members.push(member);
                proof {
                    assert(models[i as int] == assignments@[i as int].deep_view());
                    assert(model == wanted[i as int]);
                    assert(members.deep_view() =~= before.push(model));
                }
                i += 1;
            }
            proof {
                assert(wanted.take(i as int) =~= wanted);
                if metadata is Err {
                    assert(models.len() == 0);
                    assert(wanted =~= seq![]);
                }
            }
            let leader = copy_bytes(member_id.as_slice());
            encode_join_group(
                correlation_id,
                &JoinGroupResponse {
                    error: NO_ERROR,
                    generation,
                    protocol: group_protocol_name(),
                    leader,
                    member_id,
                    members,
                },
            )
        },
        Err(error) => {
            let response = JoinGroupResponse {
                error: coordination_error_code(error),
                generation: -1,
                protocol: Vec::new(),
                leader: Vec::new(),
                member_id,
                members: Vec::new(),
            };
            proof {
                assert(response.deep_view().members =~= seq![]);
                assert(response.protocol@ =~= seq![]);
                assert(response.leader@ =~= seq![]);
            }
            encode_join_group(correlation_id, &response)
        },
    }
}

/// The committed offset and error code that an offset fetch answers.
pub fn respond_offset_fetch(outcome: Result<Option<i64>, BrokerError>) -> (r: (i64, i16))
    ensures
        r == offset_fetch_response(outcome),
{
    match outcome {
        Ok(Some(offset)) => (offset, NO_ERROR),
        Ok(None) => (-1, NO_ERROR),
        Err(error) => (-1, coordination_error_code(error)),
    }
}

/// The result of one produced partition, from what the broker said.
pub fn respond_produce(partition: i32, outcome: Result<i64, BrokerError>) -> (r: ProducePartitionResult)
    ensures
        r == produce_result(partition, outcome),
{
    match outcome {
        Ok(base_offset) => ProducePartitionResult {
            partition,
            error: NO_ERROR,
            base_offset,
            log_append_time_ms: -1,
        },
        Err(error) => ProducePartitionResult {
            partition,
            error: error_code(error),
            base_offset: -1,
            log_append_time_ms: -1,
        },
    }
}

/// The byte budget of one fetched partition.
pub fn partition_budget(partition_max_bytes: i32, request_max_bytes: i32, limit: usize) -> (r: usize)
    ensures
        r == fetch_budget(partition_max_bytes, request_max_bytes, limit),
{
    let asked: i32 = if partition_max_bytes <= request_max_bytes {
        partition_max_bytes
    } else {
        request_max_bytes
    };
    if asked <= 0 {
        return 0;
    }
    let asked: usize = asked as usize;
    if asked < limit {
        asked
    } else {
        limit
    }
}

/// The result of one fetched partition, from what the broker said.
pub fn respond_fetch(partition: i32, outcome: Result<FetchWindow, BrokerError>) -> (r:
    FetchPartitionResult)
    ensures
        r.deep_view() == fetch_result(partition, broker::fetch_view(outcome)),
{
    match outcome {
        Ok(window) => FetchPartitionResult {
            partition,
            error: NO_ERROR,
            high_watermark: window.high_watermark,
            last_stable_offset: window.last_stable_offset,
            aborted_transactions: None,
            records: window.records,
        },
        Err(error) => {
            let result = FetchPartitionResult {
                partition,
                error: error_code(error),
                high_watermark: -1,
                last_stable_offset: -1,
                aborted_transactions: None,
                records: Vec::new(),
            };
            proof {
                assert(result.deep_view().records =~= seq![]);
            }
            result
        },
    }
}

/// The result of one listed partition, from what the broker said.
pub fn respond_offset(partition: i32, outcome: Result<i64, BrokerError>) -> (r:
    ListOffsetsPartitionResult)
    ensures
        r == offset_result(partition, outcome),
{
    match outcome {
        Ok(offset) => ListOffsetsPartitionResult {
            partition,
            error: NO_ERROR,
            timestamp_ms: -1,
            offset,
        },
        Err(error) => ListOffsetsPartitionResult {
            partition,
            error: error_code(error),
            timestamp_ms: -1,
            offset: -1,
        },
    }
}

} // verus!
