//! Dispatch of decoded requests.

use vstd::prelude::*;

use crate::broker_core::coordination::ProducerIdentity;
use crate::broker_core::log::RecordData;
use crate::broker_engine::answers::{
    self, partition_budget, respond_fetch, respond_init, respond_join, respond_offset,
    respond_offset_fetch, respond_produce, versions, EngineModel,
};
use crate::broker_engine::codes::outcome_error_code;
use crate::broker_engine::config::{BrokerIdentity, EngineConfig};
use crate::broker_engine::groups::generated_member_id;
use crate::broker_runtime::broker::{self, Broker};
use crate::broker_runtime::error::BrokerError;
use crate::broker_runtime::links::Shards;
use crate::broker_runtime::message::CoordinationRequestModel;
use crate::broker_wire::codec;
use crate::broker_wire::protocol::{
    api, Error, INVALID_REQUEST, NO_ERROR, UNKNOWN_TOPIC_OR_PARTITION, UNSUPPORTED_VERSION,
};
use crate::broker_wire::record_batch::split_batches;
use crate::broker_wire::request::{
    decode_request, peek_header, FetchPartition, FetchTopic, ListOffsetsPartition,
    ListOffsetsTopic, ProducePartition, ProduceTopic, Request, RequestBody,
};
use crate::broker_wire::response::{
    encode_add_partitions_to_txn, encode_api_versions, encode_api_versions_error, encode_end_txn,
    encode_fetch, encode_find_coordinator, encode_group_error, encode_init_producer_id,
    encode_list_offsets, encode_metadata, encode_offset_commit, encode_offset_fetch,
    encode_produce, encode_sync_group, BrokerMetadata, FetchPartitionResult, FetchResponse,
    FetchTopicResult, Field, FindCoordinatorResponse, InitProducerIdResponse,
    ListOffsetsPartitionResult, ListOffsetsResponse, ListOffsetsTopicResult, MetadataResponse,
    PartitionMetadata, ProducePartitionResult, ProduceResponse, ProduceTopicResult, TopicMetadata,
    TransactionPartitionResult,
};
use crate::bytes::copy_bytes;

verus! {

broadcast use crate::bytes::lemma_bytes_deep_view, crate::bytes::lemma_slice_deep_view;

/// Dispatches decoded requests against a broker.
pub struct Engine<S: Shards> {
    broker: Broker<S>,
    identity: BrokerIdentity,
    max_fetch_records: usize,
    max_fetch_bytes: usize,
}

impl<S: Shards> View for Engine<S> {
    type V = EngineModel<S>;

    closed spec fn view(&self) -> EngineModel<S> {
        EngineModel {
            broker: self.broker,
            identity: self.identity.deep_view(),
            max_fetch_records: self.max_fetch_records,
            max_fetch_bytes: self.max_fetch_bytes,
        }
    }
}

impl<S: Shards> Engine<S> {
    /// The broker behind the engine is well-formed.
    pub closed spec fn wf(&self) -> bool {
        self.broker.wf()
    }

    /// A well-formed engine has a well-formed broker.
    pub proof fn lemma_model_wf(&self)
        requires
            self.wf(),
        ensures
            self@.broker.wf(),
    {
    }

    /// Creates an engine over an already started broker.
    pub fn new(broker: Broker<S>, config: EngineConfig) -> (r: Self)
        requires
            broker.wf(),
        ensures
            r.wf(),
            r@ == (EngineModel {
                broker,
                identity: config.identity.deep_view(),
                max_fetch_records: config.max_fetch_records,
                max_fetch_bytes: config.max_fetch_bytes,
            }),
    {
        Engine {
            broker,
            identity: config.identity,
            max_fetch_records: config.max_fetch_records,
            max_fetch_bytes: config.max_fetch_bytes,
        }
    }

    /// The broker behind this engine.
    pub fn broker(&self) -> (r: &Broker<S>)
        ensures
            *r == self@.broker,
            self.wf() ==> r.wf(),
    {
        &self.broker
    }

    /// The metadata of the partitions of a topic.
    fn partitions(&self, count: i32) -> (r: Vec<PartitionMetadata>)
        ensures
            r.deep_view() == answers::partition_entries(self@.identity.node_id, count),
    {
        let node: i32 = self.identity.node_id;
        let ghost wanted = answers::partition_entries(node, count);
        let mut entries: Vec<PartitionMetadata> = Vec::new();
        let mut partition: i32 = 0;
        while partition < count
            invariant
                wanted == answers::partition_entries(node, count),
                0 <= partition,
                partition <= wanted.len(),
                entries.deep_view() =~= wanted.take(partition as int),
            decreases count - partition,
        {
            let entry = PartitionMetadata {
                error: NO_ERROR,
                partition,
                leader: node,
                replicas: vec![node],
                isr: vec![node],
            };
            let ghost before = entries.deep_view();
            let ghost model = entry.deep_view();
            entries.push(entry);
            proof {
                assert(model.replicas =~= seq![node]);
                assert(model.isr =~= seq![node]);
                assert(model == wanted[partition as int]);
                assert(entries.deep_view() =~= before.push(model));
            }
            partition += 1;
        }
        proof {
            assert(wanted.take(partition as int) =~= wanted);
        }
        entries
    }

    /// The metadata of one topic.
    fn topic(&self, name: &[u8], count: Option<i32>) -> (r: TopicMetadata)
        ensures
            r.deep_view() == answers::topic_entry(self@.identity.node_id, name@, count),
    {
        match count {
            Some(count) => TopicMetadata {
                error: NO_ERROR,
                name: copy_bytes(name),
                is_internal: false,
                partitions: self.partitions(count),
            },
            None => {
                let entry = TopicMetadata {
                    error: UNKNOWN_TOPIC_OR_PARTITION,
                    name: copy_bytes(name),
                    is_internal: false,
                    partitions: Vec::new(),
                };
                proof {
                    assert(entry.deep_view().partitions =~= seq![]);
                }
                entry
            },
        }
    }

    /// The metadata of the asked topics, or of all of them.
    fn topics(&self, topics: &Option<Vec<Vec<u8>>>) -> (r: Vec<TopicMetadata>)
        requires
            self.wf(),
        ensures
            r.deep_view() == self@.topic_entries(topics.deep_view()),
    {
        let ghost wanted = self@.topic_entries(topics.deep_view());
        let mut entries: Vec<TopicMetadata> = Vec::new();
        let mut i: usize = 0;
        match topics {
            None => {
                let listed = self.broker.metadata();
                let ghost models = listed.deep_view();
                while i < listed.len()
                    invariant
                        self.wf(),
                        models == listed.deep_view(),
                        models == self@.broker.catalog().listed(),
                        wanted == self@.topic_entries(None),
                        i <= listed.len(),
                        entries.deep_view() =~= wanted.take(i as int),
                    decreases listed.len() - i,
                {
                    let entry = self.topic(listed[i].name.as_slice(), Some(listed[i].partitions));
                    let ghost before = entries.deep_view();
                    let ghost model = entry.deep_view();
                    entries.push(entry);
                    proof {
                        assert(models[i as int] == listed@[i as int].deep_view());
                        assert(model == wanted[i as int]);
                        assert(entries.deep_view() =~= before.push(model));
                    }
                    i += 1;
                }
                proof {
                    assert(wanted.take(i as int) =~= wanted);
                }
            },
            Some(names) => {
                let ghost models = names.deep_view();
                while i < names.len()
                    invariant
                        self.wf(),
                        models == names.deep_view(),
                        wanted == self@.topic_entries(Some(models)),
                        i <= names.len(),
                        entries.deep_view() =~= wanted.take(i as int),
                    decreases names.len() - i,
                {
                    let name = names[i].as_slice();
                    let entry = self.topic(name, self.broker.partition_count(name));
                    let ghost before = entries.deep_view();
                    let ghost model = entry.deep_view();
                    entries.push(entry);
                    proof {
                        assert(models[i as int] == names@[i as int].deep_view());
                        assert(model == wanted[i as int]);
                        assert(entries.deep_view() =~= before.push(model));
                    }
                    i += 1;
                }
                proof {
                    assert(wanted.take(i as int) =~= wanted);
                }
            },
        }
        entries
    }

    fn metadata(&self, correlation_id: i32, topics: &Option<Vec<Vec<u8>>>) -> (r: Result<
        Vec<u8>,
        Error,
    >)
        requires
            self.wf(),
        ensures
            codec::bytes_result(r) == codec::frame_result(
                correlation_id,
                MetadataResponse::encoded(self@.metadata_response(topics.deep_view())),
            ),
    {
        let topics_model = Ghost(topics.deep_view());
        let response = MetadataResponse {
            brokers: vec![
                BrokerMetadata {
                    node_id: self.identity.node_id,
                    host: copy_bytes(self.identity.host.as_slice()),
                    port: self.identity.port,
                },
            ],
            controller_id: self.identity.node_id,
            topics: self.topics(topics),
        };
        proof {
            assert(response.brokers.deep_view() =~= self@.metadata_response(topics_model@).brokers);
            assert(response.deep_view() =~= self@.metadata_response(topics_model@));
        }
        encode_metadata(correlation_id, &response)
    }

    fn find_coordinator(&self, correlation_id: i32) -> (r: Result<Vec<u8>, Error>)
        ensures
            codec::bytes_result(r) == codec::frame_result(
                correlation_id,
                FindCoordinatorResponse::encoded(self@.coordinator_response()),
            ),
    {
        let response = FindCoordinatorResponse {
            error: NO_ERROR,
            node_id: self.identity.node_id,
            host: copy_bytes(self.identity.host.as_slice()),
            port: self.identity.port,
        };
        encode_find_coordinator(correlation_id, &response)
    }

    fn init_producer(&self, correlation_id: i32, transactional_id: &Option<Vec<u8>>) -> (r: Result<
        Vec<u8>,
        Error,
    >)
        requires
            self.wf(),
        ensures
            self@.init_answer(
                correlation_id,
                transactional_id.deep_view(),
                codec::bytes_result(r),
            ),
    {
        let ghost model = transactional_id.deep_view();
        match transactional_id {
            Some(id) => {
                let outcome = self.broker.init_producer(id.as_slice());
                proof {
                    assert(model == Some(id@));
                    assert(self@.broker.can_init(id@, outcome));
                }
                encode_init_producer_id(correlation_id, respond_init(outcome))
            },
            None => {
                proof {
                    assert(model is None);
                }
                encode_init_producer_id(
                    correlation_id,
                    InitProducerIdResponse {
                        error: INVALID_REQUEST,
                        producer_id: -1,
                        producer_epoch: -1,
                    },
                )
            },
        }
    }

    fn join_group(
        &self,
        correlation_id: i32,
        group_id: Vec<u8>,
        member_id: Vec<u8>,
        subscriptions: Vec<Vec<u8>>,
    ) -> (r: Result<Vec<u8>, Error>)
        requires
            self.wf(),
        ensures
            self@.join_answer(
                correlation_id,
                group_id@,
                member_id@,
                subscriptions.deep_view(),
                codec::bytes_result(r),
            ),
    {
        let member = if member_id.len() == 0 {
            generated_member_id(correlation_id)
        } else {
            member_id
        };
        let outcome = self.broker.join_group(
            group_id.as_slice(),
            member.as_slice(),
            copy_names(&subscriptions),
        );
        proof {
            assert(self@.broker.can_join(
                group_id@,
                member@,
                subscriptions.deep_view(),
                broker::group_view(outcome),
            ));
        }
        respond_join(correlation_id, member, &subscriptions, outcome)
    }

    fn end_txn(
        &self,
        correlation_id: i32,
        transactional_id: &[u8],
        producer: ProducerIdentity,
        commit: bool,
    ) -> (r: Result<Vec<u8>, Error>)
        requires
            self.wf(),
        ensures
            self@.end_answer(
                correlation_id,
                transactional_id@,
                producer,
                commit,
                codec::bytes_result(r),
            ),
    {
        let outcome = self.broker.end_transaction(transactional_id, producer, commit);
        proof {
            assert(self@.broker.can_end(transactional_id@, producer, commit, outcome));
        }
        encode_end_txn(correlation_id, outcome_error_code(outcome))
    }

    fn heartbeat(&self, correlation_id: i32, group_id: &[u8], member_id: &[u8], generation: i32) -> (r:
        Result<Vec<u8>, Error>)
        requires
            self.wf(),
        ensures
            self@.group_error_answer(
                correlation_id,
                CoordinationRequestModel::Heartbeat {
                    group_id: group_id@,
                    member_id: member_id@,
                    generation,
                },
                codec::bytes_result(r),
            ),
    {
        let outcome = self.broker.heartbeat_group(group_id, member_id, generation);
        proof {
            assert(self@.broker.can_apply(
                CoordinationRequestModel::Heartbeat {
                    group_id: group_id@,
                    member_id: member_id@,
                    generation,
                },
                outcome,
            ));
        }
        encode_group_error(correlation_id, outcome_error_code(outcome))
    }

    fn leave_group(&self, correlation_id: i32, group_id: &[u8], member_id: &[u8]) -> (r: Result<
        Vec<u8>,
        Error,
    >)
        requires
            self.wf(),
        ensures
            self@.group_error_answer(
                correlation_id,
                CoordinationRequestModel::LeaveGroupAny {
                    group_id: group_id@,
                    member_id: member_id@,
                },
                codec::bytes_result(r),
            ),
    {
        let outcome = self.broker.leave_group_any(group_id, member_id);
        proof {
            assert(self@.broker.can_apply(
                CoordinationRequestModel::LeaveGroupAny {
                    group_id: group_id@,
                    member_id: member_id@,
                },
                outcome,
            ));
        }
        encode_group_error(correlation_id, outcome_error_code(outcome))
    }

    fn offset_commit(
        &self,
        correlation_id: i32,
        group_id: &[u8],
        generation: i32,
        topic: &[u8],
        partition: i32,
        offset: i64,
    ) -> (r: Result<Vec<u8>, Error>)
        requires
            self.wf(),
        ensures
            self@.offset_commit_answer(
                correlation_id,
                group_id@,
                generation,
                topic@,
                partition,
                offset,
                codec::bytes_result(r),
            ),
    {
        let outcome = self.broker.commit_group_offset(
            group_id,
            generation,
            topic,
            partition,
            offset,
        );
        proof {
            assert(self@.broker.can_apply(
                CoordinationRequestModel::CommitOffset {
                    group_id: group_id@,
                    generation,
                    topic: topic@,
                    partition,
                    offset,
                },
                outcome,
            ));
        }
        encode_offset_commit(correlation_id, topic, partition, outcome_error_code(outcome))
    }

    fn offset_fetch(&self, correlation_id: i32, group_id: &[u8], topic: &[u8], partition: i32) -> (r:
        Result<Vec<u8>, Error>)
        requires
            self.wf(),
        ensures
            self@.offset_fetch_answer(
                correlation_id,
                group_id@,
                topic@,
                partition,
                codec::bytes_result(r),
            ),
    {
        let outcome = self.broker.group_offset(group_id, topic, partition);
        proof {
            assert(self@.broker.can_read_offset(group_id@, topic@, partition, outcome));
        }
        let (offset, error) = respond_offset_fetch(outcome);
        encode_offset_fetch(correlation_id, topic, partition, offset, error)
    }

    /// Appends one batch, in a transaction if there is a producer for it.
    fn append_batch(
        &self,
        transactional_id: &Option<Vec<u8>>,
        producer: Option<ProducerIdentity>,
        name: &[u8],
        partition: i32,
        records: Vec<RecordData>,
    ) -> (r: Result<i64, BrokerError>)
        requires
            self.wf(),
        ensures
            self@.batch_appended(
                answers::writer(transactional_id.deep_view(), producer),
                name@,
                partition,
                records.deep_view(),
                r,
            ),
    {
        match transactional_id {
            Some(transactional) => match producer {
                Some(producer) => {
                    proof {
                        assert(transactional_id.deep_view() == Some(transactional@));
                    }
                    self.broker.produce_transactional(
                        transactional.as_slice(),
                        producer,
                        name,
                        partition,
                        records,
                    )
                },
                None => self.broker.produce(name, partition, records),
            },
            None => self.broker.produce(name, partition, records),
        }
    }

    /// Appends the batches of one partition, each as one unit, up to the first
    /// that is refused.
    fn produce_partition(&self, transactional_id: &Option<Vec<u8>>, name: &[u8], entry: ProducePartition) -> (r:
        ProducePartitionResult)
        requires
            self.wf(),
        ensures
            self@.produced(transactional_id.deep_view(), name@, entry.deep_view(), r),
    {
        let ghost model = entry.deep_view();
        let ghost asked = transactional_id.deep_view();
        let ProducePartition { partition, records, batch_lens, producer } = entry;
        let producer: Option<ProducerIdentity> = match transactional_id {
            Some(_) => match producer {
                Some((id, epoch)) => Some(ProducerIdentity { id, epoch }),
                None => {
                    return ProducePartitionResult {
                        partition,
                        error: UNSUPPORTED_VERSION,
                        base_offset: -1,
                        log_append_time_ms: -1,
                    };
                },
            },
            None => None,
        };
        let ghost writer = answers::writer(asked, producer);
        let ghost mut outcomes: Seq<Result<i64, BrokerError>> = seq![];
        let mut batches = split_batches(records, &batch_lens);
        proof {
            assert(batches.deep_view().len() == batches@.len());
        }
        if batches.len() == 0 {
            batches.push(Vec::new());
            proof {
                assert(batches@[0].deep_view() =~= seq![]);
                assert(batches.deep_view() =~= seq![seq![]]);
            }
        }
        let ghost units = batches.deep_view();
        let mut base_offset: i64 = -1;
        let mut i: usize = 0;
        proof {
            assert forall|k: int| 0 <= k < batches@.len() implies (#[trigger] batches@[k]).deep_view()
                == units[k] by {}
        }
        while i < batches.len()
            invariant
                self.wf(),
                i <= batches.len(),
                model == entry.deep_view(),
                units == model.units(),
                model.partition == partition,
                batches@.len() == units.len(),
                asked == transactional_id.deep_view(),
                writer == answers::writer(asked, producer),
                asked is Some ==> (model.producer matches Some(pair) && producer == Some(
                    ProducerIdentity { id: pair.0, epoch: pair.1 },
                )),
                outcomes.len() == i,
                forall|k: int| 0 <= k < i ==> (#[trigger] outcomes[k]) is Ok,
                i > 0 ==> outcomes[0] == Ok::<i64, BrokerError>(base_offset),
                forall|k: int|
                    0 <= k < outcomes.len() ==> self@.batch_appended(
                        writer,
                        name@,
                        partition,
                        units[k],
                        #[trigger] outcomes[k],
                    ),
                forall|k: int|
                    i <= k < batches@.len() ==> (#[trigger] batches@[k]).deep_view() == units[k],
            decreases batches.len() - i,
        {
            let mut batch: Vec<RecordData> = Vec::new();
            proof {
                assert(batches@[i as int].deep_view() == units[i as int]);
            }
            std::mem::swap(&mut batch, &mut batches[i]);
            let outcome = self.append_batch(transactional_id, producer, name, partition, batch);
            proof {
                outcomes = outcomes.push(outcome);
            }
            match outcome {
                Ok(base) => {
                    if i == 0 {
                        base_offset = base;
                    }
                },
                Err(error) => {
                    proof {
                        assert(self@.appended_by(writer, name@, model, outcomes));
                    }
                    return respond_produce(partition, Err(error));
                },
            }
            i += 1;
        }
        proof {
            assert(self@.appended_by(writer, name@, model, outcomes));
        }
        respond_produce(partition, Ok(base_offset))
    }

    /// Appends the records of one topic.
    fn produce_topic(&self, transactional_id: &Option<Vec<u8>>, topic: ProduceTopic) -> (r:
        ProduceTopicResult)
        requires
            self.wf(),
        ensures
            self@.produced_topic(
                transactional_id.deep_view(),
                topic.deep_view(),
                r.deep_view(),
            ),
    {
        let ghost model = topic.deep_view();
        let ProduceTopic { name, partitions } = topic;
        let mut partitions = partitions;
        let mut results: Vec<ProducePartitionResult> = Vec::new();
        let mut i: usize = 0;
        while i < partitions.len()
            invariant
                self.wf(),
                name@ == model.name,
                partitions@.len() == model.partitions.len(),
                i <= partitions.len(),
                results@.len() == i,
                forall|k: int|
                    i <= k < partitions@.len() ==> (#[trigger] partitions@[k]).deep_view()
                        == model.partitions[k],
                forall|k: int|
                    0 <= k < i ==> self@.produced(
                        transactional_id.deep_view(),
                        model.name,
                        #[trigger] model.partitions[k],
                        results@[k],
                    ),
            decreases partitions.len() - i,
        {
            proof {
                assert(partitions@[i as int].deep_view() == model.partitions[i as int]);
            }
            let mut entry = ProducePartition {
                partition: 0,
                records: Vec::new(),
                batch_lens: Vec::new(),
                producer: None,
            };
            std::mem::swap(&mut entry, &mut partitions[i]);
            let result = self.produce_partition(transactional_id, name.as_slice(), entry);
            proof {
                assert(self@.produced(
                    transactional_id.deep_view(),
                    name@,
                    model.partitions[i as int],
                    result,
                ));
            }
            results.push(result);
            i += 1;
        }
        let r = ProduceTopicResult { name, partitions: results };
        proof {
            assert(r.deep_view().partitions =~= results@);
        }
        r
    }

    fn produce(&self, correlation_id: i32, transactional_id: &Option<Vec<u8>>, topics: Vec<ProduceTopic>) -> (r:
        Result<Vec<u8>, Error>)
        requires
            self.wf(),
        ensures
            self@.produce_answer(
                correlation_id,
                transactional_id.deep_view(),
                topics.deep_view(),
                codec::bytes_result(r),
            ),
    {
        let ghost models = topics.deep_view();
        let mut topics = topics;
        let mut results: Vec<ProduceTopicResult> = Vec::new();
        let mut i: usize = 0;
        while i < topics.len()
            invariant
                self.wf(),
                topics@.len() == models.len(),
                i <= topics.len(),
                results@.len() == i,
                forall|k: int|
                    i <= k < topics@.len() ==> (#[trigger] topics@[k]).deep_view() == models[k],
                forall|k: int|
                    0 <= k < i ==> self@.produced_topic(
                        transactional_id.deep_view(),
                        #[trigger] models[k],
                        results@[k].deep_view(),
                    ),
            decreases topics.len() - i,
        {
            proof {
                assert(topics@[i as int].deep_view() == models[i as int]);
            }
            let mut topic = ProduceTopic { name: Vec::new(), partitions: Vec::new() };
            std::mem::swap(&mut topic, &mut topics[i]);
            results.push(self.produce_topic(transactional_id, topic));
            i += 1;
        }
        let response = ProduceResponse { topics: results, throttle_time_ms: 0 };
        proof {
            let answered = response.topics.deep_view();
            assert forall|k: int| 0 <= k < models.len() implies self@.produced_topic(
                transactional_id.deep_view(),
                #[trigger] models[k],
                answered[k],
            ) by {
                assert(answered[k] == results@[k].deep_view());
            }
            assert(self@.produced_topics(transactional_id.deep_view(), models, answered));
        }
        encode_produce(correlation_id, &response)
    }

    /// Reads the partitions of one topic.
    fn fetch_topic(&self, request_max_bytes: i32, read_committed: bool, topic: FetchTopic) -> (r:
        FetchTopicResult)
        requires
            self.wf(),
        ensures
            self@.fetched_topic(
                request_max_bytes,
                read_committed,
                topic.deep_view(),
                r.deep_view(),
            ),
    {
        let ghost model = topic.deep_view();
        let FetchTopic { name, partitions } = topic;
        let mut results: Vec<FetchPartitionResult> = Vec::new();
        let mut i: usize = 0;
        while i < partitions.len()
            invariant
                self.wf(),
                name@ == model.name,
                partitions.deep_view() == model.partitions,
                i <= partitions.len(),
                results@.len() == i,
                forall|k: int|
                    0 <= k < i ==> self@.fetched(
                        request_max_bytes,
                        read_committed,
                        model.name,
                        #[trigger] model.partitions[k],
                        results@[k].deep_view(),
                    ),
            decreases partitions.len() - i,
        {
            let partition: FetchPartition = partitions[i];
            proof {
                assert(model.partitions[i as int] == partition);
            }
            let outcome = self.broker.fetch_with_isolation(
                name.as_slice(),
                partition.partition,
                partition.fetch_offset,
                self.max_fetch_records,
                partition_budget(
                    partition.partition_max_bytes,
                    request_max_bytes,
                    self.max_fetch_bytes,
                ),
                read_committed,
            );
            let ghost said = broker::fetch_view(outcome);
            let result = respond_fetch(partition.partition, outcome);
            proof {
                assert(self@.broker.can_fetch(
                    model.name,
                    partition.partition,
                    partition.fetch_offset,
                    self@.max_fetch_records,
                    answers::fetch_budget(
                        partition.partition_max_bytes,
                        request_max_bytes,
                        self@.max_fetch_bytes,
                    ),
                    read_committed,
                    said,
                ));
            }
            results.push(result);
            i += 1;
        }
        let r = FetchTopicResult { name, partitions: results };
        proof {
            assert forall|k: int| 0 <= k < model.partitions.len() implies self@.fetched(
                request_max_bytes,
                read_committed,
                model.name,
                #[trigger] model.partitions[k],
                r.deep_view().partitions[k],
            ) by {
                assert(r.deep_view().partitions[k] == results@[k].deep_view());
            }
        }
        r
    }

    fn fetch(
        &self,
        correlation_id: i32,
        request_max_bytes: i32,
        read_committed: bool,
        topics: Vec<FetchTopic>,
    ) -> (r: Result<Vec<u8>, Error>)
        requires
            self.wf(),
        ensures
            self@.fetch_answer(
                correlation_id,
                request_max_bytes,
                read_committed,
                topics.deep_view(),
                codec::bytes_result(r),
            ),
    {
        let ghost models = topics.deep_view();
        let mut topics = topics;
        let mut results: Vec<FetchTopicResult> = Vec::new();
        let mut i: usize = 0;
        while i < topics.len()
            invariant
                self.wf(),
                topics@.len() == models.len(),
                i <= topics.len(),
                results@.len() == i,
                forall|k: int|
                    i <= k < topics@.len() ==> (#[trigger] topics@[k]).deep_view() == models[k],
                forall|k: int|
                    0 <= k < i ==> self@.fetched_topic(
                        request_max_bytes,
                        read_committed,
                        #[trigger] models[k],
                        results@[k].deep_view(),
                    ),
            decreases topics.len() - i,
        {
            proof {
                assert(topics@[i as int].deep_view() == models[i as int]);
            }
            let mut topic = FetchTopic { name: Vec::new(), partitions: Vec::new() };
            std::mem::swap(&mut topic, &mut topics[i]);
            results.push(self.fetch_topic(request_max_bytes, read_committed, topic));
            i += 1;
        }
        let response = FetchResponse { throttle_time_ms: 0, topics: results };
        proof {
            let answered = response.topics.deep_view();
            assert forall|k: int| 0 <= k < models.len() implies self@.fetched_topic(
                request_max_bytes,
                read_committed,
                #[trigger] models[k],
                answered[k],
            ) by {
                assert(answered[k] == results@[k].deep_view());
            }
            assert(self@.fetched_topics(request_max_bytes, read_committed, models, answered));
        }
        encode_fetch(correlation_id, &response)
    }

    /// Lists one partition of a topic.
    fn list_partition(&self, name: &[u8], partition: ListOffsetsPartition) -> (r:
        ListOffsetsPartitionResult)
        requires
            self.wf(),
        ensures
            self@.listed(name@, partition, r),
    {
        if partition.timestamp == -2 || partition.timestamp == -1 {
            let earliest = partition.timestamp == -2;
            let outcome = self.broker.list_offset(name, partition.partition, earliest);
            proof {
                assert(self@.broker.can_list(name@, partition.partition, earliest, outcome));
            }
            respond_offset(partition.partition, outcome)
        } else {
            ListOffsetsPartitionResult {
                partition: partition.partition,
                error: UNSUPPORTED_VERSION,
                timestamp_ms: -1,
                offset: -1,
            }
        }
    }

    /// Lists the partitions of one topic.
    fn list_topic(&self, topic: ListOffsetsTopic) -> (r: ListOffsetsTopicResult)
        requires
            self.wf(),
        ensures
            self@.listed_topic(topic.deep_view(), r.deep_view()),
    {
        let ghost model = topic.deep_view();
        let ListOffsetsTopic { name, partitions } = topic;
        let mut results: Vec<ListOffsetsPartitionResult> = Vec::new();
        let mut i: usize = 0;
        while i < partitions.len()
            invariant
                self.wf(),
                name@ == model.name,
                partitions.deep_view() == model.partitions,
                i <= partitions.len(),
                results@.len() == i,
                forall|k: int|
                    0 <= k < i ==> self@.listed(
                        model.name,
                        #[trigger] model.partitions[k],
                        results@[k],
                    ),
            decreases partitions.len() - i,
        {
            proof {
                assert(model.partitions[i as int] == partitions@[i as int]);
            }
            results.push(self.list_partition(name.as_slice(), partitions[i]));
            i += 1;
        }
        let r = ListOffsetsTopicResult { name, partitions: results };
        proof {
            assert(r.deep_view().partitions =~= results@);
        }
        r
    }

    fn list_offsets(&self, correlation_id: i32, topics: Vec<ListOffsetsTopic>) -> (r: Result<
        Vec<u8>,
        Error,
    >)
        requires
            self.wf(),
        ensures
            self@.offsets_answer(
                correlation_id,
                topics.deep_view(),
                codec::bytes_result(r),
            ),
    {
        let ghost models = topics.deep_view();
        let mut topics = topics;
        let mut results: Vec<ListOffsetsTopicResult> = Vec::new();
        let mut i: usize = 0;
        while i < topics.len()
            invariant
                self.wf(),
                topics@.len() == models.len(),
                i <= topics.len(),
                results@.len() == i,
                forall|k: int|
                    i <= k < topics@.len() ==> (#[trigger] topics@[k]).deep_view() == models[k],
                forall|k: int|
                    0 <= k < i ==> self@.listed_topic(
                        #[trigger] models[k],
                        results@[k].deep_view(),
                    ),
            decreases topics.len() - i,
        {
            proof {
                assert(topics@[i as int].deep_view() == models[i as int]);
            }
            let mut topic = ListOffsetsTopic { name: Vec::new(), partitions: Vec::new() };
            std::mem::swap(&mut topic, &mut topics[i]);
            results.push(self.list_topic(topic));
            i += 1;
        }
        let response = ListOffsetsResponse { topics: results };
        proof {
            let answered = response.topics.deep_view();
            assert forall|k: int| 0 <= k < models.len() implies self@.listed_topic(
                #[trigger] models[k],
                answered[k],
            ) by {
                assert(answered[k] == results@[k].deep_view());
            }
            assert(self@.listed_topics(models, answered));
        }
        encode_list_offsets(correlation_id, &response)
    }

    /// Enlists the partitions of one topic.
    fn enlist_topic(
        &self,
        transactional_id: &[u8],
        producer: ProducerIdentity,
        topic: (Vec<u8>, Vec<i32>),
    ) -> (r: TransactionPartitionResult)
        requires
            self.wf(),
        ensures
            self@.enlisted_topic(
                transactional_id@,
                producer,
                topic.deep_view(),
                r.deep_view(),
            ),
    {
        let ghost model = topic.deep_view();
        let (name, partitions) = topic;
        let mut results: Vec<(i32, i16)> = Vec::new();
        let mut i: usize = 0;
        while i < partitions.len()
            invariant
                self.wf(),
                name@ == model.0,
                partitions.deep_view() == model.1,
                i <= partitions.len(),
                results@.len() == i,
                forall|k: int|
                    0 <= k < i ==> self@.enlisted(
                        transactional_id@,
                        producer,
                        model.0,
                        #[trigger] model.1[k],
                        results@[k],
                    ),
            decreases partitions.len() - i,
        {
            let partition: i32 = partitions[i];
            proof {
                assert(model.1[i as int] == partition);
            }
            let outcome = self.broker.add_transaction_partition(
                transactional_id,
                producer,
                name.as_slice(),
                partition,
            );
            proof {
                assert(self@.broker.can_apply(
                    CoordinationRequestModel::AddPartition {
                        transactional_id: transactional_id@,
                        producer,
                        topic: model.0,
                        partition,
                    },
                    outcome,
                ));
            }
            results.push((partition, outcome_error_code(outcome)));
            i += 1;
        }
        let r = TransactionPartitionResult { topic: name, partitions: results };
        proof {
            assert(r.deep_view().partitions =~= results@);
        }
        r
    }

    fn add_partitions_to_txn(
        &self,
        correlation_id: i32,
        transactional_id: &[u8],
        producer: ProducerIdentity,
        topics: Vec<(Vec<u8>, Vec<i32>)>,
    ) -> (r: Result<Vec<u8>, Error>)
        requires
            self.wf(),
        ensures
            self@.enlist_answer(
                correlation_id,
                transactional_id@,
                producer,
                topics.deep_view(),
                codec::bytes_result(r),
            ),
    {
        let ghost models = topics.deep_view();
        let mut topics = topics;
        let mut results: Vec<TransactionPartitionResult> = Vec::new();
        let mut i: usize = 0;
        while i < topics.len()
            invariant
                self.wf(),
                topics@.len() == models.len(),
                i <= topics.len(),
                results@.len() == i,
                forall|k: int|
                    i <= k < topics@.len() ==> (#[trigger] topics@[k]).deep_view() == models[k],
                forall|k: int|
                    0 <= k < i ==> self@.enlisted_topic(
                        transactional_id@,
                        producer,
                        #[trigger] models[k],
                        results@[k].deep_view(),
                    ),
            decreases topics.len() - i,
        {
            proof {
                assert(topics@[i as int].deep_view() == models[i as int]);
            }
            let mut topic: (Vec<u8>, Vec<i32>) = (Vec::new(), Vec::new());
            std::mem::swap(&mut topic, &mut topics[i]);
            results.push(self.enlist_topic(transactional_id, producer, topic));
            i += 1;
        }
        let slice = results.as_slice();
        proof {
            let answered = slice.deep_view();
            assert forall|k: int| 0 <= k < models.len() implies self@.enlisted_topic(
                transactional_id@,
                producer,
                #[trigger] models[k],
                answered[k],
            ) by {
                assert(answered[k] == results@[k].deep_view());
            }
            assert(self@.enlisted_topics(transactional_id@, producer, models, answered));
        }
        encode_add_partitions_to_txn(correlation_id, slice)
    }
}

impl<S: Shards> Engine<S> {
    /// Decodes and dispatches one length-prefixed request frame.
    ///
    /// # Errors
    ///
    /// Returns the decode or encode error. A malformed frame has no usable
    /// correlation id, so the caller is expected to close the connection.
    pub fn handle_frame(&self, frame: &[u8]) -> (r: Result<Vec<u8>, Error>)
        requires
            self.wf(),
        ensures
            self@.answers_frame(frame@, codec::bytes_result(r)),
    {
        match decode_request(frame) {
            Ok(request) => self.handle_request(request),
            Err(error) => {
                if error == Error::UnsupportedVersion {
                    // A known API key of a version that is not implemented is
                    // answered with a v0 error body, so that the client can
                    // retry with the advertised version.
                    if let Ok(header) = peek_header(frame) {
                        if header.api_key == api::API_VERSIONS {
                            let all = versions();
                            let slice = all.as_slice();
                            proof {
                                assert(slice.deep_view() =~= all.deep_view());
                            }
                            return encode_api_versions_error(
                                header.correlation_id,
                                UNSUPPORTED_VERSION,
                                slice,
                            );
                        }
                    }
                }
                Err(error)
            },
        }
    }

    /// Dispatches one decoded request.
    ///
    /// # Errors
    ///
    /// Returns [`Error`] only when the response cannot be encoded; per-item
    /// broker failures are reported as Kafka error codes inside the response.
    pub fn handle_request(&self, request: Request) -> (r: Result<Vec<u8>, Error>)
        requires
            self.wf(),
        ensures
            self@.answers(request.deep_view(), codec::bytes_result(r)),
    {
        let correlation_id: i32 = request.header.correlation_id;
        match request.body {
            RequestBody::ApiVersions => {
                let all = versions();
                let slice = all.as_slice();
                proof {
                    assert(slice.deep_view() =~= all.deep_view());
                }
                encode_api_versions(correlation_id, slice)
            },
            RequestBody::FindCoordinator { .. } => self.find_coordinator(correlation_id),
            RequestBody::InitProducerId { transactional_id, .. } => self.init_producer(
                correlation_id,
                &transactional_id,
            ),
            RequestBody::AddPartitionsToTxn {
                transactional_id,
                producer_id,
                producer_epoch,
                topics,
            } => self.add_partitions_to_txn(
                correlation_id,
                transactional_id.as_slice(),
                ProducerIdentity { id: producer_id, epoch: producer_epoch },
                topics,
            ),
            RequestBody::EndTxn {
                transactional_id,
                producer_id,
                producer_epoch,
                commit,
            } => self.end_txn(
                correlation_id,
                transactional_id.as_slice(),
                ProducerIdentity { id: producer_id, epoch: producer_epoch },
                commit,
            ),
            RequestBody::JoinGroup { group_id, member_id, subscriptions } => self.join_group(
                correlation_id,
                group_id,
                member_id,
                subscriptions,
            ),
            RequestBody::SyncGroup { assignment, .. } => encode_sync_group(
                correlation_id,
                NO_ERROR,
                assignment.as_slice(),
            ),
            RequestBody::Heartbeat { group_id, generation, member_id } => self.heartbeat(
                correlation_id,
                group_id.as_slice(),
                member_id.as_slice(),
                generation,
            ),
            RequestBody::LeaveGroup { group_id, member_id } => self.leave_group(
                correlation_id,
                group_id.as_slice(),
                member_id.as_slice(),
            ),
            RequestBody::OffsetCommit {
                group_id,
                generation,
                topic,
                partition,
                offset,
                ..
            } => self.offset_commit(
                correlation_id,
                group_id.as_slice(),
                generation,
                topic.as_slice(),
                partition,
                offset,
            ),
            RequestBody::OffsetFetch { group_id, topic, partition } => self.offset_fetch(
                correlation_id,
                group_id.as_slice(),
                topic.as_slice(),
                partition,
            ),
            RequestBody::Metadata { topics } => self.metadata(correlation_id, &topics),
            RequestBody::Produce { transactional_id, topics, .. } => self.produce(
                correlation_id,
                &transactional_id,
                topics,
            ),
            RequestBody::Fetch { max_bytes, read_committed, topics, .. } => self.fetch(
                correlation_id,
                max_bytes,
                read_committed,
                topics,
            ),
            RequestBody::ListOffsets { topics, .. } => self.list_offsets(correlation_id, topics),
        }
    }
}

/// Copies a list of names.
fn copy_names(names: &Vec<Vec<u8>>) -> (r: Vec<Vec<u8>>)
    ensures
        r.deep_view() == names.deep_view(),
{
    let mut copy: Vec<Vec<u8>> = Vec::new();
    let mut i: usize = 0;
    while i < names.len()
        invariant
            i <= names.len(),
            copy.deep_view() =~= names.deep_view().take(i as int),
        decreases names.len() - i,
    {
        let name = copy_bytes(names[i].as_slice());
        let ghost before = copy.deep_view();
        let ghost model = name.deep_view();
        copy.push(name);
        proof {
            assert(model == names.deep_view()[i as int]);
            assert(copy.deep_view() =~= before.push(model));
        }
        i += 1;
    }
    proof {
        assert(names.deep_view().take(i as int) =~= names.deep_view());
    }
    copy
}

} // verus!
