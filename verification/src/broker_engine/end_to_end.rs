//! What a request asks of the shards, and what its answer says of their replies.
//!
//! Each law names the requests that may be asked and what the shards reply to
//! these alone. Of any other request nothing is known, so an answer that is
//! determined here rests on no other.

use vstd::prelude::*;

use crate::broker_core::coordination::{CompletionModel, CoordinationError, ProducerIdentity};
use crate::broker_engine::answers::{self, EngineModel};
use crate::broker_engine::codes;
use crate::broker_runtime::broker::{self, Broker, CoordinationCallModel};
use crate::broker_runtime::error::BrokerError;
use crate::broker_runtime::links::{CallModel, Shards};
use crate::broker_runtime::message::{
    CoordinationRequestModel, CoordinationResultModel, PartitionRequestModel, PartitionResultModel,
};
use crate::broker_runtime::transaction_laws;
use crate::broker_wire::client_frames;
use crate::broker_wire::codec;
use crate::broker_wire::protocol::{
    api, version, Error, INVALID_REQUEST, MAX_STRING_LEN, NO_ERROR, UNKNOWN_SERVER_ERROR,
};
use crate::broker_wire::request::{BodyModel, HeaderModel, RequestModel};
use crate::broker_wire::response::{
    self, Field, InitProducerIdResponse, TransactionPartitionResultModel,
};

verus! {

// ---------------------------------------------------------------------------
// Replies
// ---------------------------------------------------------------------------

/// Whether a shard replies to a request in this way and in no other.
pub open spec fn replies<S: Shards>(
    broker: Broker<S>,
    shard: nat,
    request: PartitionRequestModel,
    reply: PartitionResultModel,
) -> bool {
    forall|call: CallModel| #[trigger]
        broker.shards().can_answer(shard, request, call) ==> call == Ok::<
            PartitionResultModel,
            BrokerError,
        >(reply)
}

/// Whether the coordinator replies to a request in this way and in no other.
pub open spec fn coordinator_replies<S: Shards>(
    broker: Broker<S>,
    request: CoordinationRequestModel,
    reply: Result<CoordinationResultModel, CoordinationError>,
) -> bool {
    replies(
        broker,
        0,
        PartitionRequestModel::Coordinate { request },
        PartitionResultModel::Coordination(reply),
    )
}

/// Whether the shard that owns a partition replies to a request in this way and
/// in no other.
pub open spec fn owner_replies<S: Shards>(
    broker: Broker<S>,
    place: (Seq<u8>, i32),
    request: PartitionRequestModel,
    reply: PartitionResultModel,
) -> bool {
    replies(
        broker,
        broker::placement(place.0, place.1, broker.shards().count() as nat),
        request,
        reply,
    )
}

pub(crate) proof fn lemma_coordinated<S: Shards>(
    broker: Broker<S>,
    request: CoordinationRequestModel,
    reply: Result<CoordinationResultModel, CoordinationError>,
    call: CoordinationCallModel,
)
    requires
        coordinator_replies(broker, request, reply),
        broker.can_coordinate(request, call),
    ensures
        call == match reply {
            Ok(result) => Ok::<CoordinationResultModel, BrokerError>(result),
            Err(error) => Err(BrokerError::Coordination(error)),
        },
{
    let raw = choose|raw: CallModel| #[trigger]
        broker.shards().can_answer(0, PartitionRequestModel::Coordinate { request }, raw) && call
            == broker::coordination_answer(raw);
    assert(raw == Ok::<PartitionResultModel, BrokerError>(
        PartitionResultModel::Coordination(reply),
    ));
}

pub(crate) proof fn lemma_applied<S: Shards>(
    broker: Broker<S>,
    request: CoordinationRequestModel,
    reply: Result<CoordinationResultModel, CoordinationError>,
    outcome: Result<(), BrokerError>,
)
    requires
        coordinator_replies(broker, request, reply),
        broker.can_apply(request, outcome),
    ensures
        reply == Ok::<CoordinationResultModel, CoordinationError>(CoordinationResultModel::Applied)
            ==> outcome is Ok,
        reply matches Err(error) ==> outcome == Err::<(), BrokerError>(
            BrokerError::Coordination(error),
        ),
{
    let call = choose|call: CoordinationCallModel| #[trigger]
        broker.can_coordinate(request, call) && outcome == broker::applied_answer(call);
    lemma_coordinated(broker, request, reply, call);
}

// ---------------------------------------------------------------------------
// Reading a response
// ---------------------------------------------------------------------------

/// The 16-bit number at a place in a response.
pub open spec fn code_at(response: Seq<u8>, at: int) -> i16 {
    codec::i16_of(response.subrange(at, at + 2))
}

/// The 32-bit number at a place in a response.
pub open spec fn word_at(response: Seq<u8>, at: int) -> i32 {
    codec::i32_of(response.subrange(at, at + 4))
}

/// The 64-bit number at a place in a response.
pub open spec fn long_at(response: Seq<u8>, at: int) -> i64 {
    codec::i64_of(response.subrange(at, at + 8))
}

/// A frame is its length, the correlation id and the body.
pub(crate) proof fn lemma_frame(correlation_id: i32, body: Seq<u8>)
    ensures
        ({
            let frame = codec::frame_bytes(correlation_id, body);
            &&& frame.len() == 8 + body.len()
            &&& word_at(frame, 4) == correlation_id
            &&& forall|a: int, b: int|
                0 <= a <= b <= body.len() ==> #[trigger] frame.subrange(8 + a, 8 + b)
                    == body.subrange(a, b)
        }),
{
    let frame = codec::frame_bytes(correlation_id, body);
    let payload = codec::i32_bytes(correlation_id) + body;
    codec::lemma_be_len(payload.len(), 4);
    codec::lemma_be_len((correlation_id as u32) as nat, 4);
    codec::law_integers_round_trip(0, 0, correlation_id, 0, 0);
    assert(frame.subrange(4, 8) =~= codec::i32_bytes(correlation_id));
    assert forall|a: int, b: int| 0 <= a <= b <= body.len() implies #[trigger] frame.subrange(
        8 + a,
        8 + b,
    ) == body.subrange(a, b) by {
        assert(frame.subrange(8 + a, 8 + b) =~= body.subrange(a, b));
    }
}

/// A body that is a number of 32 bits and one of 16.
pub(crate) proof fn lemma_throttled_code(correlation_id: i32, throttle: i32, code: i16)
    ensures
        ({
            let frame = codec::frame_bytes(
                correlation_id,
                codec::i32_bytes(throttle) + codec::i16_bytes(code),
            );
            &&& frame.len() == 14
            &&& word_at(frame, 4) == correlation_id
            &&& word_at(frame, 8) == throttle
            &&& code_at(frame, 12) == code
        }),
{
    let body = codec::i32_bytes(throttle) + codec::i16_bytes(code);
    codec::lemma_be_len((throttle as u32) as nat, 4);
    codec::lemma_be_len((code as u16) as nat, 2);
    codec::law_integers_round_trip(0, code, throttle, 0, 0);
    lemma_frame(correlation_id, body);
    let frame = codec::frame_bytes(correlation_id, body);
    assert(body.subrange(0, 4) =~= codec::i32_bytes(throttle));
    assert(body.subrange(4, 6) =~= codec::i16_bytes(code));
    assert(frame.subrange(8 + 0int, 8 + 4int) == body.subrange(0, 4));
    assert(frame.subrange(8 + 4int, 8 + 6int) == body.subrange(4, 6));
}

// ---------------------------------------------------------------------------
// Transactions
// ---------------------------------------------------------------------------

/// A transaction is ended with the flag that the request carries: the
/// coordinator is asked to end it with that flag, the owner of every enlisted
/// partition is asked to resolve the producer with that flag, and the enlisted
/// offsets are committed only when it is set. When all of them do as asked, the
/// answer is that there was no error.
pub proof fn law_end_txn_ends_with_the_flag_of_the_request<S: Shards>(
    engine: EngineModel<S>,
    header: HeaderModel,
    transactional_id: Seq<u8>,
    producer: ProducerIdentity,
    commit: bool,
    completion: CompletionModel,
    r: Result<Seq<u8>, Error>,
)
    requires
        engine.answers(
            RequestModel {
                header,
                body: BodyModel::EndTxn {
                    transactional_id,
                    producer_id: producer.id,
                    producer_epoch: producer.epoch,
                    commit,
                },
            },
            r,
        ),
        coordinator_replies(
            engine.broker,
            CoordinationRequestModel::EndTransaction { transactional_id, producer, commit },
            Ok(CoordinationResultModel::TransactionCompleted(completion)),
        ),
        forall|i: int|
            0 <= i < completion.partitions.len() ==> owner_replies(
                engine.broker,
                #[trigger] completion.partitions[i],
                PartitionRequestModel::ResolveTransaction { producer_id: producer.id, commit },
                PartitionResultModel::Resolved,
            ),
        commit ==> forall|i: int|
            0 <= i < completion.offsets.len() ==> coordinator_replies(
                engine.broker,
                CoordinationRequestModel::CommitOffset {
                    group_id: (#[trigger] completion.offsets[i]).group_id,
                    generation: completion.offsets[i].generation,
                    topic: completion.offsets[i].topic,
                    partition: completion.offsets[i].partition,
                    offset: completion.offsets[i].offset,
                },
                Ok(CoordinationResultModel::Applied),
            ),
    ensures
        r is Ok,
        r->Ok_0.len() == 14,
        word_at(r->Ok_0, 4) == header.correlation_id,
        word_at(r->Ok_0, 8) == 0,
        code_at(r->Ok_0, 12) == NO_ERROR,
{
    let outcome = choose|outcome: Result<(), BrokerError>|
        #[trigger] engine.broker.can_end(transactional_id, producer, commit, outcome) && r == Ok::<
            Seq<u8>,
            Error,
        >(
            codec::frame_bytes(
                header.correlation_id,
                codec::i32_bytes(0) + codec::i16_bytes(codes::outcome_code(outcome)),
            ),
        );
    lemma_throttled_code(header.correlation_id, 0, codes::outcome_code(outcome));
    let request = CoordinationRequestModel::EndTransaction { transactional_id, producer, commit };
    let call = choose|call: CoordinationCallModel| #[trigger]
        engine.broker.can_coordinate(request, call) && match broker::completion_answer(call) {
            Err(error) => outcome == Err::<(), BrokerError>(error),
            Ok(completion) => engine.broker.can_complete(completion, producer.id, commit, outcome),
        };
    lemma_coordinated(
        engine.broker,
        request,
        Ok(CoordinationResultModel::TransactionCompleted(completion)),
        call,
    );
    let (resolves, commits) = choose|
        resolves: Seq<Result<(), BrokerError>>,
        commits: Seq<Result<(), BrokerError>>,
    | #[trigger]
        engine.broker.completed_by(completion, producer.id, commit, resolves, commits, outcome);
    assert forall|i: int| 0 <= i < resolves.len() implies (#[trigger] resolves[i]) is Ok by {
        assert(engine.broker.can_resolve(
            completion.partitions[i],
            producer.id,
            commit,
            resolves[i],
        ));
    }
    transaction_laws::lemma_no_failure(resolves);
    assert forall|i: int| 0 <= i < commits.len() implies (#[trigger] commits[i]) is Ok by {
        let offset = completion.offsets[i];
        assert(engine.broker.can_commit(offset, commits[i]));
        lemma_applied(
            engine.broker,
            CoordinationRequestModel::CommitOffset {
                group_id: offset.group_id,
                generation: offset.generation,
                topic: offset.topic,
                partition: offset.partition,
                offset: offset.offset,
            },
            Ok(CoordinationResultModel::Applied),
            commits[i],
        );
    }
    transaction_laws::lemma_no_failure(commits);
}

/// When the coordinator refuses to end a transaction, the answer is its error,
/// and nothing else is asked.
pub proof fn law_end_txn_reports_a_refusal<S: Shards>(
    engine: EngineModel<S>,
    header: HeaderModel,
    transactional_id: Seq<u8>,
    producer: ProducerIdentity,
    commit: bool,
    error: CoordinationError,
    r: Result<Seq<u8>, Error>,
)
    requires
        engine.answers(
            RequestModel {
                header,
                body: BodyModel::EndTxn {
                    transactional_id,
                    producer_id: producer.id,
                    producer_epoch: producer.epoch,
                    commit,
                },
            },
            r,
        ),
        coordinator_replies(
            engine.broker,
            CoordinationRequestModel::EndTransaction { transactional_id, producer, commit },
            Err(error),
        ),
    ensures
        r is Ok,
        r->Ok_0.len() == 14,
        word_at(r->Ok_0, 4) == header.correlation_id,
        word_at(r->Ok_0, 8) == 0,
        code_at(r->Ok_0, 12) == codes::coordination_code_of(BrokerError::Coordination(error)),
        code_at(r->Ok_0, 12) != NO_ERROR,
{
    let outcome = choose|outcome: Result<(), BrokerError>|
        #[trigger] engine.broker.can_end(transactional_id, producer, commit, outcome) && r == Ok::<
            Seq<u8>,
            Error,
        >(
            codec::frame_bytes(
                header.correlation_id,
                codec::i32_bytes(0) + codec::i16_bytes(codes::outcome_code(outcome)),
            ),
        );
    lemma_throttled_code(header.correlation_id, 0, codes::outcome_code(outcome));
    let request = CoordinationRequestModel::EndTransaction { transactional_id, producer, commit };
    let call = choose|call: CoordinationCallModel| #[trigger]
        engine.broker.can_coordinate(request, call) && match broker::completion_answer(call) {
            Err(error) => outcome == Err::<(), BrokerError>(error),
            Ok(completion) => engine.broker.can_complete(completion, producer.id, commit, outcome),
        };
    lemma_coordinated(engine.broker, request, Err(error), call);
}

/// The identity that the coordinator replies for a transactional id is what an
/// init-producer-id request for that id is answered with.
pub proof fn law_init_producer_id_answers_the_issued_identity<S: Shards>(
    engine: EngineModel<S>,
    header: HeaderModel,
    transactional_id: Seq<u8>,
    timeout_ms: i32,
    reply: Result<ProducerIdentity, CoordinationError>,
    r: Result<Seq<u8>, Error>,
)
    requires
        engine.answers(
            RequestModel {
                header,
                body: BodyModel::InitProducerId {
                    transactional_id: Some(transactional_id),
                    timeout_ms,
                },
            },
            r,
        ),
        coordinator_replies(
            engine.broker,
            CoordinationRequestModel::InitProducer { transactional_id },
            match reply {
                Ok(identity) => Ok(CoordinationResultModel::Producer(identity)),
                Err(error) => Err(error),
            },
        ),
    ensures
        r == codec::frame_result(
            header.correlation_id,
            InitProducerIdResponse::encoded(
                match reply {
                    Ok(identity) => InitProducerIdResponse {
                        error: NO_ERROR,
                        producer_id: identity.id,
                        producer_epoch: identity.epoch,
                    },
                    Err(_) => InitProducerIdResponse {
                        error: UNKNOWN_SERVER_ERROR,
                        producer_id: (-1) as i64,
                        producer_epoch: (-1) as i16,
                    },
                },
            ),
        ),
{
    let request = CoordinationRequestModel::InitProducer { transactional_id };
    let outcome = choose|outcome: Result<ProducerIdentity, BrokerError>| #[trigger]
        engine.broker.can_init(transactional_id, outcome) && r == codec::frame_result(
            header.correlation_id,
            InitProducerIdResponse::encoded(answers::init_response(outcome)),
        );
    let call = choose|call: CoordinationCallModel| #[trigger]
        engine.broker.can_coordinate(request, call) && outcome == broker::producer_answer(call);
    lemma_coordinated(
        engine.broker,
        request,
        match reply {
            Ok(identity) => Ok(CoordinationResultModel::Producer(identity)),
            Err(error) => Err(error),
        },
        call,
    );
}

/// A producer without a transactional id is told that its request is invalid.
pub proof fn law_plain_producers_get_no_identity<S: Shards>(
    engine: EngineModel<S>,
    header: HeaderModel,
    timeout_ms: i32,
    r: Result<Seq<u8>, Error>,
)
    requires
        engine.answers(
            RequestModel {
                header,
                body: BodyModel::InitProducerId { transactional_id: None, timeout_ms },
            },
            r,
        ),
    ensures
        r == codec::frame_result(
            header.correlation_id,
            InitProducerIdResponse::encoded(
                InitProducerIdResponse {
                    error: INVALID_REQUEST,
                    producer_id: (-1) as i64,
                    producer_epoch: (-1) as i16,
                },
            ),
        ),
{
}

/// Every partition of an add-partitions request is answered in its place, under
/// its topic, with what the coordinator replies when it is asked to enlist that
/// very partition for that producer in that transaction.
pub proof fn law_add_partitions_enlists_every_partition<S: Shards>(
    engine: EngineModel<S>,
    header: HeaderModel,
    transactional_id: Seq<u8>,
    producer: ProducerIdentity,
    topics: Seq<(Seq<u8>, Seq<i32>)>,
    replies: spec_fn(int, int) -> Result<(), CoordinationError>,
    r: Result<Seq<u8>, Error>,
) -> (results: Seq<TransactionPartitionResultModel>)
    requires
        engine.answers(
            RequestModel {
                header,
                body: BodyModel::AddPartitionsToTxn {
                    transactional_id,
                    producer_id: producer.id,
                    producer_epoch: producer.epoch,
                    topics,
                },
            },
            r,
        ),
        forall|t: int, p: int|
            0 <= t < topics.len() && 0 <= p < topics[t].1.len() ==> coordinator_replies(
                engine.broker,
                CoordinationRequestModel::AddPartition {
                    transactional_id,
                    producer,
                    topic: topics[t].0,
                    partition: #[trigger] topics[t].1[p],
                },
                match replies(t, p) {
                    Ok(_) => Ok(CoordinationResultModel::Applied),
                    Err(error) => Err(error),
                },
            ),
    ensures
        r == codec::frame_result(
            header.correlation_id,
            response::add_partitions_to_txn_bytes(results),
        ),
        results.len() == topics.len(),
        forall|t: int|
            0 <= t < topics.len() ==> (#[trigger] results[t]).topic == topics[t].0
                && results[t].partitions.len() == topics[t].1.len(),
        forall|t: int, p: int|
            0 <= t < topics.len() && 0 <= p < topics[t].1.len()
                ==> #[trigger] results[t].partitions[p]
                == (
                topics[t].1[p],
                match replies(t, p) {
                    Ok(_) => NO_ERROR,
                    Err(error) => codes::coordination_code_of(BrokerError::Coordination(error)),
                },
            ),
{
    let results = choose|results: Seq<TransactionPartitionResultModel>| #[trigger]
        engine.enlisted_topics(transactional_id, producer, topics, results) && r
            == codec::frame_result(
            header.correlation_id,
            response::add_partitions_to_txn_bytes(results),
        );
    assert forall|t: int| 0 <= t < topics.len() implies (#[trigger] results[t]).topic == topics[t].0
        && results[t].partitions.len() == topics[t].1.len() by {
        assert(engine.enlisted_topic(transactional_id, producer, topics[t], results[t]));
    }
    assert forall|t: int, p: int|
        0 <= t < topics.len()
            && 0 <= p < topics[t].1.len() implies #[trigger] results[t].partitions[p]
        == (
        topics[t].1[p],
        match replies(t, p) {
            Ok(_) => NO_ERROR,
            Err(error) => codes::coordination_code_of(BrokerError::Coordination(error)),
        },
    ) by {
        assert(engine.enlisted_topic(transactional_id, producer, topics[t], results[t]));
        let partition = topics[t].1[p];
        let result = results[t].partitions[p];
        let request = CoordinationRequestModel::AddPartition {
            transactional_id,
            producer,
            topic: topics[t].0,
            partition,
        };
        assert(engine.enlisted(transactional_id, producer, topics[t].0, partition, result));
        let outcome = choose|outcome: Result<(), BrokerError>| #[trigger]
            engine.broker.can_apply(request, outcome) && result == (
                partition,
                codes::outcome_code(outcome),
            );
        lemma_applied(
            engine.broker,
            request,
            match replies(t, p) {
                Ok(_) => Ok(CoordinationResultModel::Applied),
                Err(error) => Err(error),
            },
            outcome,
        );
    }
    results
}

// ---------------------------------------------------------------------------
// Frames
// ---------------------------------------------------------------------------

/// A frame is answered as the request that it says.
pub proof fn law_frames_are_answered_as_they_say<S: Shards>(
    engine: EngineModel<S>,
    header: HeaderModel,
    body: Seq<u8>,
    model: BodyModel,
    r: Result<Seq<u8>, Error>,
)
    requires
        client_frames::says(header, body, model),
    ensures
        engine.answers_frame(client_frames::frame(header, body), r) <==> engine.answers(
            RequestModel { header, body: model },
            r,
        ),
{
}

// ---------------------------------------------------------------------------
// Transactions that do not end
// ---------------------------------------------------------------------------

/// Whether a shard cannot be reached with a request: every call fails in this
/// way.
pub open spec fn cannot_reach<S: Shards>(
    broker: Broker<S>,
    shard: nat,
    request: PartitionRequestModel,
    error: BrokerError,
) -> bool {
    forall|call: CallModel| #[trigger]
        broker.shards().can_answer(shard, request, call) ==> call == Err::<
            PartitionResultModel,
            BrokerError,
        >(error)
}

proof fn lemma_none_failed(steps: Seq<Result<(), BrokerError>>, k: int)
    requires
        broker::first_failure(steps) is Ok,
        0 <= k < steps.len(),
    ensures
        steps[k] is Ok,
    decreases steps.len(),
{
    if k < steps.len() - 1 {
        lemma_none_failed(steps.drop_last(), k);
    }
}

proof fn lemma_failure_at(
    steps: Seq<Result<(), BrokerError>>,
    count: nat,
    k: int,
    error: BrokerError,
)
    requires
        broker::taken(steps, count),
        0 <= k < count,
        forall|i: int| 0 <= i < k && i < steps.len() ==> (#[trigger] steps[i]) is Ok,
        k < steps.len() ==> steps[k] == Err::<(), BrokerError>(error),
    ensures
        broker::first_failure(steps) == Err::<(), BrokerError>(error),
{
    if steps.len() <= k {
        transaction_laws::lemma_no_failure(steps);
    }
    if steps.len() > k + 1 {
        lemma_none_failed(steps.drop_last(), k);
        assert(steps.drop_last()[k] == steps[k]);
    }
    assert(steps.last() == steps[k]);
    let front = steps.drop_last();
    assert forall|i: int| 0 <= i < front.len() implies (#[trigger] front[i]) is Ok by {
        assert(front[i] == steps[i]);
    }
    transaction_laws::lemma_no_failure(front);
}

/// A transaction whose producer cannot be resolved on one of the enlisted
/// partitions is not answered as ended: when all before it are resolved and its
/// owner cannot be reached, the answer is the error of that call.
pub proof fn law_end_txn_reports_an_unresolved_partition<S: Shards>(
    engine: EngineModel<S>,
    header: HeaderModel,
    transactional_id: Seq<u8>,
    producer: ProducerIdentity,
    commit: bool,
    completion: CompletionModel,
    k: int,
    error: BrokerError,
    r: Result<Seq<u8>, Error>,
)
    requires
        engine.answers(
            RequestModel {
                header,
                body: BodyModel::EndTxn {
                    transactional_id,
                    producer_id: producer.id,
                    producer_epoch: producer.epoch,
                    commit,
                },
            },
            r,
        ),
        coordinator_replies(
            engine.broker,
            CoordinationRequestModel::EndTransaction { transactional_id, producer, commit },
            Ok(CoordinationResultModel::TransactionCompleted(completion)),
        ),
        0 <= k < completion.partitions.len(),
        forall|i: int|
            0 <= i < k ==> owner_replies(
                engine.broker,
                #[trigger] completion.partitions[i],
                PartitionRequestModel::ResolveTransaction { producer_id: producer.id, commit },
                PartitionResultModel::Resolved,
            ),
        cannot_reach(
            engine.broker,
            broker::placement(
                completion.partitions[k].0,
                completion.partitions[k].1,
                engine.broker.shards().count() as nat,
            ),
            PartitionRequestModel::ResolveTransaction { producer_id: producer.id, commit },
            error,
        ),
    ensures
        r is Ok,
        r->Ok_0.len() == 14,
        code_at(r->Ok_0, 12) == codes::coordination_code_of(error),
        code_at(r->Ok_0, 12) != NO_ERROR,
{
    let outcome = choose|outcome: Result<(), BrokerError>|
        #[trigger] engine.broker.can_end(transactional_id, producer, commit, outcome) && r == Ok::<
            Seq<u8>,
            Error,
        >(
            codec::frame_bytes(
                header.correlation_id,
                codec::i32_bytes(0) + codec::i16_bytes(codes::outcome_code(outcome)),
            ),
        );
    lemma_throttled_code(header.correlation_id, 0, codes::outcome_code(outcome));
    let request = CoordinationRequestModel::EndTransaction { transactional_id, producer, commit };
    let call = choose|call: CoordinationCallModel| #[trigger]
        engine.broker.can_coordinate(request, call) && match broker::completion_answer(call) {
            Err(error) => outcome == Err::<(), BrokerError>(error),
            Ok(completion) => engine.broker.can_complete(completion, producer.id, commit, outcome),
        };
    lemma_coordinated(
        engine.broker,
        request,
        Ok(CoordinationResultModel::TransactionCompleted(completion)),
        call,
    );
    let (resolves, commits) = choose|
        resolves: Seq<Result<(), BrokerError>>,
        commits: Seq<Result<(), BrokerError>>,
    | #[trigger]
        engine.broker.completed_by(completion, producer.id, commit, resolves, commits, outcome);
    assert forall|i: int| 0 <= i < k
        && i < resolves.len() implies (#[trigger] resolves[i]) is Ok by {
        assert(engine.broker.can_resolve(
            completion.partitions[i],
            producer.id,
            commit,
            resolves[i],
        ));
    }
    if k < resolves.len() {
        assert(engine.broker.can_resolve(
            completion.partitions[k],
            producer.id,
            commit,
            resolves[k],
        ));
        assert(resolves[k] == Err::<(), BrokerError>(error));
    }
    lemma_failure_at(resolves, completion.partitions.len(), k, error);
}

/// A transaction that is to be committed is not answered as ended when one of
/// its offsets is refused: when all partitions are resolved and all offsets
/// before it are taken, the answer is the error that the coordinator replies.
pub proof fn law_end_txn_reports_a_refused_offset<S: Shards>(
    engine: EngineModel<S>,
    header: HeaderModel,
    transactional_id: Seq<u8>,
    producer: ProducerIdentity,
    completion: CompletionModel,
    k: int,
    error: CoordinationError,
    r: Result<Seq<u8>, Error>,
)
    requires
        engine.answers(
            RequestModel {
                header,
                body: BodyModel::EndTxn {
                    transactional_id,
                    producer_id: producer.id,
                    producer_epoch: producer.epoch,
                    commit: true,
                },
            },
            r,
        ),
        coordinator_replies(
            engine.broker,
            CoordinationRequestModel::EndTransaction { transactional_id, producer, commit: true },
            Ok(CoordinationResultModel::TransactionCompleted(completion)),
        ),
        forall|i: int|
            0 <= i < completion.partitions.len() ==> owner_replies(
                engine.broker,
                #[trigger] completion.partitions[i],
                PartitionRequestModel::ResolveTransaction {
                    producer_id: producer.id,
                    commit: true,
                },
                PartitionResultModel::Resolved,
            ),
        0 <= k < completion.offsets.len(),
        forall|i: int|
            0 <= i <= k ==> coordinator_replies(
                engine.broker,
                CoordinationRequestModel::CommitOffset {
                    group_id: (#[trigger] completion.offsets[i]).group_id,
                    generation: completion.offsets[i].generation,
                    topic: completion.offsets[i].topic,
                    partition: completion.offsets[i].partition,
                    offset: completion.offsets[i].offset,
                },
                if i < k {
                    Ok(CoordinationResultModel::Applied)
                } else {
                    Err(error)
                },
            ),
    ensures
        r is Ok,
        r->Ok_0.len() == 14,
        code_at(r->Ok_0, 12) == codes::coordination_code_of(BrokerError::Coordination(error)),
        code_at(r->Ok_0, 12) != NO_ERROR,
{
    let commit = true;
    let outcome = choose|outcome: Result<(), BrokerError>|
        #[trigger] engine.broker.can_end(transactional_id, producer, commit, outcome) && r == Ok::<
            Seq<u8>,
            Error,
        >(
            codec::frame_bytes(
                header.correlation_id,
                codec::i32_bytes(0) + codec::i16_bytes(codes::outcome_code(outcome)),
            ),
        );
    lemma_throttled_code(header.correlation_id, 0, codes::outcome_code(outcome));
    let request = CoordinationRequestModel::EndTransaction { transactional_id, producer, commit };
    let call = choose|call: CoordinationCallModel| #[trigger]
        engine.broker.can_coordinate(request, call) && match broker::completion_answer(call) {
            Err(error) => outcome == Err::<(), BrokerError>(error),
            Ok(completion) => engine.broker.can_complete(completion, producer.id, commit, outcome),
        };
    lemma_coordinated(
        engine.broker,
        request,
        Ok(CoordinationResultModel::TransactionCompleted(completion)),
        call,
    );
    let (resolves, commits) = choose|
        resolves: Seq<Result<(), BrokerError>>,
        commits: Seq<Result<(), BrokerError>>,
    | #[trigger]
        engine.broker.completed_by(completion, producer.id, commit, resolves, commits, outcome);
    assert forall|i: int| 0 <= i < resolves.len() implies (#[trigger] resolves[i]) is Ok by {
        assert(engine.broker.can_resolve(
            completion.partitions[i],
            producer.id,
            commit,
            resolves[i],
        ));
    }
    transaction_laws::lemma_no_failure(resolves);
    assert forall|i: int| 0 <= i <= k && i < commits.len() implies #[trigger] commits[i]
        == (if i < k {
        Ok::<(), BrokerError>(())
    } else {
        Err(BrokerError::Coordination(error))
    }) by {
        let offset = completion.offsets[i];
        assert(engine.broker.can_commit(offset, commits[i]));
        lemma_applied(
            engine.broker,
            CoordinationRequestModel::CommitOffset {
                group_id: offset.group_id,
                generation: offset.generation,
                topic: offset.topic,
                partition: offset.partition,
                offset: offset.offset,
            },
            if i < k {
                Ok(CoordinationResultModel::Applied)
            } else {
                Err(error)
            },
            commits[i],
        );
    }
    lemma_failure_at(commits, completion.offsets.len(), k, BrokerError::Coordination(error));
}

/// The last byte of an EndTxn frame decides how the transaction ends: it is
/// answered as a request to commit when that is one, and as a request to abort
/// when it is zero.
pub proof fn law_the_last_byte_of_an_end_txn_frame_decides<S: Shards>(
    engine: EngineModel<S>,
    header: HeaderModel,
    transactional_id: Seq<u8>,
    producer: ProducerIdentity,
    flag: i8,
    r: Result<Seq<u8>, Error>,
)
    requires
        client_frames::sendable(
            header,
            api::END_TXN,
            version::END_TXN,
            client_frames::end_txn_body(transactional_id, producer.id, producer.epoch, flag),
        ),
        transactional_id.len() <= MAX_STRING_LEN,
        flag == 0 || flag == 1,
        engine.answers_frame(
            client_frames::frame(
                header,
                client_frames::end_txn_body(transactional_id, producer.id, producer.epoch, flag),
            ),
            r,
        ),
    ensures
        ({
            let frame = client_frames::frame(
                header,
                client_frames::end_txn_body(transactional_id, producer.id, producer.epoch, flag),
            );
            frame.len() > 0 && frame.last() as i8 == flag
        }),
        engine.answers(
            RequestModel {
                header,
                body: BodyModel::EndTxn {
                    transactional_id,
                    producer_id: producer.id,
                    producer_epoch: producer.epoch,
                    commit: flag == 1,
                },
            },
            r,
        ),
{
    client_frames::law_end_txn_frame(header, transactional_id, producer.id, producer.epoch, flag);
    assert((flag as u8) as i8 == flag) by (bit_vector);
}

/// An OffsetCommit frame is answered as the commit of the offset that it holds,
/// for the topic and partition that it holds.
pub proof fn law_offset_commit_frames_name_their_partition<S: Shards>(
    engine: EngineModel<S>,
    header: HeaderModel,
    group_id: Seq<u8>,
    generation: i32,
    member_id: Seq<u8>,
    retention_ms: i64,
    topic: Seq<u8>,
    partition: i32,
    offset: i64,
    metadata: Option<Seq<u8>>,
    r: Result<Seq<u8>, Error>,
)
    requires
        ({
            let body = client_frames::offset_commit_body(
                group_id,
                generation,
                member_id,
                retention_ms,
                topic,
                partition,
                offset,
                metadata,
            );
            &&& client_frames::sendable(header, api::OFFSET_COMMIT, version::OFFSET_COMMIT, body)
            &&& engine.answers_frame(client_frames::frame(header, body), r)
        }),
        group_id.len() <= MAX_STRING_LEN,
        member_id.len() <= MAX_STRING_LEN,
        topic.len() <= MAX_STRING_LEN,
        metadata matches Some(metadata) ==> metadata.len() <= MAX_STRING_LEN,
    ensures
        engine.answers(
            RequestModel {
                header,
                body: BodyModel::OffsetCommit {
                    group_id,
                    generation,
                    member_id,
                    topic,
                    partition,
                    offset,
                },
            },
            r,
        ),
{
    client_frames::law_offset_commit_frame(
        header,
        group_id,
        generation,
        member_id,
        retention_ms,
        topic,
        partition,
        offset,
        metadata,
    );
}

} // verus!
