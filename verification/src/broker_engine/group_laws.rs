//! What group members get from requests that go to the coordinator.

use vstd::prelude::*;

use crate::broker_core::coordination::{AssignmentModel, CoordinationError};
use crate::broker_engine::answers::{self, EngineModel};
use crate::broker_engine::codes;
use crate::broker_engine::end_to_end;
use crate::broker_engine::groups;
use crate::broker_runtime::broker::{self, CoordinationCallModel};
use crate::broker_runtime::error::BrokerError;
use crate::broker_runtime::links::Shards;
use crate::broker_runtime::message::{CoordinationRequestModel, CoordinationResultModel};
use crate::broker_runtime::partition::CoordinationModel;
use crate::broker_wire::client_frames;
use crate::broker_wire::codec;
use crate::broker_wire::places;
use crate::broker_wire::protocol::{Error, MAX_FRAME_LEN, MAX_STRING_LEN, NO_ERROR};
use crate::broker_wire::request::{self, BodyModel, HeaderModel, RequestModel};
use crate::broker_wire::response::{self, Field, JoinGroupResponse, JoinGroupResponseModel};

verus! {

/// Whether a response holds one topic with one partition, and these fields of it
/// behind the partition's index.
pub open spec fn tells_of(response: Seq<u8>, topic: Seq<u8>, partition: i32, fields: int) -> bool {
    let n = topic.len() as int;
    &&& response.len() == 22 + n + fields
    &&& end_to_end::word_at(response, 8) == 1
    &&& end_to_end::code_at(response, 12) == n
    &&& response.subrange(14, 14 + n) == topic
    &&& end_to_end::word_at(response, 14 + n) == 1
    &&& end_to_end::word_at(response, 18 + n) == partition
}

proof fn lemma_one_partition(correlation_id: i32, topic: Seq<u8>, partition: i32, fields: Seq<u8>)
    requires
        topic.len() <= MAX_STRING_LEN,
    ensures
        ({
            let r = codec::frame_result(
                correlation_id,
                response::one_partition_bytes(topic, partition, fields),
            );
            let n = topic.len() as int;
            &&& r is Ok
            &&& end_to_end::word_at(r->Ok_0, 4) == correlation_id
            &&& tells_of(r->Ok_0, topic, partition, fields.len() as int)
            &&& forall|a: int, b: int|
                0 <= a <= b <= fields.len() ==> #[trigger] r->Ok_0.subrange(22 + n + a, 22 + n + b)
                    == fields.subrange(a, b)
        }),
{
    let n = topic.len() as int;
    let body = response::one_partition_bytes(topic, partition, fields)->Ok_0;
    let frame = codec::frame_bytes(correlation_id, body);
    codec::lemma_be_len((1i32 as u32) as nat, 4);
    codec::lemma_be_len((partition as u32) as nat, 4);
    codec::lemma_be_len(((n as i16) as u16) as nat, 2);
    codec::law_integers_round_trip(0, n as i16, 1, 0, 0);
    codec::law_integers_round_trip(0, 0, partition, 0, 0);
    end_to_end::lemma_frame(correlation_id, body);
    assert(body.len() == 14 + n + fields.len());
    assert(body.subrange(0, 4) =~= codec::i32_bytes(1));
    assert(body.subrange(4, 6) =~= codec::i16_bytes(n as i16));
    assert(body.subrange(6, 6 + n) =~= topic);
    assert(body.subrange(6 + n, 10 + n) =~= codec::i32_bytes(1));
    assert(body.subrange(10 + n, 14 + n) =~= codec::i32_bytes(partition));
    assert(frame.subrange(8 + 0int, 8 + 4int) == body.subrange(0, 4));
    assert(frame.subrange(8 + 4int, 8 + 6int) == body.subrange(4, 6));
    assert(frame.subrange(8 + 6int, 8 + (6 + n)) == body.subrange(6, 6 + n));
    assert(frame.subrange(8 + (6 + n), 8 + (10 + n)) == body.subrange(6 + n, 10 + n));
    assert(frame.subrange(8 + (10 + n), 8 + (14 + n)) == body.subrange(10 + n, 14 + n));
    assert forall|a: int, b: int| 0 <= a <= b <= fields.len() implies #[trigger] frame.subrange(
        22 + n + a,
        22 + n + b,
    ) == fields.subrange(a, b) by {
        assert(frame.subrange(8 + (14 + n + a), 8 + (14 + n + b)) == body.subrange(
            14 + n + a,
            14 + n + b,
        ));
        assert(body.subrange(14 + n + a, 14 + n + b) =~= fields.subrange(a, b));
    }
}

/// An offset commit is answered for the partition that it names, with what the
/// coordinator replies to the commit of that very offset for that very
/// partition.
pub proof fn law_offset_commit_is_for_its_partition<S: Shards>(
    engine: EngineModel<S>,
    header: HeaderModel,
    group_id: Seq<u8>,
    generation: i32,
    member_id: Seq<u8>,
    topic: Seq<u8>,
    partition: i32,
    offset: i64,
    reply: Result<CoordinationResultModel, CoordinationError>,
    r: Result<Seq<u8>, Error>,
)
    requires
        topic.len() <= MAX_STRING_LEN,
        engine.answers(
            RequestModel {
                header,
                body: BodyModel::OffsetCommit {
                    group_id,
                    generation,
                    member_id,
                    topic,
                    partition,
                    offset,
                },
            },
            r,
        ),
        end_to_end::coordinator_replies(
            engine.broker,
            CoordinationRequestModel::CommitOffset {
                group_id,
                generation,
                topic,
                partition,
                offset,
            },
            reply,
        ),
        reply is Err || reply->Ok_0 == CoordinationResultModel::Applied,
    ensures
        r is Ok,
        end_to_end::word_at(r->Ok_0, 4) == header.correlation_id,
        tells_of(r->Ok_0, topic, partition, 2),
        ({
            let code = end_to_end::code_at(r->Ok_0, 22 + topic.len() as int);
            match reply {
                Ok(_) => code == NO_ERROR,
                Err(error) => code == codes::coordination_code_of(BrokerError::Coordination(error))
                    && code != NO_ERROR,
            }
        }),
{
    let request = CoordinationRequestModel::CommitOffset {
        group_id,
        generation,
        topic,
        partition,
        offset,
    };
    let outcome = choose|outcome: Result<(), BrokerError>| #[trigger]
        engine.broker.can_apply(request, outcome) && r == codec::frame_result(
            header.correlation_id,
            response::one_partition_bytes(
                topic,
                partition,
                codec::i16_bytes(codes::outcome_code(outcome)),
            ),
        );
    end_to_end::lemma_applied(engine.broker, request, reply, outcome);
    let code = codes::outcome_code(outcome);
    let fields = codec::i16_bytes(code);
    let n = topic.len() as int;
    codec::lemma_be_len((code as u16) as nat, 2);
    codec::law_integers_round_trip(0, code, 0, 0, 0);
    lemma_one_partition(header.correlation_id, topic, partition, fields);
    assert(r->Ok_0.subrange(22 + n + 0int, 22 + n + 2int) == fields.subrange(0, 2));
    assert(fields.subrange(0, 2) =~= fields);
}

/// An offset fetch is answered for the partition that it names, with the offset
/// that the coordinator replies for that very partition: -1 where there is none.
pub proof fn law_offset_fetch_is_of_its_partition<S: Shards>(
    engine: EngineModel<S>,
    header: HeaderModel,
    group_id: Seq<u8>,
    topic: Seq<u8>,
    partition: i32,
    found: Result<Option<i64>, CoordinationError>,
    r: Result<Seq<u8>, Error>,
)
    requires
        topic.len() <= MAX_STRING_LEN,
        engine.answers(
            RequestModel { header, body: BodyModel::OffsetFetch { group_id, topic, partition } },
            r,
        ),
        end_to_end::coordinator_replies(
            engine.broker,
            CoordinationRequestModel::FetchOffset { group_id, topic, partition },
            match found {
                Ok(offset) => Ok(CoordinationResultModel::Offset(offset)),
                Err(error) => Err(error),
            },
        ),
    ensures
        r is Ok,
        end_to_end::word_at(r->Ok_0, 4) == header.correlation_id,
        tells_of(r->Ok_0, topic, partition, 12),
        end_to_end::code_at(r->Ok_0, 30 + topic.len() as int) == -1,
        ({
            let offset = end_to_end::long_at(r->Ok_0, 22 + topic.len() as int);
            let code = end_to_end::code_at(r->Ok_0, 32 + topic.len() as int);
            match found {
                Ok(Some(known)) => offset == known && code == NO_ERROR,
                Ok(None) => offset == -1 && code == NO_ERROR,
                Err(error) => offset == -1 && code != NO_ERROR && code
                    == codes::coordination_code_of(BrokerError::Coordination(error)),
            }
        }),
{
    let request = CoordinationRequestModel::FetchOffset { group_id, topic, partition };
    let reply = match found {
        Ok(offset) => Ok(CoordinationResultModel::Offset(offset)),
        Err(error) => Err(error),
    };
    let outcome = choose|outcome: Result<Option<i64>, BrokerError>| #[trigger]
        engine.broker.can_read_offset(group_id, topic, partition, outcome) && r
            == codec::frame_result(
            header.correlation_id,
            response::one_partition_bytes(
                topic,
                partition,
                response::offset_fetch_fields(
                    answers::offset_fetch_response(outcome).0,
                    answers::offset_fetch_response(outcome).1,
                ),
            ),
        );
    let call = choose|call: CoordinationCallModel| #[trigger]
        engine.broker.can_coordinate(request, call) && outcome == broker::group_offset_answer(call);
    end_to_end::lemma_coordinated(engine.broker, request, reply, call);
    let (offset, code) = answers::offset_fetch_response(outcome);
    let fields = response::offset_fetch_fields(offset, code);
    let n = topic.len() as int;
    codec::lemma_be_len((offset as u64) as nat, 8);
    codec::lemma_be_len((code as u16) as nat, 2);
    codec::lemma_be_len((((-1) as i16) as u16) as nat, 2);
    codec::law_integers_round_trip(0, code, 0, offset, 0);
    codec::law_integers_round_trip(0, (-1) as i16, 0, 0, 0);
    lemma_one_partition(header.correlation_id, topic, partition, fields);
    assert(r->Ok_0.subrange(22 + n + 0int, 22 + n + 8int) == fields.subrange(0, 8));
    assert(r->Ok_0.subrange(22 + n + 8int, 22 + n + 10int) == fields.subrange(8, 10));
    assert(r->Ok_0.subrange(22 + n + 10int, 22 + n + 12int) == fields.subrange(10, 12));
    assert(fields.subrange(0, 8) =~= codec::i64_bytes(offset));
    assert(fields.subrange(8, 10) =~= codec::i16_bytes((-1) as i16));
    assert(fields.subrange(10, 12) =~= codec::i16_bytes(code));
}

/// What an offset commit does, when the coordinator serves one request after the
/// other. It succeeds exactly when the group is known, the generation is its
/// current one and neither the partition nor the offset is negative. Then an
/// offset fetch for the same partition of the same group is answered with the
/// committed offset. An offset fetch for anything else, and every one behind a
/// refused commit, is answered as it would have been before.
pub proof fn law_offset_fetch_returns_what_was_committed<S: Shards>(
    engine: EngineModel<S>,
    earlier: EngineModel<S>,
    coordinator: CoordinationModel,
    commit_header: HeaderModel,
    group_id: Seq<u8>,
    generation: i32,
    member_id: Seq<u8>,
    topic: Seq<u8>,
    partition: i32,
    offset: i64,
    committed: Result<Seq<u8>, Error>,
    header: HeaderModel,
    asked: (Seq<u8>, Seq<u8>, i32),
    fetched: Result<Seq<u8>, Error>,
    before: Result<Seq<u8>, Error>,
)
    requires
        topic.len() <= MAX_STRING_LEN,
        asked.1.len() <= MAX_STRING_LEN,
        ({
            let commit = CoordinationRequestModel::CommitOffset {
                group_id,
                generation,
                topic,
                partition,
                offset,
            };
            let read = CoordinationRequestModel::FetchOffset {
                group_id: asked.0,
                topic: asked.1,
                partition: asked.2,
            };
            let (after, reply) = coordinator.coordinated(commit);
            &&& end_to_end::coordinator_replies(
                earlier.broker,
                read,
                coordinator.coordinated(read).1,
            )
            &&& end_to_end::coordinator_replies(engine.broker, commit, reply)
            &&& end_to_end::coordinator_replies(engine.broker, read, after.coordinated(read).1)
        }),
        engine.answers(
            RequestModel {
                header: commit_header,
                body: BodyModel::OffsetCommit {
                    group_id,
                    generation,
                    member_id,
                    topic,
                    partition,
                    offset,
                },
            },
            committed,
        ),
        ({
            let body = BodyModel::OffsetFetch {
                group_id: asked.0,
                topic: asked.1,
                partition: asked.2,
            };
            &&& engine.answers(RequestModel { header, body }, fetched)
            &&& earlier.answers(RequestModel { header, body }, before)
        }),
    ensures
        committed is Ok,
        tells_of(committed->Ok_0, topic, partition, 2),
        fetched is Ok,
        tells_of(fetched->Ok_0, asked.1, asked.2, 12),
        ({
            let groups = coordinator.groups.groups;
            let code = end_to_end::code_at(committed->Ok_0, 22 + topic.len() as int);
            &&& code == NO_ERROR <==> groups.contains_key(group_id) && groups[group_id].generation
                == generation && partition >= 0 && offset >= 0
            &&& if code == NO_ERROR && asked == (group_id, topic, partition) {
                &&& end_to_end::code_at(fetched->Ok_0, 32 + topic.len() as int) == NO_ERROR
                &&& end_to_end::long_at(fetched->Ok_0, 22 + topic.len() as int) == offset
            } else {
                &&& end_to_end::code_at(fetched->Ok_0, 32 + asked.1.len() as int)
                    == end_to_end::code_at(before->Ok_0, 32 + asked.1.len() as int)
                &&& end_to_end::long_at(fetched->Ok_0, 22 + asked.1.len() as int)
                    == end_to_end::long_at(before->Ok_0, 22 + asked.1.len() as int)
            }
        }),
{
    let commit = CoordinationRequestModel::CommitOffset {
        group_id,
        generation,
        topic,
        partition,
        offset,
    };
    let (after, reply) = coordinator.coordinated(commit);
    law_offset_commit_is_for_its_partition(
        engine,
        commit_header,
        group_id,
        generation,
        member_id,
        topic,
        partition,
        offset,
        reply,
        committed,
    );
    law_offset_fetch_is_of_its_partition(
        engine,
        header,
        asked.0,
        asked.1,
        asked.2,
        after.groups.offset(asked.0, asked.1, asked.2),
        fetched,
    );
    law_offset_fetch_is_of_its_partition(
        earlier,
        header,
        asked.0,
        asked.1,
        asked.2,
        coordinator.groups.offset(asked.0, asked.1, asked.2),
        before,
    );
}

// ---------------------------------------------------------------------------
// Members
// ---------------------------------------------------------------------------

proof fn lemma_code_alone(correlation_id: i32, code: i16)
    ensures
        ({
            let frame = codec::frame_bytes(correlation_id, codec::i16_bytes(code));
            &&& frame.len() == 10
            &&& end_to_end::word_at(frame, 4) == correlation_id
            &&& end_to_end::code_at(frame, 8) == code
        }),
{
    let body = codec::i16_bytes(code);
    codec::lemma_be_len((code as u16) as nat, 2);
    codec::law_integers_round_trip(0, code, 0, 0, 0);
    end_to_end::lemma_frame(correlation_id, body);
    let frame = codec::frame_bytes(correlation_id, body);
    assert(frame.subrange(8 + 0int, 8 + 2int) == body.subrange(0, 2));
    assert(body.subrange(0, 2) =~= body);
}

proof fn lemma_group_error<S: Shards>(
    engine: EngineModel<S>,
    correlation_id: i32,
    request: CoordinationRequestModel,
    reply: Result<CoordinationResultModel, CoordinationError>,
    r: Result<Seq<u8>, Error>,
)
    requires
        engine.group_error_answer(correlation_id, request, r),
        end_to_end::coordinator_replies(engine.broker, request, reply),
        reply is Err || reply->Ok_0 == CoordinationResultModel::Applied,
    ensures
        r is Ok,
        r->Ok_0.len() == 10,
        end_to_end::word_at(r->Ok_0, 4) == correlation_id,
        reply is Ok ==> end_to_end::code_at(r->Ok_0, 8) == NO_ERROR,
        reply matches Err(error) ==> end_to_end::code_at(r->Ok_0, 8) == codes::coordination_code_of(
            BrokerError::Coordination(error),
        ) && end_to_end::code_at(r->Ok_0, 8) != NO_ERROR,
{
    let outcome = choose|outcome: Result<(), BrokerError>| #[trigger]
        engine.broker.can_apply(request, outcome) && r == Ok::<Seq<u8>, Error>(
            codec::frame_bytes(correlation_id, codec::i16_bytes(codes::outcome_code(outcome))),
        );
    end_to_end::lemma_applied(engine.broker, request, reply, outcome);
    lemma_code_alone(correlation_id, codes::outcome_code(outcome));
}

/// A heartbeat is answered without an error exactly when the coordinator knows
/// the group, the generation is its current one, and the member is in it with
/// that generation.
pub proof fn law_heartbeat_is_of_a_current_member<S: Shards>(
    engine: EngineModel<S>,
    coordinator: CoordinationModel,
    header: HeaderModel,
    group_id: Seq<u8>,
    generation: i32,
    member_id: Seq<u8>,
    r: Result<Seq<u8>, Error>,
)
    requires
        engine.answers(
            RequestModel { header, body: BodyModel::Heartbeat { group_id, generation, member_id } },
            r,
        ),
        ({
            let request = CoordinationRequestModel::Heartbeat { group_id, member_id, generation };
            end_to_end::coordinator_replies(
                engine.broker,
                request,
                coordinator.coordinated(request).1,
            )
        }),
    ensures
        r is Ok,
        r->Ok_0.len() == 10,
        end_to_end::word_at(r->Ok_0, 4) == header.correlation_id,
        end_to_end::code_at(r->Ok_0, 8) == NO_ERROR <==> {
            let groups = coordinator.groups.groups;
            &&& groups.contains_key(group_id)
            &&& groups[group_id].generation == generation
            &&& groups[group_id].members.contains_key(member_id)
            &&& groups[group_id].members[member_id].generation == generation
        },
{
    let request = CoordinationRequestModel::Heartbeat { group_id, member_id, generation };
    lemma_group_error(
        engine,
        header.correlation_id,
        request,
        coordinator.coordinated(request).1,
        r,
    );
}

/// A member leaves its group. The request is answered without an error exactly
/// when the coordinator knows the group and the member is in it. Then a
/// heartbeat of that member is refused, whatever its generation; and one of any
/// other member is refused too when it carries the generation from before.
pub proof fn law_a_member_that_left_is_gone<S: Shards>(
    engine: EngineModel<S>,
    coordinator: CoordinationModel,
    header: HeaderModel,
    group_id: Seq<u8>,
    member_id: Seq<u8>,
    left: Result<Seq<u8>, Error>,
    beat_header: HeaderModel,
    generation: i32,
    anyone: Seq<u8>,
    beat: Result<Seq<u8>, Error>,
)
    requires
        engine.answers(
            RequestModel { header, body: BodyModel::LeaveGroup { group_id, member_id } },
            left,
        ),
        engine.answers(
            RequestModel {
                header: beat_header,
                body: BodyModel::Heartbeat { group_id, generation, member_id: anyone },
            },
            beat,
        ),
        ({
            let leave = CoordinationRequestModel::LeaveGroupAny { group_id, member_id };
            let heartbeat = CoordinationRequestModel::Heartbeat {
                group_id,
                member_id: anyone,
                generation,
            };
            let (after, reply) = coordinator.coordinated(leave);
            &&& end_to_end::coordinator_replies(engine.broker, leave, reply)
            &&& end_to_end::coordinator_replies(
                engine.broker,
                heartbeat,
                after.coordinated(heartbeat).1,
            )
        }),
    ensures
        left is Ok,
        left->Ok_0.len() == 10,
        end_to_end::word_at(left->Ok_0, 4) == header.correlation_id,
        beat is Ok,
        ({
            let groups = coordinator.groups.groups;
            let code = end_to_end::code_at(left->Ok_0, 8);
            &&& code == NO_ERROR <==> groups.contains_key(group_id)
                && groups[group_id].members.contains_key(member_id)
            &&& code == NO_ERROR && anyone == member_id ==> end_to_end::code_at(beat->Ok_0, 8)
                != NO_ERROR
            &&& code == NO_ERROR && generation == groups[group_id].generation && generation
                < i32::MAX ==> end_to_end::code_at(beat->Ok_0, 8) != NO_ERROR
        }),
{
    let leave = CoordinationRequestModel::LeaveGroupAny { group_id, member_id };
    let (after, reply) = coordinator.coordinated(leave);
    lemma_group_error(engine, header.correlation_id, leave, reply, left);
    law_heartbeat_is_of_a_current_member(
        engine,
        after,
        beat_header,
        group_id,
        generation,
        anyone,
        beat,
    );
}

/// A sync is answered with the assignment that it carries.
pub proof fn law_sync_returns_its_assignment<S: Shards>(
    engine: EngineModel<S>,
    header: HeaderModel,
    group_id: Seq<u8>,
    generation: i32,
    member_id: Seq<u8>,
    assignment: Seq<u8>,
    r: Result<Seq<u8>, Error>,
)
    requires
        assignment.len() <= MAX_FRAME_LEN,
        engine.answers(
            RequestModel {
                header,
                body: BodyModel::SyncGroup { group_id, generation, member_id, assignment },
            },
            r,
        ),
    ensures
        r is Ok,
        r->Ok_0.len() == 14 + assignment.len(),
        end_to_end::word_at(r->Ok_0, 4) == header.correlation_id,
        end_to_end::code_at(r->Ok_0, 8) == NO_ERROR,
        end_to_end::word_at(r->Ok_0, 10) == assignment.len(),
        r->Ok_0.skip(14) == assignment,
{
    let n = assignment.len() as int;
    let body = response::sync_group_bytes(NO_ERROR, assignment)->Ok_0;
    let frame = codec::frame_bytes(header.correlation_id, body);
    codec::lemma_be_len((NO_ERROR as u16) as nat, 2);
    codec::lemma_be_len(((n as i32) as u32) as nat, 4);
    codec::law_integers_round_trip(0, NO_ERROR, n as i32, 0, 0);
    end_to_end::lemma_frame(header.correlation_id, body);
    assert(body.subrange(0, 2) =~= codec::i16_bytes(NO_ERROR));
    assert(body.subrange(2, 6) =~= codec::i32_bytes(n as i32));
    assert(body.subrange(6, 6 + n) =~= assignment);
    assert(frame.subrange(8 + 0int, 8 + 2int) == body.subrange(0, 2));
    assert(frame.subrange(8 + 2int, 8 + 6int) == body.subrange(2, 6));
    assert(frame.subrange(8 + 6int, 8 + (6 + n)) == body.subrange(6, 6 + n));
    assert(frame.skip(14) =~= frame.subrange(8 + 6int, 8 + (6 + n)));
}

/// The member that a join is about: the one it names or, where it names none,
/// one that is made up from its correlation id.
pub open spec fn is_joining(header: HeaderModel, member_id: Seq<u8>, member: Seq<u8>) -> bool {
    if member_id.len() > 0 {
        member == member_id
    } else {
        member == groups::member_id_for(header.correlation_id)
    }
}

/// A join asks the coordinator to let that member into that group with its
/// subscriptions, over every partition of every topic. When it does, the answer
/// has the generation that it replies and the protocol `charlotte-fixed-v1`,
/// names the member as itself and as the leader, and lists the members of the
/// group, each with the subscriptions of the one that joins.
pub proof fn law_join_answers_the_generation_and_members<S: Shards>(
    engine: EngineModel<S>,
    header: HeaderModel,
    group_id: Seq<u8>,
    member_id: Seq<u8>,
    subscriptions: Seq<Seq<u8>>,
    member: Seq<u8>,
    generation: i32,
    assignments: Seq<AssignmentModel>,
    metadata: Seq<u8>,
    r: Result<Seq<u8>, Error>,
)
    requires
        engine.answers(
            RequestModel {
                header,
                body: BodyModel::JoinGroup { group_id, member_id, subscriptions },
            },
            r,
        ),
        is_joining(header, member_id, member),
        groups::subscription_bytes(subscriptions) == Ok::<Seq<u8>, Error>(metadata),
        end_to_end::coordinator_replies(
            engine.broker,
            CoordinationRequestModel::JoinGroup {
                group_id,
                member_id: member,
                subscriptions,
                partitions: broker::every_partition(engine.broker.catalog().listed()),
            },
            Ok(CoordinationResultModel::Group { generation, assignments }),
        ),
    ensures
        r == codec::frame_result(
            header.correlation_id,
            JoinGroupResponse::encoded(
                JoinGroupResponseModel {
                    error: NO_ERROR,
                    generation,
                    protocol: seq![
                        99u8, 104, 97, 114, 108, 111, 116, 116, 101, 45, 102, 105, 120, 101, 100,
                        45, 118, 49,
                    ],
                    leader: member,
                    member_id: member,
                    members: Seq::new(
                        assignments.len(),
                        |i: int| (assignments[i].member_id, metadata),
                    ),
                },
            ),
        ),
{
    let request = engine.broker.join_request(group_id, member, subscriptions);
    let outcome = choose|outcome: Result<(i32, Seq<AssignmentModel>), BrokerError>| #[trigger]
        engine.broker.can_join(group_id, member, subscriptions, outcome) && r
            == answers::join_response(header.correlation_id, member, subscriptions, outcome);
    let call = choose|call: CoordinationCallModel| #[trigger]
        engine.broker.can_coordinate(request, call) && outcome == broker::group_answer(call);
    end_to_end::lemma_coordinated(
        engine.broker,
        request,
        Ok(CoordinationResultModel::Group { generation, assignments }),
        call,
    );
}

/// A join that the coordinator refuses is answered with its error, for that
/// member and without a generation.
pub proof fn law_join_reports_a_refusal<S: Shards>(
    engine: EngineModel<S>,
    header: HeaderModel,
    group_id: Seq<u8>,
    member_id: Seq<u8>,
    subscriptions: Seq<Seq<u8>>,
    member: Seq<u8>,
    error: CoordinationError,
    r: Result<Seq<u8>, Error>,
)
    requires
        engine.answers(
            RequestModel {
                header,
                body: BodyModel::JoinGroup { group_id, member_id, subscriptions },
            },
            r,
        ),
        is_joining(header, member_id, member),
        end_to_end::coordinator_replies(
            engine.broker,
            CoordinationRequestModel::JoinGroup {
                group_id,
                member_id: member,
                subscriptions,
                partitions: broker::every_partition(engine.broker.catalog().listed()),
            },
            Err(error),
        ),
    ensures
        codes::coordination_code_of(BrokerError::Coordination(error)) != NO_ERROR,
        r == codec::frame_result(
            header.correlation_id,
            JoinGroupResponse::encoded(
                JoinGroupResponseModel {
                    error: codes::coordination_code_of(BrokerError::Coordination(error)),
                    generation: (-1) as i32,
                    protocol: seq![],
                    leader: seq![],
                    member_id: member,
                    members: seq![],
                },
            ),
        ),
{
    let request = engine.broker.join_request(group_id, member, subscriptions);
    let outcome = choose|outcome: Result<(i32, Seq<AssignmentModel>), BrokerError>| #[trigger]
        engine.broker.can_join(group_id, member, subscriptions, outcome) && r
            == answers::join_response(header.correlation_id, member, subscriptions, outcome);
    let call = choose|call: CoordinationCallModel| #[trigger]
        engine.broker.can_coordinate(request, call) && outcome == broker::group_answer(call);
    end_to_end::lemma_coordinated(engine.broker, request, Err(error), call);
}

proof fn lemma_subscribed(topics: Seq<Seq<u8>>)
    requires
        client_frames::strings_fit(topics),
    ensures
        codec::list_bytes(topics, groups::subscribed_topic()) == Ok::<Seq<u8>, Error>(
            places::flat(topics, client_frames::name_bytes()),
        ),
    decreases topics.len(),
{
    if topics.len() > 0 {
        let shorter = topics.drop_last();
        assert forall|i: int| 0 <= i < shorter.len() implies (#[trigger] shorter[i]).len()
            <= MAX_STRING_LEN by {
            assert(shorter[i] == topics[i]);
        }
        lemma_subscribed(shorter);
        assert(topics[topics.len() - 1].len() <= MAX_STRING_LEN);
    }
}

/// The metadata that a join lists for a member tells the topics that it was made
/// from to whoever reads it as the metadata of a protocol.
pub proof fn law_member_metadata_tells_the_subscriptions(subscriptions: Seq<Seq<u8>>)
    requires
        client_frames::strings_fit(subscriptions),
        client_frames::subscription(0, subscriptions, None).len() <= MAX_FRAME_LEN,
    ensures
        groups::subscription_bytes(subscriptions) is Ok,
        request::parse_subscriptions(
            groups::subscription_bytes(subscriptions)->Ok_0,
        ).result == Ok::<
            Seq<Seq<u8>>,
            Error,
        >(subscriptions),
{
    lemma_subscribed(subscriptions);
    let list = places::flat(subscriptions, client_frames::name_bytes());
    assert(groups::subscription_bytes(subscriptions)->Ok_0 =~= client_frames::subscription(
        0,
        subscriptions,
        None,
    ));
    client_frames::law_subscription_tells_its_topics(0, subscriptions, None);
}

/// A member that joined is a member: when the coordinator serves one request
/// after the other, a heartbeat with the generation that the join was answered,
/// for the member that it was answered, has no error. A heartbeat of anyone with
/// the generation from before has one.
pub proof fn law_joined_members_may_go_on<S: Shards>(
    engine: EngineModel<S>,
    coordinator: CoordinationModel,
    header: HeaderModel,
    group_id: Seq<u8>,
    member_id: Seq<u8>,
    subscriptions: Seq<Seq<u8>>,
    member: Seq<u8>,
    metadata: Seq<u8>,
    joined: Result<Seq<u8>, Error>,
    beat_header: HeaderModel,
    generation: i32,
    beat: Result<Seq<u8>, Error>,
    anyone: Seq<u8>,
    stale_beat: Result<Seq<u8>, Error>,
) -> (told: JoinGroupResponseModel)
    requires
        group_id.len() > 0,
        member.len() > 0,
        coordinator.groups.group(group_id).generation < i32::MAX,
        is_joining(header, member_id, member),
        groups::subscription_bytes(subscriptions) == Ok::<Seq<u8>, Error>(metadata),
        engine.answers(
            RequestModel {
                header,
                body: BodyModel::JoinGroup { group_id, member_id, subscriptions },
            },
            joined,
        ),
        engine.answers(
            RequestModel {
                header: beat_header,
                body: BodyModel::Heartbeat { group_id, generation, member_id: member },
            },
            beat,
        ),
        engine.answers(
            RequestModel {
                header: beat_header,
                body: BodyModel::Heartbeat {
                    group_id,
                    generation: coordinator.groups.group(group_id).generation,
                    member_id: anyone,
                },
            },
            stale_beat,
        ),
        ({
            let join = CoordinationRequestModel::JoinGroup {
                group_id,
                member_id: member,
                subscriptions,
                partitions: broker::every_partition(engine.broker.catalog().listed()),
            };
            let heartbeat = CoordinationRequestModel::Heartbeat {
                group_id,
                member_id: member,
                generation,
            };
            let stale = CoordinationRequestModel::Heartbeat {
                group_id,
                member_id: anyone,
                generation: coordinator.groups.group(group_id).generation,
            };
            let (after, reply) = coordinator.coordinated(join);
            &&& end_to_end::coordinator_replies(engine.broker, join, reply)
            &&& end_to_end::coordinator_replies(
                engine.broker,
                heartbeat,
                after.coordinated(heartbeat).1,
            )
            &&& end_to_end::coordinator_replies(engine.broker, stale, after.coordinated(stale).1)
        }),
    ensures
        joined == codec::frame_result(header.correlation_id, JoinGroupResponse::encoded(told)),
        told.error == NO_ERROR,
        told.member_id == member,
        told.leader == member,
        told.generation > coordinator.groups.group(group_id).generation,
        beat is Ok,
        generation == told.generation ==> end_to_end::code_at(beat->Ok_0, 8) == NO_ERROR,
        stale_beat is Ok,
        end_to_end::code_at(stale_beat->Ok_0, 8) != NO_ERROR,
{
    let join = CoordinationRequestModel::JoinGroup {
        group_id,
        member_id: member,
        subscriptions,
        partitions: broker::every_partition(engine.broker.catalog().listed()),
    };
    let (after, reply) = coordinator.coordinated(join);
    let group = after.groups.groups[group_id];
    assert(reply == Ok::<CoordinationResultModel, CoordinationError>(
        CoordinationResultModel::Group {
            generation: group.generation,
            assignments: group.assignments,
        },
    ));
    law_join_answers_the_generation_and_members(
        engine,
        header,
        group_id,
        member_id,
        subscriptions,
        member,
        group.generation,
        group.assignments,
        metadata,
        joined,
    );
    law_heartbeat_is_of_a_current_member(
        engine,
        after,
        beat_header,
        group_id,
        generation,
        member,
        beat,
    );
    law_heartbeat_is_of_a_current_member(
        engine,
        after,
        beat_header,
        group_id,
        coordinator.groups.group(group_id).generation,
        anyone,
        stale_beat,
    );
    JoinGroupResponseModel {
        error: NO_ERROR,
        generation: group.generation,
        protocol: groups::group_protocol(),
        leader: member,
        member_id: member,
        members: Seq::new(
            group.assignments.len(),
            |i: int| (group.assignments[i].member_id, metadata),
        ),
    }
}

} // verus!
