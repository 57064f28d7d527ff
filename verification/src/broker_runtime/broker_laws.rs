//! What a broker makes of the replies of its shards.

use vstd::prelude::*;

use crate::broker_core::coordination::CoordinationError;
use crate::broker_core::error::LogError;
use crate::broker_core::log::{DataModel, WindowModel};
use crate::broker_core::topic::TopicMetadataModel;
use crate::broker_runtime::broker::{self, Broker};
use crate::broker_runtime::error::BrokerError;
use crate::broker_runtime::links::{CallModel, Shards};
use crate::broker_runtime::message::{PartitionRequestModel, PartitionResultModel};

verus! {

/// A call that failed has failed for every caller, with the error of the call.
pub proof fn law_failed_calls_stay_failed(error: BrokerError)
    ensures
        broker::produce_answer(Err(error)) == Err::<i64, BrokerError>(error),
        broker::fetch_answer(Err(error)) matches Err(told) && told == error,
        broker::offset_answer(Err(error)) == Err::<i64, BrokerError>(error),
        broker::resolve_answer(Err(error)) == Err::<(), BrokerError>(error),
        broker::coordination_answer(Err(error)) matches Err(told) && told == error,
        broker::applied_answer(Err(error)) == Err::<(), BrokerError>(error),
        broker::producer_answer(Err(error)) matches Err(told) && told == error,
        broker::group_answer(Err(error)) matches Err(told) && told == error,
        broker::group_offset_answer(Err(error)) matches Err(told) && told == error,
        broker::completion_answer(Err(error)) matches Err(told) && told == error,
{
}

/// What a shard refuses is refused with its error, and so is what the
/// coordinator refuses.
pub proof fn law_refusals_are_passed_on(error: LogError, refusal: CoordinationError)
    ensures
        ({
            let call: CallModel = Ok(PartitionResultModel::Failed(error));
            &&& broker::produce_answer(call) == Err::<i64, BrokerError>(BrokerError::Core(error))
            &&& broker::fetch_answer(call) matches Err(told) && told == BrokerError::Core(error)
            &&& broker::offset_answer(call) == Err::<i64, BrokerError>(BrokerError::Core(error))
        }),
        broker::coordination_answer(
            Ok(PartitionResultModel::Coordination(Err(refusal))),
        ) matches Err(
            told,
        ) && told == BrokerError::Coordination(refusal),
{
}

/// A reply counts as success for one kind of request only.
pub proof fn law_success_has_one_meaning(call: CallModel)
    ensures
        broker::produce_answer(call) is Ok ==> call->Ok_0 is Produced,
        broker::fetch_answer(call) is Ok ==> call->Ok_0 is Fetched,
        broker::offset_answer(call) is Ok ==> call->Ok_0 is Offset,
        broker::resolve_answer(call) is Ok ==> call->Ok_0 is Resolved,
        broker::coordination_answer(call) is Ok ==> call->Ok_0 is Coordination,
{
}

/// A produce that is planned for another to send goes to the shard that the call
/// would have gone to, and asks the same: what the call can be answered is what
/// that shard can reply to the planned request. Where nothing is planned, the
/// call is refused for the same reason.
pub proof fn law_planned_produce_asks_what_produce_asks<S: Shards>(
    broker: Broker<S>,
    topic: Seq<u8>,
    partition: i32,
    records: Seq<DataModel>,
    r: Result<i64, BrokerError>,
)
    ensures
        ({
            let plan = broker::routed(
                broker.catalog(),
                broker.shard_count(),
                topic,
                partition,
                PartitionRequestModel::Produce { topic, partition, records },
            );
            &&& plan matches Err(error) ==> (broker.can_produce(
                topic,
                partition,
                records,
                r,
            ) <==> r == Err::<i64, BrokerError>(error))
            &&& plan matches Ok(to) ==> (broker.can_produce(
                topic,
                partition,
                records,
                r,
            ) <==> exists|
                call: CallModel,
            | #[trigger] broker.shards().can_answer(
                to.0,
                to.1,
                call,
            ) && r == broker::produce_answer(call))
        }),
{
    let asked = PartitionRequestModel::Produce { topic, partition, records };
    let shard = broker::placement(topic, partition, broker.shard_count());
    if broker.catalog().checked(topic, partition) is Ok {
        if broker.can_produce(topic, partition, records, r) {
            let call = choose|call: CallModel| #[trigger]
                broker.can_call(topic, partition, asked, call) && r == broker::produce_answer(call);
            let to = broker::routed(
                broker.catalog(),
                broker.shard_count(),
                topic,
                partition,
                asked,
            )->Ok_0;
            assert(broker.shards().can_answer(to.0, to.1, call));
        }
        if exists|call: CallModel| #[trigger]
            broker.shards().can_answer(shard, asked, call) && r == broker::produce_answer(call) {
            let call = choose|call: CallModel| #[trigger]
                broker.shards().can_answer(shard, asked, call) && r == broker::produce_answer(call);
            assert(broker.can_call(topic, partition, asked, call));
        }
    }
}

/// The same holds of a produce in a transaction, once that is validated.
pub proof fn law_planned_append_asks_what_append_asks<S: Shards>(
    broker: Broker<S>,
    topic: Seq<u8>,
    partition: i32,
    records: Seq<DataModel>,
    producer_id: i64,
    r: Result<i64, BrokerError>,
)
    ensures
        ({
            let plan = broker::routed(
                broker.catalog(),
                broker.shard_count(),
                topic,
                partition,
                PartitionRequestModel::ProduceTransactional {
                    topic,
                    partition,
                    records,
                    producer_id,
                },
            );
            &&& plan matches Err(error) ==> (broker.can_append(
                producer_id,
                topic,
                partition,
                records,
                r,
            ) <==> r == Err::<i64, BrokerError>(error))
            &&& plan matches Ok(to) ==> (broker.can_append(
                producer_id,
                topic,
                partition,
                records,
                r,
            ) <==> exists|
                call: CallModel,
            | #[trigger] broker.shards().can_answer(
                to.0,
                to.1,
                call,
            ) && r == broker::produce_answer(call))
        }),
{
    let asked = PartitionRequestModel::ProduceTransactional {
        topic,
        partition,
        records,
        producer_id,
    };
    let shard = broker::placement(topic, partition, broker.shard_count());
    if broker.catalog().checked(topic, partition) is Ok {
        if broker.can_append(producer_id, topic, partition, records, r) {
            let call = choose|call: CallModel| #[trigger]
                broker.can_call(topic, partition, asked, call) && r == broker::produce_answer(call);
            let to = broker::routed(
                broker.catalog(),
                broker.shard_count(),
                topic,
                partition,
                asked,
            )->Ok_0;
            assert(broker.shards().can_answer(to.0, to.1, call));
        }
        if exists|call: CallModel| #[trigger]
            broker.shards().can_answer(shard, asked, call) && r == broker::produce_answer(call) {
            let call = choose|call: CallModel| #[trigger]
                broker.shards().can_answer(shard, asked, call) && r == broker::produce_answer(call);
            assert(broker.can_call(topic, partition, asked, call));
        }
    }
}

/// The same holds of a list-offset.
pub proof fn law_planned_list_asks_what_list_asks<S: Shards>(
    broker: Broker<S>,
    topic: Seq<u8>,
    partition: i32,
    earliest: bool,
    r: Result<i64, BrokerError>,
)
    ensures
        ({
            let plan = broker::routed(
                broker.catalog(),
                broker.shard_count(),
                topic,
                partition,
                PartitionRequestModel::ListOffset { topic, partition, earliest },
            );
            &&& plan matches Err(error) ==> (broker.can_list(
                topic,
                partition,
                earliest,
                r,
            ) <==> r == Err::<i64, BrokerError>(error))
            &&& plan matches Ok(to) ==> (broker.can_list(topic, partition, earliest, r) <==> exists|
                call: CallModel,
            | #[trigger] broker.shards().can_answer(
                to.0,
                to.1,
                call,
            ) && r == broker::offset_answer(call))
        }),
{
    let asked = PartitionRequestModel::ListOffset { topic, partition, earliest };
    let shard = broker::placement(topic, partition, broker.shard_count());
    if broker.catalog().checked(topic, partition) is Ok {
        if broker.can_list(topic, partition, earliest, r) {
            let call = choose|call: CallModel| #[trigger]
                broker.can_call(topic, partition, asked, call) && r == broker::offset_answer(call);
            let to = broker::routed(
                broker.catalog(),
                broker.shard_count(),
                topic,
                partition,
                asked,
            )->Ok_0;
            assert(broker.shards().can_answer(to.0, to.1, call));
        }
        if exists|call: CallModel| #[trigger]
            broker.shards().can_answer(shard, asked, call) && r == broker::offset_answer(call) {
            let call = choose|call: CallModel| #[trigger]
                broker.shards().can_answer(shard, asked, call) && r == broker::offset_answer(call);
            assert(broker.can_call(topic, partition, asked, call));
        }
    }
}

/// The same holds of a fetch.
pub proof fn law_planned_fetch_asks_what_fetch_asks<S: Shards>(
    broker: Broker<S>,
    topic: Seq<u8>,
    partition: i32,
    offset: i64,
    max_records: usize,
    max_bytes: usize,
    read_committed: bool,
    r: Result<WindowModel, BrokerError>,
)
    ensures
        ({
            let plan = broker::routed(
                broker.catalog(),
                broker.shard_count(),
                topic,
                partition,
                PartitionRequestModel::Fetch {
                    topic,
                    partition,
                    offset,
                    max_records,
                    max_bytes,
                    read_committed,
                },
            );
            &&& plan matches Err(error) ==> (broker.can_fetch(
                topic,
                partition,
                offset,
                max_records,
                max_bytes,
                read_committed,
                r,
            ) <==> r == Err::<WindowModel, BrokerError>(error))
            &&& plan matches Ok(to) ==> (broker.can_fetch(
                topic,
                partition,
                offset,
                max_records,
                max_bytes,
                read_committed,
                r,
            ) <==> exists|
                call: CallModel,
            | #[trigger] broker.shards().can_answer(
                to.0,
                to.1,
                call,
            ) && r == broker::fetch_answer(call))
        }),
{
    let asked = PartitionRequestModel::Fetch {
        topic,
        partition,
        offset,
        max_records,
        max_bytes,
        read_committed,
    };
    let shard = broker::placement(topic, partition, broker.shard_count());
    if broker.catalog().checked(topic, partition) is Ok {
        if broker.can_fetch(topic, partition, offset, max_records, max_bytes, read_committed, r) {
            let call = choose|call: CallModel| #[trigger]
                broker.can_call(topic, partition, asked, call) && r == broker::fetch_answer(call);
            let to = broker::routed(
                broker.catalog(),
                broker.shard_count(),
                topic,
                partition,
                asked,
            )->Ok_0;
            assert(broker.shards().can_answer(to.0, to.1, call));
        }
        if exists|call: CallModel| #[trigger]
            broker.shards().can_answer(shard, asked, call) && r == broker::fetch_answer(call) {
            let call = choose|call: CallModel| #[trigger]
                broker.shards().can_answer(shard, asked, call) && r == broker::fetch_answer(call);
            assert(broker.can_call(topic, partition, asked, call));
        }
    }
}

/// A list of topics makes a catalog exactly when each has a name and a partition
/// and no name comes twice. The catalog then holds each of them with its
/// partitions, and nothing else.
pub proof fn law_catalog_holds_the_configured_topics(topics: Seq<TopicMetadataModel>)
    ensures
        broker::catalog_of(topics) is Ok <==> {
            &&& forall|i: int|
                0 <= i < topics.len() ==> (#[trigger] topics[i]).name.len() > 0
                    && topics[i].partitions > 0
            &&& forall|i: int, j: int|
                0 <= i < j < topics.len() ==> (#[trigger] topics[i]).name != (
                #[trigger] topics[j]).name
        },
        broker::catalog_of(topics) matches Ok(catalog) ==> {
            &&& forall|i: int|
                0 <= i < topics.len() ==> catalog.topics.contains_key((#[trigger] topics[i]).name)
                    && catalog.topics[topics[i].name] == topics[i].partitions
            &&& forall|name: Seq<u8>| #[trigger]
                catalog.topics.contains_key(name) ==> exists|i: int|
                    0 <= i < topics.len() && (#[trigger] topics[i]).name == name
        },
    decreases topics.len(),
{
    if topics.len() > 0 {
        let shorter = topics.drop_last();
        let last = topics[topics.len() - 1];
        law_catalog_holds_the_configured_topics(shorter);
        assert forall|i: int| 0 <= i < shorter.len() implies #[trigger] shorter[i]
            == topics[i] by {}
        if broker::catalog_of(topics) is Ok {
            let catalog = broker::catalog_of(topics)->Ok_0;
            let smaller = broker::catalog_of(shorter)->Ok_0;
            assert forall|i: int| 0 <= i < topics.len() implies (#[trigger] topics[i]).name.len() > 0
                && topics[i].partitions > 0 by {
                if i < shorter.len() {
                    assert(shorter[i] == topics[i]);
                }
            }
            assert forall|i: int, j: int| 0 <= i < j < topics.len() implies (
            #[trigger] topics[i]).name != (#[trigger] topics[j]).name by {
                assert(shorter[i] == topics[i]);
                if j < shorter.len() {
                    assert(shorter[j] == topics[j]);
                } else {
                    assert(smaller.topics.contains_key(shorter[i].name));
                }
            }
            assert forall|i: int| 0 <= i < topics.len() implies catalog.topics.contains_key(
                (#[trigger] topics[i]).name,
            ) && catalog.topics[topics[i].name] == topics[i].partitions by {
                if i < shorter.len() {
                    assert(shorter[i] == topics[i]);
                }
            }
            assert forall|name: Seq<u8>| #[trigger] catalog.topics.contains_key(name) implies exists|
                i: int,
            | 0 <= i < topics.len() && (#[trigger] topics[i]).name == name by {
                if name == last.name {
                    assert(topics[topics.len() - 1].name == name);
                } else {
                    assert(smaller.topics.contains_key(name));
                    let i = choose|i: int|
                        0 <= i < shorter.len() && (#[trigger] shorter[i]).name == name;
                    assert(topics[i].name == name);
                }
            }
        } else {
            if broker::catalog_of(shorter) is Ok {
                let smaller = broker::catalog_of(shorter)->Ok_0;
                if smaller.topics.contains_key(last.name) {
                    let i = choose|i: int|
                        0 <= i < shorter.len() && (#[trigger] shorter[i]).name == last.name;
                    assert(topics[i].name == topics[topics.len() - 1].name);
                } else {
                    assert(topics[topics.len() - 1].name.len() == 0 || topics[topics.len()
                        - 1].partitions <= 0);
                }
            } else {
                assert(!(forall|i: int|
                    0 <= i < shorter.len() ==> (#[trigger] shorter[i]).name.len() > 0
                        && shorter[i].partitions > 0) || !(forall|i: int, j: int|
                    0 <= i < j < shorter.len() ==> (#[trigger] shorter[i]).name != (
                    #[trigger] shorter[j]).name));
            }
        }
    }
}

} // verus!
