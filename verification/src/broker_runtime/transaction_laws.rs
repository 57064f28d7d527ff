//! What the end of a transaction does to all shards of a broker.

use vstd::prelude::*;

use crate::broker_core::coordination::{
    CompletionModel, CoordinationError, GroupsModel, ProducerIdentity, TransactionOffsetModel,
    TransactionsModel,
};
use crate::broker_core::coordination_laws;
use crate::broker_core::log::{self, BatchModel, DataModel, LogModel};
use crate::broker_core::log_laws;
use crate::broker_runtime::broker::{self, Broker};
use crate::broker_runtime::error::BrokerError;
use crate::broker_runtime::links::Shards;
use crate::broker_runtime::message::{
    CoordinationRequestModel, PartitionRequestModel, PartitionResultModel,
};
use crate::broker_runtime::partition::ShardModel;
use crate::broker_runtime::runtime_laws;
use crate::sorted_map;

verus! {

/// The shards once one of them has handled a request.
pub open spec fn asked(
    shards: Seq<ShardModel>,
    shard: nat,
    request: PartitionRequestModel,
) -> Seq<ShardModel> {
    shards.update(shard as int, shards[shard as int].handled(request).0)
}

/// What a shard replies to a request.
pub open spec fn replied(
    shards: Seq<ShardModel>,
    shard: nat,
    request: PartitionRequestModel,
) -> PartitionResultModel {
    shards[shard as int].handled(request).1
}

/// The shard that owns a partition.
pub open spec fn owner(shards: Seq<ShardModel>, place: (Seq<u8>, i32)) -> nat {
    broker::placement(place.0, place.1, shards.len())
}

/// The shards once the owners of these partitions, one after the other, have
/// resolved a producer.
pub open spec fn resolved(
    shards: Seq<ShardModel>,
    places: Seq<(Seq<u8>, i32)>,
    producer_id: i64,
    commit: bool,
) -> Seq<ShardModel>
    decreases places.len(),
{
    if places.len() == 0 {
        shards
    } else {
        asked(
            resolved(shards, places.drop_last(), producer_id, commit),
            owner(shards, places.last()),
            PartitionRequestModel::ResolveTransaction { producer_id, commit },
        )
    }
}

/// The request that commits an enlisted offset.
pub open spec fn commit_request(offset: TransactionOffsetModel) -> PartitionRequestModel {
    PartitionRequestModel::Coordinate {
        request: CoordinationRequestModel::CommitOffset {
            group_id: offset.group_id,
            generation: offset.generation,
            topic: offset.topic,
            partition: offset.partition,
            offset: offset.offset,
        },
    }
}

/// The shards once the coordinator has committed these offsets in order.
pub open spec fn committed(
    shards: Seq<ShardModel>,
    offsets: Seq<TransactionOffsetModel>,
) -> Seq<ShardModel>
    decreases offsets.len(),
{
    if offsets.len() == 0 {
        shards
    } else {
        asked(committed(shards, offsets.drop_last()), 0, commit_request(offsets.last()))
    }
}

/// The request that ends a transaction.
pub open spec fn end_request(
    transactional_id: Seq<u8>,
    producer: ProducerIdentity,
    commit: bool,
) -> PartitionRequestModel {
    PartitionRequestModel::Coordinate {
        request: CoordinationRequestModel::EndTransaction { transactional_id, producer, commit },
    }
}

/// The shards once the owners of a completed transaction's partitions have
/// resolved its producer.
pub open spec fn settled(
    shards: Seq<ShardModel>,
    transactional_id: Seq<u8>,
    producer: ProducerIdentity,
    commit: bool,
    completion: CompletionModel,
) -> Seq<ShardModel> {
    resolved(
        asked(shards, 0, end_request(transactional_id, producer, commit)),
        completion.partitions,
        producer.id,
        commit,
    )
}

/// The shards once a completed transaction has ended.
pub open spec fn ended(
    shards: Seq<ShardModel>,
    transactional_id: Seq<u8>,
    producer: ProducerIdentity,
    commit: bool,
    completion: CompletionModel,
) -> Seq<ShardModel> {
    let after = settled(shards, transactional_id, producer, commit, completion);
    if commit {
        committed(after, completion.offsets)
    } else {
        after
    }
}

/// Whether a group takes an offset.
pub open spec fn takes(groups: GroupsModel, offset: TransactionOffsetModel) -> bool {
    groups.committed(
        offset.group_id,
        offset.generation,
        offset.topic,
        offset.partition,
        offset.offset,
    ).1 is Ok
}

/// The offset that was enlisted last for a partition of a group.
pub open spec fn last_enlisted(
    offsets: Seq<TransactionOffsetModel>,
    group_id: Seq<u8>,
    topic: Seq<u8>,
    partition: i32,
) -> Option<i64>
    decreases offsets.len(),
{
    if offsets.len() == 0 {
        None
    } else {
        let last = offsets.last();
        if last.group_id == group_id && last.topic == topic && last.partition == partition {
            Some(last.offset)
        } else {
            last_enlisted(offsets.drop_last(), group_id, topic, partition)
        }
    }
}

/// Whether the shards answered these steps of ending a transaction, one after
/// the other.
pub open spec fn steps_answered(
    shards: Seq<ShardModel>,
    transactional_id: Seq<u8>,
    producer: ProducerIdentity,
    commit: bool,
    completion: CompletionModel,
    resolves: Seq<Result<(), BrokerError>>,
    commits: Seq<Result<(), BrokerError>>,
) -> bool {
    let begun = asked(shards, 0, end_request(transactional_id, producer, commit));
    let after = settled(shards, transactional_id, producer, commit, completion);
    let resolve = PartitionRequestModel::ResolveTransaction { producer_id: producer.id, commit };
    &&& forall|i: int|
        0 <= i < resolves.len() ==> #[trigger] resolves[i] == broker::resolve_answer(
            Ok(
                replied(
                    resolved(begun, completion.partitions.take(i), producer.id, commit),
                    owner(shards, completion.partitions[i]),
                    resolve,
                ),
            ),
        )
    &&& forall|i: int|
        0 <= i < commits.len() ==> #[trigger] commits[i] == broker::applied_answer(
            broker::coordination_answer(
                Ok(
                    replied(
                        committed(after, completion.offsets.take(i)),
                        0,
                        commit_request(completion.offsets[i]),
                    ),
                ),
            ),
        )
}

/// Resolving a producer twice is resolving it once.
proof fn lemma_resolved_twice(log: LogModel, producer_id: i64, commit: bool)
    ensures
        log.resolved(producer_id, commit).resolved(producer_id, commit) == log.resolved(
            producer_id,
            commit,
        ),
{
    let once = log.resolved(producer_id, commit);
    assert(once.resolved(producer_id, commit).batches =~= once.batches);
}

proof fn lemma_handled_twice(shard: ShardModel, producer_id: i64, commit: bool)
    ensures
        ({
            let resolve = PartitionRequestModel::ResolveTransaction { producer_id, commit };
            shard.handled(resolve).0.handled(resolve).0 == shard.handled(resolve).0
        }),
{
    let resolve = PartitionRequestModel::ResolveTransaction { producer_id, commit };
    let once = shard.handled(resolve).0;
    let twice = once.handled(resolve).0;
    assert forall|place: (Seq<u8>, i32)| #[trigger] once.logs.contains_key(place) implies twice.logs[place]
        == once.logs[place] by {
        lemma_resolved_twice(shard.logs[place], producer_id, commit);
    }
    assert(twice.logs =~= once.logs);
}

proof fn lemma_owner_exists(shards: Seq<ShardModel>, place: (Seq<u8>, i32))
    requires
        shards.len() > 0,
    ensures
        owner(shards, place) < shards.len(),
{
    runtime_laws::law_placement_is_bounded(place.0, place.1, shards.len());
}

/// Each shard that owns one of the partitions has resolved the producer, and
/// the others have done nothing.
proof fn lemma_resolved(
    shards: Seq<ShardModel>,
    places: Seq<(Seq<u8>, i32)>,
    producer_id: i64,
    commit: bool,
    shard: int,
)
    requires
        0 <= shard < shards.len(),
    ensures
        ({
            let resolve = PartitionRequestModel::ResolveTransaction { producer_id, commit };
            let after = resolved(shards, places, producer_id, commit);
            &&& after.len() == shards.len()
            &&& after[shard] == shards[shard] || after[shard] == shards[shard].handled(resolve).0
            &&& (exists|i: int| 0 <= i < places.len() && owner(shards, #[trigger] places[i]) == shard)
                ==> after[shard] == shards[shard].handled(resolve).0
        }),
    decreases places.len(),
{
    if places.len() > 0 {
        let shorter = places.drop_last();
        lemma_resolved(shards, shorter, producer_id, commit, shard);
        lemma_handled_twice(shards[shard], producer_id, commit);
        lemma_owner_exists(shards, places.last());
        let before = resolved(shards, shorter, producer_id, commit);
        if owner(shards, places.last()) != shard {
            if exists|i: int| 0 <= i < places.len() && owner(shards, #[trigger] places[i]) == shard {
                let i = choose|i: int|
                    0 <= i < places.len() && owner(shards, #[trigger] places[i]) == shard;
                assert(shorter[i] == places[i]);
            }
        }
    }
}

/// Committing offsets changes the groups of the coordinator only: no group
/// comes or goes or moves to another generation, and each partition of a group
/// has the offset that was enlisted last.
proof fn lemma_committed(
    shards: Seq<ShardModel>,
    offsets: Seq<TransactionOffsetModel>,
    group_id: Seq<u8>,
    topic: Seq<u8>,
    partition: i32,
)
    requires
        shards.len() > 0,
        forall|i: int|
            0 <= i < offsets.len() ==> takes(shards[0].coordination.groups, #[trigger] offsets[i]),
    ensures
        ({
            let before = shards[0].coordination.groups;
            let after = committed(shards, offsets);
            let groups = after[0].coordination.groups;
            &&& after.len() == shards.len()
            &&& after[0].logs == shards[0].logs
            &&& after[0].catalog == shards[0].catalog
            &&& after[0].partition_max_bytes == shards[0].partition_max_bytes
            &&& after[0].coordination.transactions == shards[0].coordination.transactions
            &&& forall|s: int| 0 < s < shards.len() ==> after[s] == shards[s]
            &&& groups.groups.dom() == before.groups.dom()
            &&& forall|id: Seq<u8>| #[trigger]
                before.groups.contains_key(id) ==> groups.groups[id].generation
                    == before.groups[id].generation
            &&& groups.offset(group_id, topic, partition) == match last_enlisted(
                offsets,
                group_id,
                topic,
                partition,
            ) {
                Some(offset) => Ok::<Option<i64>, CoordinationError>(Some(offset)),
                None => before.offset(group_id, topic, partition),
            }
        }),
    decreases offsets.len(),
{
    if offsets.len() > 0 {
        let shorter = offsets.drop_last();
        let last = offsets.last();
        assert forall|i: int| 0 <= i < shorter.len() implies takes(
            shards[0].coordination.groups,
            #[trigger] shorter[i],
        ) by {
            assert(shorter[i] == offsets[i]);
        }
        lemma_committed(shards, shorter, group_id, topic, partition);
        assert(takes(shards[0].coordination.groups, offsets[offsets.len() - 1]));
        let before = committed(shards, shorter)[0].coordination.groups;
        let after = committed(shards, offsets)[0].coordination.groups;
        assert(before.groups.contains_key(last.group_id));
        assert(takes(before, last));
        assert(after.groups.dom() =~= before.groups.dom());
    }
}

pub(crate) proof fn lemma_no_failure(steps: Seq<Result<(), BrokerError>>)
    requires
        forall|i: int| 0 <= i < steps.len() ==> (#[trigger] steps[i]) is Ok,
    ensures
        broker::first_failure(steps) is Ok,
    decreases steps.len(),
{
    if steps.len() > 0 {
        lemma_no_failure(steps.drop_last());
        assert(steps[steps.len() - 1] is Ok);
    }
}

/// Ending a transaction that its current producer has open succeeds when the
/// shards answer and, for a commit, the groups take the enlisted offsets.
pub proof fn law_ending_succeeds<S: Shards>(
    broker: Broker<S>,
    shards: Seq<ShardModel>,
    transactional_id: Seq<u8>,
    producer: ProducerIdentity,
    commit: bool,
    completion: CompletionModel,
    resolves: Seq<Result<(), BrokerError>>,
    commits: Seq<Result<(), BrokerError>>,
    r: Result<(), BrokerError>,
)
    requires
        shards.len() > 0,
        shards[0].coordination.transactions.ended(transactional_id, producer).1 == Ok::<
            CompletionModel,
            CoordinationError,
        >(completion),
        commit ==> forall|i: int|
            0 <= i < completion.offsets.len() ==> takes(
                shards[0].coordination.groups,
                #[trigger] completion.offsets[i],
            ),
        broker.completed_by(completion, producer.id, commit, resolves, commits, r),
        steps_answered(
            shards,
            transactional_id,
            producer,
            commit,
            completion,
            resolves,
            commits,
        ),
    ensures
        broker::completion_answer(
            broker::coordination_answer(
                Ok(replied(shards, 0, end_request(transactional_id, producer, commit))),
            ),
        ) == Ok::<CompletionModel, BrokerError>(completion),
        r is Ok,
{
    let begun = asked(shards, 0, end_request(transactional_id, producer, commit));
    let after = settled(shards, transactional_id, producer, commit, completion);
    assert forall|i: int| 0 <= i < resolves.len() implies (#[trigger] resolves[i]) is Ok by {
        let _ = resolves[i];
    }
    lemma_no_failure(resolves);
    lemma_resolved(begun, completion.partitions, producer.id, commit, 0);
    assert(after[0].coordination.groups == shards[0].coordination.groups);
    assert forall|i: int| 0 <= i < commits.len() implies (#[trigger] commits[i]) is Ok by {
        let offset = completion.offsets[i];
        let front = completion.offsets.take(i);
        assert forall|k: int| 0 <= k < front.len() implies takes(
            after[0].coordination.groups,
            #[trigger] front[k],
        ) by {
            assert(front[k] == completion.offsets[k]);
        }
        lemma_committed(after, front, offset.group_id, offset.topic, offset.partition);
        assert(takes(after[0].coordination.groups, offset));
        assert(takes(committed(after, front)[0].coordination.groups, offset));
    }
    lemma_no_failure(commits);
}

/// What the end of a transaction leaves. In every enlisted partition the
/// batches of the producer are settled as committed or aborted, and nothing
/// else has changed; the groups have the offsets that were enlisted last when
/// it was committed, and the offsets they had before when it was aborted.
pub proof fn law_ending_settles_partitions_and_offsets(
    shards: Seq<ShardModel>,
    transactional_id: Seq<u8>,
    producer: ProducerIdentity,
    commit: bool,
    completion: CompletionModel,
    place: (Seq<u8>, i32),
    group_id: Seq<u8>,
    topic: Seq<u8>,
    partition: i32,
)
    requires
        shards.len() > 0,
        shards[0].coordination.transactions.ended(transactional_id, producer).1 == Ok::<
            CompletionModel,
            CoordinationError,
        >(completion),
        commit ==> forall|i: int|
            0 <= i < completion.offsets.len() ==> takes(
                shards[0].coordination.groups,
                #[trigger] completion.offsets[i],
            ),
        completion.partitions.contains(place),
    ensures
        ({
            let after = ended(shards, transactional_id, producer, commit, completion);
            let home = owner(shards, place) as int;
            &&& 0 <= home < shards.len()
            &&& after.len() == shards.len()
            &&& after[home].log(place.0, place.1) == shards[home].log(place.0, place.1).resolved(
                producer.id,
                commit,
            )
            &&& after[home].catalog == shards[home].catalog
            &&& after[0].coordination.groups.offset(group_id, topic, partition) == match (
                commit,
                last_enlisted(completion.offsets, group_id, topic, partition),
            ) {
                (true, Some(offset)) => Ok::<Option<i64>, CoordinationError>(Some(offset)),
                _ => shards[0].coordination.groups.offset(group_id, topic, partition),
            }
            &&& after[0].coordination.transactions
                == shards[0].coordination.transactions.ended(transactional_id, producer).0
        }),
{
    let begun = asked(shards, 0, end_request(transactional_id, producer, commit));
    let after = settled(shards, transactional_id, producer, commit, completion);
    let home = owner(shards, place) as int;
    lemma_owner_exists(shards, place);
    lemma_resolved(begun, completion.partitions, producer.id, commit, 0);
    lemma_resolved(begun, completion.partitions, producer.id, commit, home);
    let i = choose|i: int| 0 <= i < completion.partitions.len() && completion.partitions[i] == place;
    assert(owner(begun, completion.partitions[i]) == home);
    let old_log = shards[home].log(place.0, place.1);
    assert(begun[home].logs == shards[home].logs);
    if !shards[home].logs.contains_key(place) {
        assert(old_log.resolved(producer.id, commit) =~= old_log);
    }
    if commit {
        assert forall|k: int| 0 <= k < completion.offsets.len() implies takes(
            after[0].coordination.groups,
            #[trigger] completion.offsets[k],
        ) by {
            assert(takes(shards[0].coordination.groups, completion.offsets[k]));
        }
        lemma_committed(after, completion.offsets, group_id, topic, partition);
    }
}

/// What readers get once a transaction has ended, of a record that its producer
/// had written to an enlisted partition. A plain reader at its offset gets it
/// in any case. A read-committed reader gets it there when the transaction was
/// committed, and never when it was aborted. It is pending no more.
pub proof fn law_ending_decides_what_is_read(
    shards: Seq<ShardModel>,
    transactional_id: Seq<u8>,
    producer: ProducerIdentity,
    commit: bool,
    completion: CompletionModel,
    place: (Seq<u8>, i32),
    b: int,
    k: int,
    other_offset: i64,
    max_records: usize,
    max_bytes: usize,
)
    requires
        shards.len() > 0,
        shards[0].coordination.transactions.ended(transactional_id, producer).1 == Ok::<
            CompletionModel,
            CoordinationError,
        >(completion),
        commit ==> forall|i: int|
            0 <= i < completion.offsets.len() ==> takes(
                shards[0].coordination.groups,
                #[trigger] completion.offsets[i],
            ),
        completion.partitions.contains(place),
        max_records > 0,
        ({
            let shard = shards[owner(shards, place) as int];
            let log = shard.log(place.0, place.1);
            &&& shard.catalog.checked(place.0, place.1) is Ok
            &&& log.wf()
            &&& 0 <= b < log.batches.len()
            &&& 0 <= k < log.batches[b].records.len()
            &&& log.batches[b].transaction == Some(producer.id)
        }),
    ensures
        ({
            let home = owner(shards, place) as int;
            let record = shards[home].log(place.0, place.1).batches[b].records[k];
            let after = ended(shards, transactional_id, producer, commit, completion)[home];
            let read = |offset: i64, read_committed: bool|
                after.handled(
                    PartitionRequestModel::Fetch {
                        topic: place.0,
                        partition: place.1,
                        offset,
                        max_records,
                        max_bytes,
                        read_committed,
                    },
                ).1;
            &&& read(record.offset, false) matches PartitionResultModel::Fetched(window)
                && window.records.len() > 0 && window.records[0] == record
            &&& commit ==> (read(record.offset, true) matches PartitionResultModel::Fetched(window)
                && window.records.len() > 0 && window.records[0] == record)
            &&& !commit ==> (read(other_offset, true) matches PartitionResultModel::Fetched(window)
                ==> !window.records.contains(record))
            &&& !after.log(place.0, place.1).batches[b].pending()
        }),
{
    let home = owner(shards, place) as int;
    let log = shards[home].log(place.0, place.1);
    let resolved_log = log.resolved(producer.id, commit);
    law_ending_settles_partitions_and_offsets(
        shards,
        transactional_id,
        producer,
        commit,
        completion,
        place,
        place.0,
        place.0,
        place.1,
    );
    log::lemma_resolved_wf(log, producer.id, commit);
    assert(resolved_log.batches[b] == log.batches[b].resolved(producer.id, commit));
    log_laws::law_stored_record_is_read(resolved_log, b, k, max_records, max_bytes, false);
    if commit {
        log_laws::law_stored_record_is_read(resolved_log, b, k, max_records, max_bytes, true);
    } else {
        log_laws::law_hidden_record_is_not_read(
            resolved_log,
            b,
            k,
            other_offset,
            max_records,
            max_bytes,
        );
    }
}

// ---------------------------------------------------------------------------
// From the first call to the last
// ---------------------------------------------------------------------------

/// A call that a producer makes between the start and the end of a transaction.
pub enum TransactionCall {
    /// Enlists a partition.
    Enlist { place: (Seq<u8>, i32) },
    /// Appends records to an enlisted partition.
    Write { place: (Seq<u8>, i32), data: Seq<DataModel> },
    /// Enlists a consumer offset.
    Offset { offset: TransactionOffsetModel },
}

/// The partitions that calls enlist.
pub open spec fn places_of(calls: Seq<TransactionCall>) -> Set<(Seq<u8>, i32)>
    decreases calls.len(),
{
    if calls.len() == 0 {
        Set::empty()
    } else {
        match calls.last() {
            TransactionCall::Enlist { place } => places_of(calls.drop_last()).insert(place),
            _ => places_of(calls.drop_last()),
        }
    }
}

/// The offsets that calls enlist, in order.
pub open spec fn offsets_of(calls: Seq<TransactionCall>) -> Seq<TransactionOffsetModel>
    decreases calls.len(),
{
    if calls.len() == 0 {
        seq![]
    } else {
        match calls.last() {
            TransactionCall::Offset { offset } => offsets_of(calls.drop_last()).push(offset),
            _ => offsets_of(calls.drop_last()),
        }
    }
}

/// The request that issues a producer identity.
pub open spec fn init_request(transactional_id: Seq<u8>) -> PartitionRequestModel {
    PartitionRequestModel::Coordinate {
        request: CoordinationRequestModel::InitProducer { transactional_id },
    }
}

/// The request that enlists a partition.
pub open spec fn enlist_request(
    transactional_id: Seq<u8>,
    producer: ProducerIdentity,
    place: (Seq<u8>, i32),
) -> PartitionRequestModel {
    PartitionRequestModel::Coordinate {
        request: CoordinationRequestModel::AddPartition {
            transactional_id,
            producer,
            topic: place.0,
            partition: place.1,
        },
    }
}

/// The request that checks a transactional append.
pub open spec fn validate_request(
    transactional_id: Seq<u8>,
    producer: ProducerIdentity,
    place: (Seq<u8>, i32),
) -> PartitionRequestModel {
    PartitionRequestModel::Coordinate {
        request: CoordinationRequestModel::ValidateProduce {
            transactional_id,
            producer,
            topic: place.0,
            partition: place.1,
        },
    }
}

/// The request that makes a transactional append.
pub open spec fn write_request(
    producer: ProducerIdentity,
    place: (Seq<u8>, i32),
    data: Seq<DataModel>,
) -> PartitionRequestModel {
    PartitionRequestModel::ProduceTransactional {
        topic: place.0,
        partition: place.1,
        records: data,
        producer_id: producer.id,
    }
}

/// The request that enlists an offset.
pub open spec fn offset_request(
    transactional_id: Seq<u8>,
    producer: ProducerIdentity,
    offset: TransactionOffsetModel,
) -> PartitionRequestModel {
    PartitionRequestModel::Coordinate {
        request: CoordinationRequestModel::AddOffset { transactional_id, producer, offset },
    }
}

/// What a request that is answered with nothing comes to when a shard replies.
pub open spec fn applied(shards: Seq<ShardModel>, request: PartitionRequestModel) -> Result<
    (),
    BrokerError,
> {
    broker::applied_answer(broker::coordination_answer(Ok(replied(shards, 0, request))))
}

/// The shards once they have handled a call that succeeds.
pub open spec fn after_call(
    shards: Seq<ShardModel>,
    transactional_id: Seq<u8>,
    producer: ProducerIdentity,
    call: TransactionCall,
) -> Seq<ShardModel> {
    match call {
        TransactionCall::Enlist { place } => asked(
            shards,
            0,
            enlist_request(transactional_id, producer, place),
        ),
        TransactionCall::Write { place, data } => asked(
            shards,
            owner(shards, place),
            write_request(producer, place, data),
        ),
        TransactionCall::Offset { offset } => asked(
            shards,
            0,
            offset_request(transactional_id, producer, offset),
        ),
    }
}

/// Whether a call succeeds when the shards reply, and the append that it makes
/// finds offsets left.
pub open spec fn succeeds(
    shards: Seq<ShardModel>,
    transactional_id: Seq<u8>,
    producer: ProducerIdentity,
    call: TransactionCall,
) -> bool {
    match call {
        TransactionCall::Enlist { place } => applied(
            shards,
            enlist_request(transactional_id, producer, place),
        ) is Ok,
        TransactionCall::Write { place, data } => {
            let home = owner(shards, place);
            &&& applied(shards, validate_request(transactional_id, producer, place)) is Ok
            &&& shards[home as int].catalog.checked(place.0, place.1) is Ok
            &&& shards[home as int].has_room(write_request(producer, place, data))
            &&& broker::produce_answer(
                Ok(replied(shards, home, write_request(producer, place, data))),
            ) is Ok
        },
        TransactionCall::Offset { offset } => applied(
            shards,
            offset_request(transactional_id, producer, offset),
        ) is Ok,
    }
}

/// The shards once they have handled these calls one after the other.
pub open spec fn after_calls(
    shards: Seq<ShardModel>,
    transactional_id: Seq<u8>,
    producer: ProducerIdentity,
    calls: Seq<TransactionCall>,
) -> Seq<ShardModel>
    decreases calls.len(),
{
    if calls.len() == 0 {
        shards
    } else {
        after_call(
            after_calls(shards, transactional_id, producer, calls.drop_last()),
            transactional_id,
            producer,
            calls.last(),
        )
    }
}

/// Whether each of these calls succeeds after those before it.
#[verifier::opaque]
pub open spec fn all_succeed(
    shards: Seq<ShardModel>,
    transactional_id: Seq<u8>,
    producer: ProducerIdentity,
    calls: Seq<TransactionCall>,
) -> bool {
    forall|i: int|
        0 <= i < calls.len() ==> succeeds(
            after_calls(shards, transactional_id, producer, calls.take(i)),
            transactional_id,
            producer,
            #[trigger] calls[i],
        )
}

/// The offset at which a call appends.
pub open spec fn base_of(
    shards: Seq<ShardModel>,
    transactional_id: Seq<u8>,
    producer: ProducerIdentity,
    calls: Seq<TransactionCall>,
    w: int,
) -> i64 {
    let place = calls[w]->Write_place;
    let before = after_calls(shards, transactional_id, producer, calls.take(w));
    before[owner(shards, place) as int].log(place.0, place.1).next_offset
}

/// Whether a shard never drops a batch.
pub open spec fn unbounded(shard: ShardModel) -> bool {
    &&& shard.partition_max_bytes is None
    &&& forall|place: (Seq<u8>, i32)| #[trigger]
        shard.logs.contains_key(place) ==> shard.logs[place].max_bytes is None
}

/// Whether a log holds this batch.
pub open spec fn holds(log: LogModel, batch: BatchModel) -> bool {
    exists|b: int| 0 <= b < log.batches.len() && #[trigger] log.batches[b] == batch
}

/// Whether a shard is in order and has the catalog it had.
pub open spec fn kept(first: ShardModel, now: ShardModel) -> bool {
    &&& now.catalog == first.catalog
    &&& runtime_laws::logs_wf(now)
    &&& unbounded(now)
}

/// Whether what a call has written is where it was appended, in a partition that
/// was enlisted.
pub open spec fn written(
    first: Seq<ShardModel>,
    transactional_id: Seq<u8>,
    producer: ProducerIdentity,
    calls: Seq<TransactionCall>,
    now: Seq<ShardModel>,
    w: int,
) -> bool {
    calls[w] matches TransactionCall::Write { place, data } ==> {
        &&& places_of(calls).contains(place)
        &&& data.len() > 0
        &&& first[owner(first, place) as int].catalog.checked(place.0, place.1) is Ok
        &&& holds(
            now[owner(first, place) as int].log(place.0, place.1),
            log::new_batch(
                base_of(first, transactional_id, producer, calls, w),
                data,
                Some(producer.id),
            ),
        )
    }
}

/// What the coordinator knows of a transaction after these calls.
pub open spec fn tracked_by(
    transactions: TransactionsModel,
    transactional_id: Seq<u8>,
    producer: ProducerIdentity,
    calls: Seq<TransactionCall>,
) -> bool {
    &&& transactions.wf()
    &&& transactions.transactions.contains_key(transactional_id)
    &&& transactions.transactions[transactional_id].identity == producer
    &&& transactions.transactions[transactional_id].partitions == places_of(calls)
    &&& transactions.transactions[transactional_id].offsets == offsets_of(calls)
}

/// What calls of a transaction have brought about so far.
pub open spec fn in_progress(
    first: Seq<ShardModel>,
    transactional_id: Seq<u8>,
    producer: ProducerIdentity,
    calls: Seq<TransactionCall>,
    now: Seq<ShardModel>,
) -> bool {
    &&& now.len() == first.len()
    &&& forall|s: int| 0 <= s < now.len() ==> kept(first[s], #[trigger] now[s])
    &&& now[0].coordination.groups == first[0].coordination.groups
    &&& tracked_by(now[0].coordination.transactions, transactional_id, producer, calls)
    &&& forall|w: int|
        0 <= w < calls.len() ==> #[trigger] written(
            first,
            transactional_id,
            producer,
            calls,
            now,
            w,
        )
}

/// What an accepted transactional append does to a log that drops nothing.
proof fn lemma_write(shard: ShardModel, producer: ProducerIdentity, place: (Seq<u8>, i32), data: Seq<DataModel>)
    requires
        runtime_laws::logs_wf(shard),
        unbounded(shard),
        shard.catalog.checked(place.0, place.1) is Ok,
        shard.has_room(write_request(producer, place, data)),
        broker::produce_answer(Ok(shard.handled(write_request(producer, place, data)).1)) is Ok,
    ensures
        ({
            let before = shard.log(place.0, place.1);
            let after = shard.handled(write_request(producer, place, data)).0;
            &&& data.len() > 0
            &&& runtime_laws::logs_wf(after)
            &&& unbounded(after)
            &&& after.catalog == shard.catalog
            &&& after.coordination == shard.coordination
            &&& after.log(place.0, place.1).batches == before.batches.push(
                log::new_batch(before.next_offset, data, Some(producer.id)),
            )
            &&& forall|other: (Seq<u8>, i32)|
                other != place ==> #[trigger] after.log(other.0, other.1) == shard.log(
                    other.0,
                    other.1,
                )
        }),
{
    let before = shard.log(place.0, place.1);
    runtime_laws::law_logs_stay_wf(shard, write_request(producer, place, data));
    assert(before.max_bytes is None);
    assert(0 < data.len() <= log::MAX_APPEND_RECORDS);
}

proof fn lemma_write_kept(
    before: LogModel,
    after: LogModel,
    batch: BatchModel,
    added: BatchModel,
)
    requires
        holds(before, batch),
        after.batches == before.batches.push(added),
    ensures
        holds(after, batch),
{
    let b = choose|b: int| 0 <= b < before.batches.len() && #[trigger] before.batches[b] == batch;
    assert(after.batches[b] == batch);
}

/// What was written stays written while logs only grow.
proof fn lemma_written_stays(
    first: Seq<ShardModel>,
    transactional_id: Seq<u8>,
    producer: ProducerIdentity,
    calls: Seq<TransactionCall>,
    before: Seq<ShardModel>,
    now: Seq<ShardModel>,
    w: int,
)
    requires
        0 <= w < calls.len() - 1,
        written(first, transactional_id, producer, calls.drop_last(), before, w),
        calls[w] matches TransactionCall::Write { place, .. } ==> {
            let home = owner(first, place) as int;
            forall|batch: BatchModel| #[trigger]
                holds(before[home].log(place.0, place.1), batch) ==> holds(
                    now[home].log(place.0, place.1),
                    batch,
                )
        },
    ensures
        written(first, transactional_id, producer, calls, now, w),
{
    let shorter = calls.drop_last();
    assert(shorter[w] == calls[w]);
    assert(calls.take(w) =~= shorter.take(w));
}

/// A call to the coordinator leaves all logs alone.
#[verifier::rlimit(30)]
proof fn lemma_coordinated(
    first: Seq<ShardModel>,
    transactional_id: Seq<u8>,
    producer: ProducerIdentity,
    calls: Seq<TransactionCall>,
    before: Seq<ShardModel>,
    request: CoordinationRequestModel,
)
    requires
        first.len() > 0,
        calls.len() > 0,
        !(calls.last() is Write),
        in_progress(first, transactional_id, producer, calls.drop_last(), before),
        ({
            let after = before[0].coordination.coordinated(request).0;
            &&& after.groups == before[0].coordination.groups
            &&& tracked_by(after.transactions, transactional_id, producer, calls)
        }),
    ensures
        in_progress(
            first,
            transactional_id,
            producer,
            calls,
            asked(before, 0, PartitionRequestModel::Coordinate { request }),
        ),
{
    let now = asked(before, 0, PartitionRequestModel::Coordinate { request });
    assert forall|s: int| 0 <= s < now.len() implies kept(first[s], #[trigger] now[s]) by {
        assert(kept(first[s], before[s]));
        assert(now[s].logs == before[s].logs);
    }
    assert forall|w: int| 0 <= w < calls.len() implies #[trigger] written(
        first,
        transactional_id,
        producer,
        calls,
        now,
        w,
    ) by {
        if w < calls.len() - 1 {
            if calls[w] is Write {
                lemma_owner_exists(first, calls[w]->Write_place);
            }
            assert(written(first, transactional_id, producer, calls.drop_last(), before, w));
            lemma_written_stays(first, transactional_id, producer, calls, before, now, w);
        } else {
            assert(calls[w] == calls.last());
        }
    }
}

/// An append puts its batch behind those there are.
#[verifier::rlimit(30)]
proof fn lemma_appended(
    first: Seq<ShardModel>,
    transactional_id: Seq<u8>,
    producer: ProducerIdentity,
    calls: Seq<TransactionCall>,
    before: Seq<ShardModel>,
    place: (Seq<u8>, i32),
    data: Seq<DataModel>,
)
    requires
        first.len() > 0,
        calls.len() > 0,
        calls.last() == (TransactionCall::Write { place, data }),
        before == after_calls(first, transactional_id, producer, calls.drop_last()),
        in_progress(first, transactional_id, producer, calls.drop_last(), before),
        succeeds(before, transactional_id, producer, calls.last()),
    ensures
        in_progress(
            first,
            transactional_id,
            producer,
            calls,
            asked(before, owner(before, place), write_request(producer, place, data)),
        ),
{
    let now = asked(before, owner(before, place), write_request(producer, place, data));
    let home = owner(first, place) as int;
    let last = calls.len() - 1;
    lemma_owner_exists(first, place);
    assert(kept(first[home], before[home]));
    lemma_write(before[home], producer, place, data);
    let old_log = before[home].log(place.0, place.1);
    let new_log = now[home].log(place.0, place.1);
    let added = log::new_batch(old_log.next_offset, data, Some(producer.id));
    assert forall|s: int| 0 <= s < now.len() implies kept(first[s], #[trigger] now[s]) by {
        assert(kept(first[s], before[s]));
    }
    assert(now[0].coordination == before[0].coordination);
    assert(calls.take(last) =~= calls.drop_last());
    assert(new_log.batches[old_log.batches.len() as int] == added);
    assert(holds(new_log, added));
    assert(places_of(calls).contains(place));
    assert forall|w: int| 0 <= w < calls.len() implies #[trigger] written(
        first,
        transactional_id,
        producer,
        calls,
        now,
        w,
    ) by {
        if w < last {
            assert(written(first, transactional_id, producer, calls.drop_last(), before, w));
            if calls[w] is Write {
                let other = calls[w]->Write_place;
                let there = owner(first, other) as int;
                lemma_owner_exists(first, other);
                assert forall|batch: BatchModel| #[trigger]
                    holds(before[there].log(other.0, other.1), batch) implies holds(
                    now[there].log(other.0, other.1),
                    batch,
                ) by {
                    if other == place {
                        lemma_write_kept(old_log, new_log, batch, added);
                    }
                }
            }
            lemma_written_stays(first, transactional_id, producer, calls, before, now, w);
        } else {
            assert(calls[w] == calls.last());
        }
    }
}

/// One more call keeps track of what the calls have brought about.
#[verifier::rlimit(30)]
proof fn lemma_one_more_call(
    first: Seq<ShardModel>,
    transactional_id: Seq<u8>,
    producer: ProducerIdentity,
    calls: Seq<TransactionCall>,
    before: Seq<ShardModel>,
    now: Seq<ShardModel>,
)
    requires
        first.len() > 0,
        calls.len() > 0,
        before == after_calls(first, transactional_id, producer, calls.drop_last()),
        now == after_call(before, transactional_id, producer, calls.last()),
        in_progress(first, transactional_id, producer, calls.drop_last(), before),
        succeeds(before, transactional_id, producer, calls.last()),
    ensures
        in_progress(first, transactional_id, producer, calls, now),
{
    let transactions = before[0].coordination.transactions;
    match calls.last() {
        TransactionCall::Enlist { place } => {
            coordination_laws::law_transactions_are_empty_or_ongoing(
                transactions,
                transactional_id,
                producer,
                place.0,
                place.1,
                arbitrary(),
            );
            lemma_coordinated(
                first,
                transactional_id,
                producer,
                calls,
                before,
                CoordinationRequestModel::AddPartition {
                    transactional_id,
                    producer,
                    topic: place.0,
                    partition: place.1,
                },
            );
        },
        TransactionCall::Offset { offset } => {
            coordination_laws::law_transactions_are_empty_or_ongoing(
                transactions,
                transactional_id,
                producer,
                seq![],
                0,
                offset,
            );
            lemma_coordinated(
                first,
                transactional_id,
                producer,
                calls,
                before,
                CoordinationRequestModel::AddOffset { transactional_id, producer, offset },
            );
        },
        TransactionCall::Write { place, data } => {
            lemma_appended(first, transactional_id, producer, calls, before, place, data);
        },
    }
}

proof fn lemma_in_progress(
    first: Seq<ShardModel>,
    transactional_id: Seq<u8>,
    producer: ProducerIdentity,
    calls: Seq<TransactionCall>,
)
    requires
        first.len() > 0,
        in_progress(first, transactional_id, producer, seq![], first),
        all_succeed(first, transactional_id, producer, calls),
    ensures
        in_progress(
            first,
            transactional_id,
            producer,
            calls,
            after_calls(first, transactional_id, producer, calls),
        ),
    decreases calls.len(),
{
    reveal(all_succeed);
    if calls.len() == 0 {
        assert(calls =~= seq![]);
    } else {
        let shorter = calls.drop_last();
        let last = calls.len() - 1;
        assert forall|i: int| 0 <= i < shorter.len() implies succeeds(
            after_calls(first, transactional_id, producer, shorter.take(i)),
            transactional_id,
            producer,
            #[trigger] shorter[i],
        ) by {
            assert(shorter.take(i) =~= calls.take(i));
            assert(shorter[i] == calls[i]);
        }
        lemma_in_progress(first, transactional_id, producer, shorter);
        assert(calls.take(last) =~= shorter);
        assert(succeeds(
            after_calls(first, transactional_id, producer, calls.take(last)),
            transactional_id,
            producer,
            calls[last],
        ));
        lemma_one_more_call(
            first,
            transactional_id,
            producer,
            calls,
            after_calls(first, transactional_id, producer, shorter),
            after_calls(first, transactional_id, producer, calls),
        );
    }
}

/// Whether shards are those of a broker that never drops a batch, and are in
/// order.
pub open spec fn ready(shards: Seq<ShardModel>) -> bool {
    &&& shards.len() > 0
    &&& shards[0].coordination.transactions.wf()
    &&& forall|s: int|
        0 <= s < shards.len() ==> runtime_laws::logs_wf(#[trigger] shards[s]) && unbounded(shards[s])
}

/// The shards once a producer identity was issued.
pub open spec fn begun(shards: Seq<ShardModel>, transactional_id: Seq<u8>) -> Seq<ShardModel> {
    asked(shards, 0, init_request(transactional_id))
}

/// Whether each of these offsets is of the current generation of its group.
pub open spec fn current(groups: GroupsModel, offsets: Seq<TransactionOffsetModel>) -> bool {
    forall|i: int|
        0 <= i < offsets.len() ==> groups.groups.contains_key((#[trigger] offsets[i]).group_id)
            && groups.groups[offsets[i].group_id].generation == offsets[i].generation
}

/// What is known when the calls of a transaction have been made: the transaction
/// can be ended, and that gives all enlisted partitions and offsets.
#[verifier::rlimit(30)]
proof fn lemma_ready_to_end(
    shards: Seq<ShardModel>,
    transactional_id: Seq<u8>,
    producer: ProducerIdentity,
    calls: Seq<TransactionCall>,
)
    requires
        ready(shards),
        broker::producer_answer(
            broker::coordination_answer(Ok(replied(shards, 0, init_request(transactional_id)))),
        ) == Ok::<ProducerIdentity, BrokerError>(producer),
        all_succeed(begun(shards, transactional_id), transactional_id, producer, calls),
        places_of(calls) != Set::<(Seq<u8>, i32)>::empty(),
    ensures
        ({
            let first = begun(shards, transactional_id);
            let now = after_calls(first, transactional_id, producer, calls);
            let answer = now[0].coordination.transactions.ended(transactional_id, producer).1;
            &&& in_progress(first, transactional_id, producer, calls, now)
            &&& now[0].coordination.groups == shards[0].coordination.groups
            &&& answer is Ok
            &&& answer->Ok_0.offsets == offsets_of(calls)
            &&& answer->Ok_0.partitions.to_set() == places_of(calls)
            &&& forall|i: int| 0 <= i < offsets_of(calls).len() ==> (#[trigger] offsets_of(calls)[i]).wf()
        }),
{
    let first = begun(shards, transactional_id);
    let now = after_calls(first, transactional_id, producer, calls);
    coordination_laws::law_transactions_are_empty_or_ongoing(
        shards[0].coordination.transactions,
        transactional_id,
        producer,
        seq![],
        0,
        arbitrary(),
    );
    assert forall|s: int| 0 <= s < first.len() implies kept(first[s], #[trigger] first[s]) by {
        assert(first[s].logs == shards[s].logs);
        assert(runtime_laws::logs_wf(shards[s]) && unbounded(shards[s]));
    }
    assert(in_progress(first, transactional_id, producer, seq![], first));
    lemma_in_progress(first, transactional_id, producer, calls);
    let transaction = now[0].coordination.transactions.transactions[transactional_id];
    assert(transaction.wf());
    sorted_map::lemma_in_order::<(Vec<u8>, i32)>(transaction.partitions);
}

/// The end of a transaction that a producer has made, when the shards answer
/// and the enlisted offsets are of the current generations of their groups. It
/// succeeds. When it is committed, each enlisted offset is the offset of its
/// group, the last one where there are several; when it is aborted, the groups
/// have the offsets they had before.
#[verifier::rlimit(30)]
pub proof fn law_transaction_ends_as_asked<S: Shards>(
    broker: Broker<S>,
    shards: Seq<ShardModel>,
    transactional_id: Seq<u8>,
    producer: ProducerIdentity,
    calls: Seq<TransactionCall>,
    commit: bool,
    completion: CompletionModel,
    resolves: Seq<Result<(), BrokerError>>,
    commits: Seq<Result<(), BrokerError>>,
    r: Result<(), BrokerError>,
    group_id: Seq<u8>,
    topic: Seq<u8>,
    partition: i32,
)
    requires
        ready(shards),
        broker.shard_count() == shards.len(),
        broker::producer_answer(
            broker::coordination_answer(Ok(replied(shards, 0, init_request(transactional_id)))),
        ) == Ok::<ProducerIdentity, BrokerError>(producer),
        all_succeed(begun(shards, transactional_id), transactional_id, producer, calls),
        places_of(calls) != Set::<(Seq<u8>, i32)>::empty(),
        current(shards[0].coordination.groups, offsets_of(calls)),
        ({
            let now = after_calls(begun(shards, transactional_id), transactional_id, producer, calls);
            &&& broker::completion_answer(
                broker::coordination_answer(
                    Ok(replied(now, 0, end_request(transactional_id, producer, commit))),
                ),
            ) == Ok::<CompletionModel, BrokerError>(completion)
            &&& broker.completed_by(completion, producer.id, commit, resolves, commits, r)
            &&& steps_answered(
                now,
                transactional_id,
                producer,
                commit,
                completion,
                resolves,
                commits,
            )
        }),
    ensures
        ({
            let now = after_calls(begun(shards, transactional_id), transactional_id, producer, calls);
            let after = ended(now, transactional_id, producer, commit, completion);
            &&& r is Ok
            &&& after[0].coordination.groups.offset(group_id, topic, partition) == match (
                commit,
                last_enlisted(offsets_of(calls), group_id, topic, partition),
            ) {
                (true, Some(offset)) => Ok::<Option<i64>, CoordinationError>(Some(offset)),
                _ => shards[0].coordination.groups.offset(group_id, topic, partition),
            }
        }),
{
    let now = after_calls(begun(shards, transactional_id), transactional_id, producer, calls);
    lemma_ready_to_end(shards, transactional_id, producer, calls);
    assert forall|i: int| 0 <= i < completion.offsets.len() implies takes(
        now[0].coordination.groups,
        #[trigger] completion.offsets[i],
    ) by {
        assert(offsets_of(calls)[i].wf());
    }
    law_ending_succeeds(
        broker,
        now,
        transactional_id,
        producer,
        commit,
        completion,
        resolves,
        commits,
        r,
    );
    assert(exists|place: (Seq<u8>, i32)| places_of(calls).contains(place)) by {
        if forall|place: (Seq<u8>, i32)| !places_of(calls).contains(place) {
            assert(places_of(calls) =~= Set::<(Seq<u8>, i32)>::empty());
        }
    }
    let place = choose|place: (Seq<u8>, i32)| places_of(calls).contains(place);
    assert(completion.partitions.to_set().contains(place));
    law_ending_settles_partitions_and_offsets(
        now,
        transactional_id,
        producer,
        commit,
        completion,
        place,
        group_id,
        topic,
        partition,
    );
}

/// What readers get of the records that a producer has written in a transaction,
/// once that has ended. Each record has the offset at which it was appended. A
/// plain reader at that offset gets it in any case. A read-committed reader gets
/// it there when the transaction was committed, and never when it was aborted;
/// it is pending no more.
#[verifier::rlimit(30)]
pub proof fn law_transaction_decides_what_is_read(
    shards: Seq<ShardModel>,
    transactional_id: Seq<u8>,
    producer: ProducerIdentity,
    calls: Seq<TransactionCall>,
    commit: bool,
    completion: CompletionModel,
    w: int,
    place: (Seq<u8>, i32),
    data: Seq<DataModel>,
    k: int,
    other_offset: i64,
    max_records: usize,
    max_bytes: usize,
)
    requires
        ready(shards),
        broker::producer_answer(
            broker::coordination_answer(Ok(replied(shards, 0, init_request(transactional_id)))),
        ) == Ok::<ProducerIdentity, BrokerError>(producer),
        all_succeed(begun(shards, transactional_id), transactional_id, producer, calls),
        places_of(calls) != Set::<(Seq<u8>, i32)>::empty(),
        current(shards[0].coordination.groups, offsets_of(calls)),
        broker::completion_answer(
            broker::coordination_answer(
                Ok(
                    replied(
                        after_calls(
                            begun(shards, transactional_id),
                            transactional_id,
                            producer,
                            calls,
                        ),
                        0,
                        end_request(transactional_id, producer, commit),
                    ),
                ),
            ),
        ) == Ok::<CompletionModel, BrokerError>(completion),
        0 <= w < calls.len(),
        calls[w] == (TransactionCall::Write { place, data }),
        0 <= k < data.len(),
        max_records > 0,
    ensures
        ({
            let first = begun(shards, transactional_id);
            let now = after_calls(first, transactional_id, producer, calls);
            let after = ended(now, transactional_id, producer, commit, completion)[owner(
                shards,
                place,
            ) as int];
            let base = base_of(first, transactional_id, producer, calls, w);
            let record = data[k].at(base + k);
            let read = |offset: i64, read_committed: bool|
                after.handled(
                    PartitionRequestModel::Fetch {
                        topic: place.0,
                        partition: place.1,
                        offset,
                        max_records,
                        max_bytes,
                        read_committed,
                    },
                ).1;
            &&& read(record.offset, false) matches PartitionResultModel::Fetched(window)
                && window.records.len() > 0 && window.records[0] == record
            &&& commit ==> (read(record.offset, true) matches PartitionResultModel::Fetched(window)
                && window.records.len() > 0 && window.records[0] == record)
            &&& !commit ==> (read(other_offset, true) matches PartitionResultModel::Fetched(window)
                ==> !window.records.contains(record))
            &&& exists|b: int|
                0 <= b < after.log(place.0, place.1).batches.len() && (#[trigger] after.log(
                    place.0,
                    place.1,
                ).batches[b]).records.contains(record) && !after.log(place.0, place.1).batches[b].pending()
        }),
{
    let first = begun(shards, transactional_id);
    let now = after_calls(first, transactional_id, producer, calls);
    let home = owner(shards, place) as int;
    lemma_ready_to_end(shards, transactional_id, producer, calls);
    lemma_owner_exists(shards, place);
    let base = base_of(first, transactional_id, producer, calls, w);
    let batch = log::new_batch(base, data, Some(producer.id));
    let log = now[home].log(place.0, place.1);
    assert(written(first, transactional_id, producer, calls, now, w));
    assert(holds(log, batch));
    let b = choose|b: int| 0 <= b < log.batches.len() && #[trigger] log.batches[b] == batch;
    assert(batch.records[k] == data[k].at(base + k));
    assert(kept(first[home], now[home]));
    assert(log.wf());
    assert(completion.partitions.to_set().contains(place));
    assert forall|i: int| 0 <= i < completion.offsets.len() implies takes(
        now[0].coordination.groups,
        #[trigger] completion.offsets[i],
    ) by {
        assert(offsets_of(calls)[i].wf());
    }
    law_ending_decides_what_is_read(
        now,
        transactional_id,
        producer,
        commit,
        completion,
        place,
        b,
        k,
        other_offset,
        max_records,
        max_bytes,
    );
    law_ending_settles_partitions_and_offsets(
        now,
        transactional_id,
        producer,
        commit,
        completion,
        place,
        place.0,
        place.0,
        place.1,
    );
    let after = ended(now, transactional_id, producer, commit, completion)[home].log(place.0, place.1);
    assert(after.batches[b] == batch.resolved(producer.id, commit));
    assert(after.batches[b].records[k] == data[k].at(base + k));
}

} // verus!
