//! The partition shard: the only place a partition log is mutated.
//!
//! Each shard owns a set of partitions. It validates topic/partition authority
//! against the catalog, applies the operation to the owning [`PartitionLog`],
//! and answers on the command's reply channel.

use std::sync::Arc;

use vstd::prelude::*;

use sitas_core::shard_runtime::ShardSender;

use crate::broker_core::coordination::{
    self, CoordinationError, GroupCoordinator, GroupsModel, TransactionCoordinator, TransactionsModel,
};
use crate::broker_core::error::LogError;
use crate::broker_core::log::{self, LogModel, PartitionLog};
use crate::broker_core::topic::{CatalogModel, TopicCatalog};
use crate::broker_runtime::channel::Parker;
use crate::broker_runtime::message::{
    self, CoordinationRequest, CoordinationRequestModel, CoordinationResult, CoordinationResultModel,
    PartitionCommand, PartitionRequest, PartitionRequestModel, PartitionResult, PartitionResultModel,
};
use crate::sorted_map::SortedMap;

verus! {

broadcast use crate::bytes::lemma_bytes_deep_view, crate::bytes::lemma_slice_deep_view;

// ---------------------------------------------------------------------------
// Coordination
// ---------------------------------------------------------------------------

/// The coordination state of a shard.
#[verifier::ext_equal]
pub struct CoordinationModel {
    pub transactions: TransactionsModel,
    pub groups: GroupsModel,
}

/// An answer that carries nothing.
pub open spec fn applied_result(r: Result<(), CoordinationError>) -> Result<
    CoordinationResultModel,
    CoordinationError,
> {
    match r {
        Ok(_) => Ok(CoordinationResultModel::Applied),
        Err(error) => Err(error),
    }
}

impl CoordinationModel {
    /// What a coordination request does and answers.
    pub open spec fn coordinated(self, request: CoordinationRequestModel) -> (
        CoordinationModel,
        Result<CoordinationResultModel, CoordinationError>,
    ) {
        match request {
            CoordinationRequestModel::InitProducer { transactional_id } => {
                let (transactions, r) = self.transactions.initialized(transactional_id);
                (
                    CoordinationModel { transactions, ..self },
                    match r {
                        Ok(identity) => Ok(CoordinationResultModel::Producer(identity)),
                        Err(error) => Err(error),
                    },
                )
            },
            CoordinationRequestModel::AddPartition {
                transactional_id,
                producer,
                topic,
                partition,
            } => {
                let (transactions, r) = self.transactions.enlisted(
                    transactional_id,
                    producer,
                    topic,
                    partition,
                );
                (CoordinationModel { transactions, ..self }, applied_result(r))
            },
            CoordinationRequestModel::ValidateProduce {
                transactional_id,
                producer,
                topic,
                partition,
            } => (
                self,
                applied_result(
                    self.transactions.validated(transactional_id, producer, topic, partition),
                ),
            ),
            CoordinationRequestModel::EndTransaction { transactional_id, producer, commit: _ } => {
                let (transactions, r) = self.transactions.ended(transactional_id, producer);
                (
                    CoordinationModel { transactions, ..self },
                    match r {
                        Ok(completion) => Ok(
                            CoordinationResultModel::TransactionCompleted(completion),
                        ),
                        Err(error) => Err(error),
                    },
                )
            },
            CoordinationRequestModel::AddOffset { transactional_id, producer, offset } => {
                let (transactions, r) = self.transactions.with_offset(
                    transactional_id,
                    producer,
                    offset,
                );
                (CoordinationModel { transactions, ..self }, applied_result(r))
            },
            CoordinationRequestModel::JoinGroup {
                group_id,
                member_id,
                subscriptions,
                partitions,
            } => {
                let (groups, r) = self.groups.joined(
                    group_id,
                    member_id,
                    subscriptions,
                    partitions,
                );
                (
                    CoordinationModel { groups, ..self },
                    match r {
                        Ok((generation, assignments)) => Ok(
                            CoordinationResultModel::Group { generation, assignments },
                        ),
                        Err(error) => Err(error),
                    },
                )
            },
            CoordinationRequestModel::Heartbeat { group_id, member_id, generation } => {
                let (groups, r) = self.groups.heard(group_id, member_id, generation);
                (CoordinationModel { groups, ..self }, applied_result(r))
            },
            CoordinationRequestModel::LeaveGroup { group_id, member_id, generation } => {
                let (groups, r) = self.groups.left(group_id, member_id, Some(generation));
                (CoordinationModel { groups, ..self }, applied_result(r))
            },
            CoordinationRequestModel::LeaveGroupAny { group_id, member_id } => {
                let (groups, r) = self.groups.left(group_id, member_id, None);
                (CoordinationModel { groups, ..self }, applied_result(r))
            },
            CoordinationRequestModel::CommitOffset {
                group_id,
                generation,
                topic,
                partition,
                offset,
            } => {
                let (groups, r) = self.groups.committed(
                    group_id,
                    generation,
                    topic,
                    partition,
                    offset,
                );
                (CoordinationModel { groups, ..self }, applied_result(r))
            },
            CoordinationRequestModel::FetchOffset { group_id, topic, partition } => (
                self,
                match self.groups.offset(group_id, topic, partition) {
                    Ok(offset) => Ok(CoordinationResultModel::Offset(offset)),
                    Err(error) => Err(error),
                },
            ),
        }
    }
}

/// Turns an answer that carries nothing into a coordination result.
fn applied(r: Result<(), CoordinationError>) -> (s: Result<CoordinationResult, CoordinationError>)
    ensures
        message::coordination_view(s) == applied_result(r),
{
    match r {
        Ok(()) => Ok(CoordinationResult::Applied),
        Err(error) => Err(error),
    }
}

/// Applies one coordination request to the coordinators.
pub fn coordinate(
    request: CoordinationRequest,
    transactions: &mut TransactionCoordinator,
    groups: &mut GroupCoordinator,
) -> (r: Result<CoordinationResult, CoordinationError>)
    requires
        old(transactions).wf(),
        old(groups).wf(),
    ensures
        final(transactions).wf(),
        final(groups).wf(),
        (
            (CoordinationModel { transactions: final(transactions)@, groups: final(groups)@ }),
            message::coordination_view(r),
        ) == (CoordinationModel { transactions: old(transactions)@, groups: old(groups)@ }).coordinated(
            request.deep_view(),
        ),
{
    match request {
        CoordinationRequest::InitProducer { transactional_id } => {
            match transactions.init(transactional_id.as_slice()) {
                Ok(identity) => Ok(CoordinationResult::Producer(identity)),
                Err(error) => Err(error),
            }
        },
        CoordinationRequest::AddPartition { transactional_id, producer, topic, partition } => applied(
            transactions.add_partition(
                transactional_id.as_slice(),
                producer,
                topic.as_slice(),
                partition,
            ),
        ),
        CoordinationRequest::ValidateProduce { transactional_id, producer, topic, partition } => applied(
            transactions.validate_produce(
                transactional_id.as_slice(),
                producer,
                topic.as_slice(),
                partition,
            ),
        ),
        CoordinationRequest::EndTransaction { transactional_id, producer, commit } => {
            match transactions.end(transactional_id.as_slice(), producer, commit) {
                Ok(completion) => Ok(CoordinationResult::TransactionCompleted(completion)),
                Err(error) => Err(error),
            }
        },
        CoordinationRequest::AddOffset { transactional_id, producer, offset } => applied(
            transactions.add_offset(transactional_id.as_slice(), producer, offset),
        ),
        CoordinationRequest::JoinGroup { group_id, member_id, subscriptions, partitions } => {
            let places = partitions.as_slice();
            proof {
                assert(places.deep_view() =~= partitions.deep_view());
            }
            match groups.join(group_id.as_slice(), member_id.as_slice(), subscriptions, places) {
                Ok((generation, assignments)) => Ok(
                    CoordinationResult::Group { generation, assignments },
                ),
                Err(error) => Err(error),
            }
        },
        CoordinationRequest::Heartbeat { group_id, member_id, generation } => applied(
            groups.heartbeat(group_id.as_slice(), member_id.as_slice(), generation),
        ),
        CoordinationRequest::LeaveGroup { group_id, member_id, generation } => applied(
            groups.leave(group_id.as_slice(), member_id.as_slice(), generation),
        ),
        CoordinationRequest::LeaveGroupAny { group_id, member_id } => applied(
            groups.leave_any(group_id.as_slice(), member_id.as_slice()),
        ),
        CoordinationRequest::CommitOffset { group_id, generation, topic, partition, offset } => applied(
            groups.commit_offset(
                group_id.as_slice(),
                generation,
                topic.as_slice(),
                partition,
                offset,
            ),
        ),
        CoordinationRequest::FetchOffset { group_id, topic, partition } => {
            match groups.offset(group_id.as_slice(), topic.as_slice(), partition) {
                Ok(offset) => Ok(CoordinationResult::Offset(offset)),
                Err(error) => Err(error),
            }
        },
    }
}

// ---------------------------------------------------------------------------
// The shard
// ---------------------------------------------------------------------------

/// What a partition shard holds.
#[verifier::ext_equal]
pub struct ShardModel {
    /// The topics of the broker.
    pub catalog: CatalogModel,
    /// The logs that were touched so far, by topic and partition.
    pub logs: Map<(Seq<u8>, i32), LogModel>,
    /// The coordination state.
    pub coordination: CoordinationModel,
    /// The retained-byte budget of each log.
    pub partition_max_bytes: Option<usize>,
}

/// The answer to an append.
pub open spec fn append_reply(r: Result<i64, LogError>) -> PartitionResultModel {
    match r {
        Ok(base_offset) => PartitionResultModel::Produced { base_offset },
        Err(error) => PartitionResultModel::Failed(error),
    }
}

impl ShardModel {
    /// A shard that was asked nothing yet.
    pub open spec fn empty(catalog: CatalogModel, partition_max_bytes: Option<usize>) -> ShardModel {
        ShardModel {
            catalog,
            logs: Map::empty(),
            coordination: CoordinationModel {
                transactions: TransactionsModel::empty(),
                groups: GroupsModel { groups: Map::empty() },
            },
            partition_max_bytes,
        }
    }

    /// Every part of the shard is well-formed.
    pub open spec fn wf(self) -> bool {
        &&& self.catalog.wf()
        &&& forall|place: (Seq<u8>, i32)| #[trigger]
            self.logs.contains_key(place) ==> self.logs[place].wf()
        &&& self.coordination.transactions.wf()
        &&& self.coordination.groups.wf()
    }

    /// The log of a partition; one that was never touched is empty.
    pub open spec fn log(self, topic: Seq<u8>, partition: i32) -> LogModel {
        if self.logs.contains_key((topic, partition)) {
            self.logs[(topic, partition)]
        } else {
            LogModel::empty(self.partition_max_bytes)
        }
    }

    /// The shard with the log of one partition replaced.
    pub open spec fn with_log(self, topic: Seq<u8>, partition: i32, log: LogModel) -> ShardModel {
        ShardModel { logs: self.logs.insert((topic, partition), log), ..self }
    }

    /// What an append does and answers.
    pub open spec fn appended(
        self,
        topic: Seq<u8>,
        partition: i32,
        records: Seq<log::DataModel>,
        transaction: Option<i64>,
    ) -> (ShardModel, PartitionResultModel) {
        match self.catalog.checked(topic, partition) {
            Err(error) => (self, PartitionResultModel::Failed(error)),
            Ok(_) => {
                let (log, r) = self.log(topic, partition).appended(records, transaction);
                (self.with_log(topic, partition, log), append_reply(r))
            },
        }
    }

    /// What a request does and answers. Every request for a partition that
    /// exists brings its log into being.
    pub open spec fn handled(self, request: PartitionRequestModel) -> (ShardModel, PartitionResultModel) {
        match request {
            PartitionRequestModel::Produce { topic, partition, records } => self.appended(
                topic,
                partition,
                records,
                None,
            ),
            PartitionRequestModel::ProduceTransactional {
                topic,
                partition,
                records,
                producer_id,
            } => self.appended(topic, partition, records, Some(producer_id)),
            PartitionRequestModel::Fetch {
                topic,
                partition,
                offset,
                max_records,
                max_bytes,
                read_committed,
            } => match self.catalog.checked(topic, partition) {
                Err(error) => (self, PartitionResultModel::Failed(error)),
                Ok(_) => {
                    let log = self.log(topic, partition);
                    (
                        self.with_log(topic, partition, log),
                        match log.fetched(offset, max_records, max_bytes, read_committed) {
                            Ok(window) => PartitionResultModel::Fetched(window),
                            Err(error) => PartitionResultModel::Failed(error),
                        },
                    )
                },
            },
            PartitionRequestModel::ListOffset {
                topic,
                partition,
                earliest,
            } => match self.catalog.checked(topic, partition) {
                Err(error) => (self, PartitionResultModel::Failed(error)),
                Ok(_) => {
                    let log = self.log(topic, partition);
                    (
                        self.with_log(topic, partition, log),
                        PartitionResultModel::Offset(
                            if earliest {
                                log.start_offset()
                            } else {
                                log.next_offset
                            },
                        ),
                    )
                },
            },
            PartitionRequestModel::Shutdown => (self, PartitionResultModel::Stopped),
            PartitionRequestModel::ResolveTransaction { producer_id, commit } => (
                ShardModel {
                    logs: self.logs.map_values(
                        |log: LogModel| log.resolved(producer_id, commit),
                    ),
                    ..self
                },
                PartitionResultModel::Resolved,
            ),
            PartitionRequestModel::Coordinate { request } => {
                let (coordination, r) = self.coordination.coordinated(request);
                (
                    ShardModel { coordination, ..self },
                    PartitionResultModel::Coordination(r),
                )
            },
        }
    }

    /// Whether there are offsets left for what a request appends.
    pub open spec fn has_room(self, request: PartitionRequestModel) -> bool {
        match request {
            PartitionRequestModel::Produce { topic, partition, records } => self.catalog.checked(
                topic,
                partition,
            ) is Ok ==> self.log(topic, partition).has_room(records),
            PartitionRequestModel::ProduceTransactional {
                topic,
                partition,
                records,
                producer_id: _,
            } => self.catalog.checked(topic, partition) is Ok ==> self.log(
                topic,
                partition,
            ).has_room(records),
            _ => true,
        }
    }
}

/// What the logs of a map stand for.
spec fn logs_view(dict: Map<(Seq<u8>, i32), PartitionLog>) -> Map<(Seq<u8>, i32), LogModel> {
    dict.map_values(|log: PartitionLog| log@)
}

/// One shard: the partition logs it owns and, on shard zero, the coordinators.
pub struct PartitionShard {
    catalog: Arc<TopicCatalog>,
    logs: SortedMap<(Vec<u8>, i32), PartitionLog>,
    transactions: TransactionCoordinator,
    groups: GroupCoordinator,
    partition_max_bytes: Option<usize>,
}

impl View for PartitionShard {
    type V = ShardModel;

    closed spec fn view(&self) -> ShardModel {
        ShardModel {
            catalog: self.catalog@,
            logs: logs_view(self.logs.dict()),
            coordination: CoordinationModel {
                transactions: self.transactions@,
                groups: self.groups@,
            },
            partition_max_bytes: self.partition_max_bytes,
        }
    }
}

/// Creates the partition log for one `(topic, partition)` owned by a shard.
fn new_log(partition_max_bytes: Option<usize>) -> (r: PartitionLog)
    ensures
        r.wf(),
        r@ == LogModel::empty(partition_max_bytes),
{
    match partition_max_bytes {
        Some(max_bytes) => PartitionLog::with_max_bytes(max_bytes),
        None => PartitionLog::new(),
    }
}

impl PartitionShard {
    /// Every part of the shard is well-formed.
    pub closed spec fn wf(&self) -> bool {
        &&& self.catalog.wf()
        &&& self.logs.wf()
        &&& forall|place: (Seq<u8>, i32)| #[trigger]
            self.logs.dict().contains_key(place) ==> self.logs.dict()[place].wf()
        &&& self.transactions.wf()
        &&& self.groups.wf()
    }

    /// What a well-formed shard stands for is well-formed.
    pub proof fn lemma_model_wf(&self)
        requires
            self.wf(),
        ensures
            self@.wf(),
    {
        self.catalog.lemma_model_wf();
        self.transactions.lemma_model_wf();
        self.groups.lemma_model_wf();
        assert forall|place: (Seq<u8>, i32)| #[trigger] self@.logs.contains_key(place) implies self@.logs[place].wf() by {
            self.logs.dict()[place].lemma_model_wf();
        }
    }

    /// Creates a shard that owns no log yet.
    pub fn new(catalog: Arc<TopicCatalog>, partition_max_bytes: Option<usize>) -> (r: Self)
        requires
            catalog.wf(),
        ensures
            r.wf(),
            r@ == ShardModel::empty(catalog@, partition_max_bytes),
    {
        let r = PartitionShard {
            catalog,
            logs: SortedMap::new(),
            transactions: TransactionCoordinator::new(),
            groups: GroupCoordinator::new(),
            partition_max_bytes,
        };
        proof {
            assert(r@.logs =~= Map::empty());
        }
        r
    }

    /// What replacing one log does to the whole.
    proof fn lemma_replaced(before: Self, after: Self, topic: Seq<u8>, partition: i32, log: PartitionLog)
        requires
            before.wf(),
            after.logs.wf(),
            after.catalog == before.catalog,
            after.transactions == before.transactions,
            after.groups == before.groups,
            after.partition_max_bytes == before.partition_max_bytes,
            after.logs.dict() == before.logs.dict().insert((topic, partition), log),
            log.wf(),
        ensures
            after.wf(),
            after@ == before@.with_log(topic, partition, log@),
    {
        assert(after@.logs =~= before@.logs.insert((topic, partition), log@));
    }

    /// The position of the log of a partition, brought into being if needed.
    fn open_log(&mut self, topic: Vec<u8>, partition: i32) -> (r: usize)
        requires
            old(self).wf(),
        ensures
            final(self).wf(),
            final(self)@ == old(self)@.with_log(topic@, partition, old(self)@.log(topic@, partition)),
            r < final(self).logs.keys().len(),
            r < final(self).logs.values().len(),
            final(self).logs.keys()[r as int] == (topic@, partition),
            final(self).logs.values()[r as int].wf(),
            final(self).logs.values()[r as int]@ == old(self)@.log(topic@, partition),
    {
        let ghost before = *self;
        let ghost name = topic@;
        let key = (topic, partition);
        let found = self.logs.find(&key);
        match found {
            Some(index) => {
                proof {
                    self.logs.lemma_facts();
                    assert(self@.logs =~= self@.logs.insert((name, partition), self@.log(name, partition)));
                }
                index
            },
            None => {
                let log = new_log(self.partition_max_bytes);
                let ghost fresh = log;
                let again = (crate::bytes::copy_bytes(key.0.as_slice()), partition);
                self.logs.insert(key, log);
                proof {
                    Self::lemma_replaced(before, *self, name, partition, fresh);
                    self.logs.lemma_facts();
                }
                match self.logs.find(&again) {
                    Some(index) => index,
                    None => 0,
                }
            },
        }
    }

    /// Whether there are offsets left for what a request appends.
    pub fn has_room(&self, request: &PartitionRequest) -> (r: bool)
        requires
            self.wf(),
        ensures
            r == self@.has_room(request.deep_view()),
    {
        match request {
            PartitionRequest::Produce { topic, partition, records } => self.log_has_room(
                topic,
                *partition,
                records,
            ),
            PartitionRequest::ProduceTransactional {
                topic,
                partition,
                records,
                producer_id: _,
            } => self.log_has_room(topic, *partition, records),
            _ => true,
        }
    }

    fn log_has_room(
        &self,
        topic: &Vec<u8>,
        partition: i32,
        records: &Vec<crate::broker_core::log::RecordData>,
    ) -> (r: bool)
        requires
            self.wf(),
        ensures
            r == (self@.catalog.checked(topic@, partition) is Ok ==> self@.log(
                topic@,
                partition,
            ).has_room(records.deep_view())),
    {
        if self.catalog.check_partition(topic.as_slice(), partition).is_err() {
            return true;
        }
        let slice = records.as_slice();
        proof {
            assert(slice.deep_view() =~= records.deep_view());
        }
        let key = (crate::bytes::copy_bytes(topic.as_slice()), partition);
        match self.logs.get(&key) {
            Some(log) => log.has_room(slice),
            None => new_log(self.partition_max_bytes).has_room(slice),
        }
    }

    /// Appends to the log of a partition.
    fn append(
        &mut self,
        topic: Vec<u8>,
        partition: i32,
        records: Vec<crate::broker_core::log::RecordData>,
        transaction: Option<i64>,
    ) -> (r: PartitionResult)
        requires
            old(self).wf(),
            old(self)@.catalog.checked(topic@, partition) is Ok ==> old(self)@.log(
                topic@,
                partition,
            ).has_room(records.deep_view()),
        ensures
            final(self).wf(),
            (final(self)@, r.deep_view()) == old(self)@.appended(
                topic@,
                partition,
                records.deep_view(),
                transaction,
            ),
    {
        let ghost start = self@;
        let ghost name = topic@;
        match self.catalog.check_partition(topic.as_slice(), partition) {
            Err(error) => PartitionResult::Failed(error),
            Ok(()) => {
                let index: usize = self.open_log(topic, partition);
                let ghost before = *self;
                let slice = records.as_slice();
                proof {
                    assert(slice.deep_view() =~= records.deep_view());
                }
                let log = self.logs.value_at_mut(index);
                let r = match transaction {
                    None => log.append_data(slice),
                    Some(producer_id) => log.append_transactional(slice, producer_id),
                };
                let ghost changed = *log;
                proof {
                    Self::lemma_replaced(before, *self, name, partition, changed);
                    assert(self@ =~= start.with_log(name, partition, changed@));
                }
                match r {
                    Ok(base_offset) => PartitionResult::Produced { base_offset },
                    Err(error) => PartitionResult::Failed(error),
                }
            },
        }
    }

    /// Commits or aborts the batches of a producer in every log.
    fn resolve(&mut self, producer_id: i64, commit: bool)
        requires
            old(self).wf(),
        ensures
            final(self).wf(),
            final(self)@ == (ShardModel {
                logs: old(self)@.logs.map_values(|log: LogModel| log.resolved(producer_id, commit)),
                ..old(self)@
            }),
    {
        let ghost before = *self;
        let ghost keys = self.logs.keys();
        let mut i: usize = 0;
        proof {
            before.logs.lemma_facts();
        }
        while i < self.logs.len()
            invariant
                self.wf(),
                before.wf(),
                before.logs.wf(),
                keys == before.logs.keys(),
                self.logs.keys() == keys,
                keys.no_duplicates(),
                self.catalog == before.catalog,
                self.transactions == before.transactions,
                self.groups == before.groups,
                self.partition_max_bytes == before.partition_max_bytes,
                i <= keys.len(),
                self.logs.dict().dom() == before.logs.dict().dom(),
                forall|k: int| 0 <= k < keys.len() ==> before.logs.dict().contains_key(#[trigger] keys[k]),
                forall|place: (Seq<u8>, i32)| #[trigger]
                    before.logs.dict().contains_key(place) <==> keys.contains(place),
                forall|k: int|
                    0 <= k < i ==> self.logs.dict()[#[trigger] keys[k]]@
                        == before.logs.dict()[keys[k]]@.resolved(producer_id, commit),
                forall|k: int|
                    i <= k < keys.len() ==> self.logs.dict()[#[trigger] keys[k]]
                        == before.logs.dict()[keys[k]],
            decreases keys.len() - i,
        {
            proof {
                self.logs.lemma_facts();
                assert(self.logs.dict().contains_key(keys[i as int]));
            }
            let ghost current = *self;
            let log = self.logs.value_at_mut(i);
            log.commit_transaction(producer_id, commit);
            let ghost changed = *log;
            proof {
                assert(self.logs.dict() == current.logs.dict().insert(keys[i as int], changed));
                assert(self.logs.dict().dom() =~= before.logs.dict().dom());
                assert forall|k: int| 0 <= k < i + 1 implies self.logs.dict()[#[trigger] keys[k]]@
                    == before.logs.dict()[keys[k]]@.resolved(producer_id, commit) by {
                    if k < i {
                        assert(keys[k] != keys[i as int]);
                    }
                }
                assert forall|k: int| i + 1 <= k < keys.len() implies self.logs.dict()[#[trigger] keys[k]]
                    == before.logs.dict()[keys[k]] by {
                    assert(keys[k] != keys[i as int]);
                }
            }
            i += 1;
        }
        proof {
            let want = before@.logs.map_values(|log: LogModel| log.resolved(producer_id, commit));
            assert forall|place: (Seq<u8>, i32)| #[trigger] self@.logs.contains_key(place) implies self@.logs[place]
                == want[place] by {
                assert(before.logs.dict().contains_key(place));
                let k = choose|k: int| 0 <= k < keys.len() && keys[k] == place;
                assert(self.logs.dict()[keys[k]]@ == before.logs.dict()[keys[k]]@.resolved(
                    producer_id,
                    commit,
                ));
            }
            assert(self@.logs =~= want);
        }
    }

    /// Applies one request to the logs and coordinators of this shard.
    pub fn handle(&mut self, request: PartitionRequest) -> (r: PartitionResult)
        requires
            old(self).wf(),
            old(self)@.has_room(request.deep_view()),
        ensures
            final(self).wf(),
            (final(self)@, r.deep_view()) == old(self)@.handled(request.deep_view()),
    {
        match request {
            PartitionRequest::Produce { topic, partition, records } => self.append(
                topic,
                partition,
                records,
                None,
            ),
            PartitionRequest::ProduceTransactional {
                topic,
                partition,
                records,
                producer_id,
            } => self.append(topic, partition, records, Some(producer_id)),
            PartitionRequest::Fetch {
                topic,
                partition,
                offset,
                max_records,
                max_bytes,
                read_committed,
            } => {
                match self.catalog.check_partition(topic.as_slice(), partition) {
                    Err(error) => PartitionResult::Failed(error),
                    Ok(()) => {
                        let index: usize = self.open_log(topic, partition);
                        match self.logs.value_at(index).fetch_with_isolation(
                            offset,
                            max_records,
                            max_bytes,
                            read_committed,
                        ) {
                            Ok(window) => PartitionResult::Fetched(window),
                            Err(error) => PartitionResult::Failed(error),
                        }
                    },
                }
            },
            PartitionRequest::ListOffset { topic, partition, earliest } => {
                match self.catalog.check_partition(topic.as_slice(), partition) {
                    Err(error) => PartitionResult::Failed(error),
                    Ok(()) => {
                        let index: usize = self.open_log(topic, partition);
                        PartitionResult::Offset(self.logs.value_at(index).list_offset(earliest))
                    },
                }
            },
            PartitionRequest::Shutdown => PartitionResult::Stopped,
            PartitionRequest::ResolveTransaction { producer_id, commit } => {
                self.resolve(producer_id, commit);
                PartitionResult::Resolved
            },
            PartitionRequest::Coordinate { request } => {
                let result = coordinate(request, &mut self.transactions, &mut self.groups);
                PartitionResult::Coordination(result)
            },
        }
    }

    /// Handles one command, answers it and releases the parked caller. Returns
    /// whether the shard goes on.
    pub fn answer<P: Parker>(&mut self, command: PartitionCommand, parker: &P) -> (r: bool)
        requires
            old(self).wf(),
            old(self)@.has_room(command.request.deep_view()),
        ensures
            final(self).wf(),
            final(self)@ == old(self)@.handled(command.request.deep_view()).0,
            r == !(command.request is Shutdown),
            exists|result: PartitionResult|
                result.deep_view() == old(self)@.handled(command.request.deep_view()).1
                    && #[trigger] responded(command.reply, *parker, result),
    {
        let PartitionCommand { request, reply } = command;
        let going_on = !matches!(request, PartitionRequest::Shutdown);
        let result = self.handle(request);
        respond(reply, parker, result);
        going_on
    }
}

/// Whether one send of this result into a reply channel ended this way and left
/// `after` of the sending end.
pub closed spec fn reply_sent(
    reply: ShardSender<PartitionResult>,
    result: PartitionResult,
    after: ShardSender<PartitionResult>,
    sent: Result<(), PartitionResult>,
) -> bool {
    call_ensures(send_reply, (reply, result), (after, sent))
}

/// Whether the caller that waits at the other end of a reply channel was
/// released, and the sending end given up.
pub closed spec fn caller_released<P: Parker>(parker: P, reply: ShardSender<PartitionResult>) -> bool {
    exists|done: ()| #[trigger] call_ensures(release_caller::<P>, (&parker, reply), done)
}

/// Whether this result was sent into the reply channel, once, and the parked
/// caller was released after that: what is given up is what the one send left.
/// Whether the channel had room for the result depends on the caller.
pub open spec fn responded<P: Parker>(
    reply: ShardSender<PartitionResult>,
    parker: P,
    result: PartitionResult,
) -> bool {
    exists|after: ShardSender<PartitionResult>, sent: Result<(), PartitionResult>| #[trigger]
        reply_sent(reply, result, after, sent) && caller_released(parker, after)
}

/// Sends a result into a reply channel.
fn send_reply(reply: ShardSender<PartitionResult>, result: PartitionResult) -> (r: (
    ShardSender<PartitionResult>,
    Result<(), PartitionResult>,
))
    ensures
        call_ensures(ShardSender::<PartitionResult>::try_send, (&reply, result), r.1),
{
    let sent = reply.try_send(result);
    (reply, sent)
}

/// Gives up the sending end of a reply channel and releases the caller that
/// waits at the other.
fn release_caller<P: Parker>(parker: &P, _reply: ShardSender<PartitionResult>)
    ensures
        exists|done: ()| #[trigger] call_ensures(P::unpark, (parker,), done),
{
    parker.unpark();
}

/// Answers one command and releases the parked caller.
///
/// A reply that nobody waits for anymore (the caller timed out) is dropped
/// rather than retried; the caller's timeout is the authoritative failure
/// signal.
fn respond<P: Parker>(reply: ShardSender<PartitionResult>, parker: &P, result: PartitionResult)
    ensures
        responded(reply, *parker, result),
{
    let (after, sent) = send_reply(reply, result);
    assert(reply_sent(reply, result, after, sent));
    release_caller(parker, after);
}

} // verus!
