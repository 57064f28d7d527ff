//! The broker facade: shard startup, routing, calls, and shutdown.
//!
//! A [`Broker`] reaches every partition shard. Callers give it a topic and
//! partition; it validates them against the catalog, asks the deterministic
//! owning shard, and makes an answer of the reply.

use core::time::Duration;
use std::sync::Arc;

use vstd::prelude::*;

use sitas_core::shard_runtime::{channel, ShardReceiver};

use crate::broker_core::coordination::{
    self, AssignmentModel, CompletionModel, GroupAssignment, ProducerIdentity, TransactionOffset,
    TransactionOffsetModel,
};
use crate::broker_core::error::LogError;
use crate::broker_core::log::{DataModel, FetchWindow, RecordData, WindowModel};
use crate::broker_core::topic::{CatalogModel, TopicCatalog, TopicMetadata, TopicMetadataModel};
use crate::broker_runtime::channel::{Parker, MAX_CHANNEL_CAPACITY};
use crate::broker_runtime::error::BrokerError;
use crate::broker_runtime::links::{
    self, queue_capacity, CallModel, Mailbox, ShardLinks, Shards,
};
use crate::broker_runtime::message::{
    CoordinationRequest, CoordinationRequestModel, CoordinationResult, CoordinationResultModel,
    PartitionCommand, PartitionRequest, PartitionRequestModel, PartitionResult, PartitionResultModel,
};
use crate::broker_runtime::partition::{PartitionShard, ShardModel};
use crate::bytes::copy_bytes;

verus! {

broadcast use crate::bytes::lemma_bytes_deep_view, crate::bytes::lemma_slice_deep_view;

/// Default number of commands a shard mailbox holds before callers park.
pub const DEFAULT_MAILBOX_CAPACITY: usize = 64;

/// Default park interval, in milliseconds, used while a caller waits for
/// capacity or a reply.
pub const DEFAULT_PARK_TIMEOUT_MS: u64 = 5;

/// Default number of park intervals before a wait is abandoned.
pub const DEFAULT_MAX_RETRIES: u32 = 2_000;

/// The duration of a number of milliseconds.
pub uninterp spec fn duration_of_millis(millis: u64) -> Duration;

/// `Duration::from_millis` makes the duration of that many milliseconds, which
/// depends on nothing else.
pub assume_specification[ Duration::from_millis ](millis: u64) -> (r: Duration)
    ensures
        r == duration_of_millis(millis),
;

// ---------------------------------------------------------------------------
// Configuration
// ---------------------------------------------------------------------------

/// One topic's desired partition count.
#[derive(Clone, Debug, Eq, PartialEq)]
pub struct TopicSpec {
    /// Topic name.
    pub name: Vec<u8>,
    /// Number of partitions; must be positive.
    pub partitions: i32,
}

impl DeepView for TopicSpec {
    type V = TopicMetadataModel;

    open spec fn deep_view(&self) -> TopicMetadataModel {
        TopicMetadataModel { name: self.name@, partitions: self.partitions }
    }
}

/// Static broker configuration.
#[derive(Debug, Eq, PartialEq)]
pub struct BrokerConfig {
    /// Number of physical partition shards.
    pub shard_count: usize,
    /// Topics created at startup.
    pub topics: Vec<TopicSpec>,
    /// Capacity of each shard mailbox.
    pub mailbox_capacity: usize,
    /// Park interval between retries.
    pub park_timeout: Duration,
    /// Retry budget for mailbox sends and reply waits.
    pub max_retries: u32,
    /// Optional approximate retained-byte budget per partition.
    pub partition_max_bytes: Option<usize>,
}

/// Copies a list of topics.
fn copy_topics(topics: &Vec<TopicSpec>) -> (r: Vec<TopicSpec>)
    ensures
        r.deep_view() == topics.deep_view(),
{
    let mut copy: Vec<TopicSpec> = Vec::new();
    let mut i: usize = 0;
    while i < topics.len()
        invariant
            i <= topics.len(),
            copy.deep_view() =~= topics.deep_view().take(i as int),
        decreases topics.len() - i,
    {
        let topic = TopicSpec {
            name: copy_bytes(topics[i].name.as_slice()),
            partitions: topics[i].partitions,
        };
        let ghost before = copy.deep_view();
        let ghost model = topic.deep_view();
        copy.push(topic);
        proof {
            assert(model == topics.deep_view()[i as int]);
            assert(copy.deep_view() =~= before.push(model));
        }
        i += 1;
    }
    proof {
        assert(topics.deep_view().take(i as int) =~= topics.deep_view());
    }
    copy
}

impl Clone for BrokerConfig {
    fn clone(&self) -> (r: Self)
        ensures
            r.topics.deep_view() == self.topics.deep_view(),
            r == (BrokerConfig { topics: r.topics, ..*self }),
    {
        BrokerConfig {
            shard_count: self.shard_count,
            topics: copy_topics(&self.topics),
            mailbox_capacity: self.mailbox_capacity,
            park_timeout: self.park_timeout,
            max_retries: self.max_retries,
            partition_max_bytes: self.partition_max_bytes,
        }
    }
}

/// The catalog that a list of topics makes, or why there is none.
pub open spec fn catalog_of(topics: Seq<TopicMetadataModel>) -> Result<CatalogModel, LogError>
    decreases topics.len(),
{
    if topics.len() == 0 {
        Ok(CatalogModel { topics: Map::empty() })
    } else {
        match catalog_of(topics.drop_last()) {
            Err(error) => Err(error),
            Ok(catalog) => match catalog.created(topics.last().name, topics.last().partitions) {
                (catalog, Ok(_)) => Ok(catalog),
                (_, Err(error)) => Err(error),
            },
        }
    }
}

impl BrokerConfig {
    /// Whether a broker can be started: it has shards, topics that the catalog
    /// accepts, and mailboxes of at least two commands.
    pub open spec fn valid(self) -> bool {
        &&& self.shard_count > 0
        &&& self.topics.deep_view().len() > 0
        &&& self.mailbox_capacity >= 2
        &&& catalog_of(self.topics.deep_view()) is Ok
    }

    /// Creates a configuration with the default mailbox and wait policy.
    pub fn new(shard_count: usize, topics: Vec<TopicSpec>) -> (r: Self)
        ensures
            r == (BrokerConfig {
                shard_count,
                topics,
                mailbox_capacity: DEFAULT_MAILBOX_CAPACITY,
                park_timeout: duration_of_millis(DEFAULT_PARK_TIMEOUT_MS),
                max_retries: DEFAULT_MAX_RETRIES,
                partition_max_bytes: None,
            }),
    {
        BrokerConfig {
            shard_count,
            topics,
            mailbox_capacity: DEFAULT_MAILBOX_CAPACITY,
            park_timeout: Duration::from_millis(DEFAULT_PARK_TIMEOUT_MS),
            max_retries: DEFAULT_MAX_RETRIES,
            partition_max_bytes: None,
        }
    }

    /// Overrides the shard mailbox capacity.
    pub fn with_mailbox_capacity(self, capacity: usize) -> (r: Self)
        ensures
            r == (BrokerConfig { mailbox_capacity: capacity, ..self }),
    {
        let mut config = self;
        config.mailbox_capacity = capacity;
        config
    }

    /// Overrides the park interval and retry budget.
    pub fn with_wait_policy(self, park_timeout: Duration, max_retries: u32) -> (r: Self)
        ensures
            r == (BrokerConfig { park_timeout, max_retries, ..self }),
    {
        let mut config = self;
        config.park_timeout = park_timeout;
        config.max_retries = max_retries;
        config
    }

    /// Bounds each partition to an approximate retained-byte budget.
    pub fn with_partition_max_bytes(self, max_bytes: usize) -> (r: Self)
        ensures
            r == (BrokerConfig { partition_max_bytes: Some(max_bytes), ..self }),
    {
        let mut config = self;
        config.partition_max_bytes = Some(max_bytes);
        config
    }
}

/// Builds the catalog of a configuration.
fn build_catalog(topics: &Vec<TopicSpec>) -> (r: Result<TopicCatalog, LogError>)
    ensures
        match r {
            Ok(catalog) => catalog.wf() && catalog_of(topics.deep_view()) == Ok::<
                CatalogModel,
                LogError,
            >(catalog@),
            Err(error) => catalog_of(topics.deep_view()) == Err::<CatalogModel, LogError>(error),
        },
{
    let ghost models = topics.deep_view();
    let mut catalog = TopicCatalog::new();
    let mut i: usize = 0;
    proof {
        assert(models.take(0) =~= seq![]);
    }
    while i < topics.len()
        invariant
            models == topics.deep_view(),
            i <= topics.len(),
            catalog.wf(),
            catalog_of(models.take(i as int)) == Ok::<CatalogModel, LogError>(catalog@),
        decreases topics.len() - i,
    {
        proof {
            assert(models.take(i + 1).drop_last() =~= models.take(i as int));
            assert(models.take(i + 1).last() == topics@[i as int].deep_view());
        }
        let step = catalog.create(topics[i].name.as_slice(), topics[i].partitions);
        match step {
            Ok(()) => {},
            Err(error) => {
                proof {
                    lemma_catalog_error(models, i + 1);
                }
                return Err(error);
            },
        }
        i += 1;
    }
    proof {
        assert(models.take(i as int) =~= models);
    }
    Ok(catalog)
}

/// A topic that is refused fails the whole list.
proof fn lemma_catalog_error(topics: Seq<TopicMetadataModel>, n: int)
    requires
        0 <= n <= topics.len(),
        catalog_of(topics.take(n)) is Err,
    ensures
        catalog_of(topics) == catalog_of(topics.take(n)),
    decreases topics.len(),
{
    if n < topics.len() {
        assert(topics.drop_last().take(n) =~= topics.take(n));
        lemma_catalog_error(topics.drop_last(), n);
    } else {
        assert(topics.take(n) =~= topics);
    }
}

// ---------------------------------------------------------------------------
// Placement
// ---------------------------------------------------------------------------

/// The 64-bit FNV-1a hash of a byte string.
pub open spec fn fnv1a_hash(bytes: Seq<u8>) -> u64
    decreases bytes.len(),
{
    if bytes.len() == 0 {
        0xcbf2_9ce4_8422_2325
    } else {
        (fnv1a_hash(bytes.drop_last()) ^ (bytes.last() as u64)).wrapping_mul(0x0000_0100_0000_01b3)
    }
}

/// The shard that owns a partition: the hash of the topic tells where its first
/// partition goes, and each next partition goes to the next shard.
pub open spec fn placement(topic: Seq<u8>, partition: i32, shard_count: nat) -> nat {
    ((fnv1a_hash(topic) as int + partition as int) % (shard_count as int)) as nat
}

fn fnv1a(bytes: &[u8]) -> (r: u64)
    ensures
        r == fnv1a_hash(bytes@),
{
    let mut hash: u64 = 0xcbf2_9ce4_8422_2325;
    let mut i: usize = 0;
    while i < bytes.len()
        invariant
            i <= bytes.len(),
            hash == fnv1a_hash(bytes@.take(i as int)),
        decreases bytes.len() - i,
    {
        proof {
            assert(bytes@.take(i + 1).drop_last() =~= bytes@.take(i as int));
        }
        hash = (hash ^ (bytes[i] as u64)).wrapping_mul(0x0000_0100_0000_01b3);
        i += 1;
    }
    proof {
        assert(bytes@.take(i as int) =~= bytes@);
    }
    hash
}

/// The remainder of a sum that may be negative.
fn wrap_around(hash: u64, partition: i32, count: usize) -> (r: usize)
    requires
        count > 0,
    ensures
        r == (hash as int + partition as int) % (count as int),
        r < count,
{
    let modulus: u128 = count as u128;
    let turns: u128 = modulus * 0x8000_0000u128;
    proof {
        assert(turns >= 0x8000_0000);
        vstd::arithmetic::div_mod::lemma_mod_multiples_vanish(
            0x8000_0000,
            hash as int + partition as int,
            count as int,
        );
        vstd::arithmetic::div_mod::lemma_mod_bound(hash as int + partition as int, count as int);
    }
    let sum: u128 = if partition >= 0 {
        hash as u128 + turns + partition as u128
    } else {
        hash as u128 + turns - (-(partition as i64)) as u128
    };
    (sum % modulus) as usize
}

// ---------------------------------------------------------------------------
// What is made of a reply
// ---------------------------------------------------------------------------

/// What a coordination call brings back.
pub type CoordinationCallModel = Result<CoordinationResultModel, BrokerError>;

/// What a produce makes of a call.
pub open spec fn produce_answer(call: CallModel) -> Result<i64, BrokerError> {
    match call {
        Ok(PartitionResultModel::Produced { base_offset }) => Ok(base_offset),
        Ok(PartitionResultModel::Failed(error)) => Err(BrokerError::Core(error)),
        Ok(_) => Err(BrokerError::UnexpectedReply),
        Err(error) => Err(error),
    }
}

/// What a fetch makes of a call.
pub open spec fn fetch_answer(call: CallModel) -> Result<WindowModel, BrokerError> {
    match call {
        Ok(PartitionResultModel::Fetched(window)) => Ok(window),
        Ok(PartitionResultModel::Failed(error)) => Err(BrokerError::Core(error)),
        Ok(_) => Err(BrokerError::UnexpectedReply),
        Err(error) => Err(error),
    }
}

/// What a list-offset makes of a call.
pub open spec fn offset_answer(call: CallModel) -> Result<i64, BrokerError> {
    match call {
        Ok(PartitionResultModel::Offset(offset)) => Ok(offset),
        Ok(PartitionResultModel::Failed(error)) => Err(BrokerError::Core(error)),
        Ok(_) => Err(BrokerError::UnexpectedReply),
        Err(error) => Err(error),
    }
}

/// What resolving a transaction on one shard makes of a call.
pub open spec fn resolve_answer(call: CallModel) -> Result<(), BrokerError> {
    match call {
        Ok(PartitionResultModel::Resolved) => Ok(()),
        Ok(_) => Err(BrokerError::UnexpectedReply),
        Err(error) => Err(error),
    }
}

/// What a coordination request makes of a call.
pub open spec fn coordination_answer(call: CallModel) -> CoordinationCallModel {
    match call {
        Ok(PartitionResultModel::Coordination(Ok(result))) => Ok(result),
        Ok(PartitionResultModel::Coordination(Err(error))) => Err(BrokerError::Coordination(error)),
        Ok(_) => Err(BrokerError::UnexpectedReply),
        Err(error) => Err(error),
    }
}

/// What a request that is answered with nothing makes of a coordination call.
pub open spec fn applied_answer(call: CoordinationCallModel) -> Result<(), BrokerError> {
    match call {
        Ok(CoordinationResultModel::Applied) => Ok(()),
        Ok(_) => Err(BrokerError::UnexpectedReply),
        Err(error) => Err(error),
    }
}

/// What an initialisation makes of a coordination call.
pub open spec fn producer_answer(call: CoordinationCallModel) -> Result<ProducerIdentity, BrokerError> {
    match call {
        Ok(CoordinationResultModel::Producer(identity)) => Ok(identity),
        Ok(_) => Err(BrokerError::UnexpectedReply),
        Err(error) => Err(error),
    }
}

/// What a join makes of a coordination call.
pub open spec fn group_answer(call: CoordinationCallModel) -> Result<
    (i32, Seq<AssignmentModel>),
    BrokerError,
> {
    match call {
        Ok(CoordinationResultModel::Group { generation, assignments }) => Ok((generation, assignments)),
        Ok(_) => Err(BrokerError::UnexpectedReply),
        Err(error) => Err(error),
    }
}

/// What an offset read makes of a coordination call.
pub open spec fn group_offset_answer(call: CoordinationCallModel) -> Result<Option<i64>, BrokerError> {
    match call {
        Ok(CoordinationResultModel::Offset(offset)) => Ok(offset),
        Ok(_) => Err(BrokerError::UnexpectedReply),
        Err(error) => Err(error),
    }
}

/// What an end of a transaction makes of the coordination call.
pub open spec fn completion_answer(call: CoordinationCallModel) -> Result<CompletionModel, BrokerError> {
    match call {
        Ok(CoordinationResultModel::TransactionCompleted(completion)) => Ok(completion),
        Ok(_) => Err(BrokerError::UnexpectedReply),
        Err(error) => Err(error),
    }
}

/// What a coordination call stands for.
pub open spec fn coordination_call_view(r: Result<CoordinationResult, BrokerError>) -> CoordinationCallModel {
    match r {
        Ok(reply) => Ok(reply.deep_view()),
        Err(error) => Err(error),
    }
}

/// What the answer to a fetch stands for.
pub open spec fn fetch_view(r: Result<FetchWindow, BrokerError>) -> Result<WindowModel, BrokerError> {
    match r {
        Ok(window) => Ok(window.deep_view()),
        Err(error) => Err(error),
    }
}

/// What the answer to a join stands for.
pub open spec fn group_view(r: Result<(i32, Vec<GroupAssignment>), BrokerError>) -> Result<
    (i32, Seq<AssignmentModel>),
    BrokerError,
> {
    match r {
        Ok((generation, assignments)) => Ok((generation, assignments.deep_view())),
        Err(error) => Err(error),
    }
}

/// What a completed transaction stands for.
pub open spec fn completion_call_view(r: Result<coordination::TransactionCompletion, BrokerError>) -> Result<
    CompletionModel,
    BrokerError,
> {
    match r {
        Ok(completion) => Ok(completion.deep_view()),
        Err(error) => Err(error),
    }
}

/// What a produce makes of a call.
pub fn answer_produce(call: Result<PartitionResult, BrokerError>) -> (r: Result<i64, BrokerError>)
    ensures
        r == produce_answer(links::call_view(call)),
{
    match call {
        Ok(PartitionResult::Produced { base_offset }) => Ok(base_offset),
        Ok(PartitionResult::Failed(error)) => Err(BrokerError::Core(error)),
        Ok(_) => Err(BrokerError::UnexpectedReply),
        Err(error) => Err(error),
    }
}

/// What a fetch makes of a call.
pub fn answer_fetch(call: Result<PartitionResult, BrokerError>) -> (r: Result<
    FetchWindow,
    BrokerError,
>)
    ensures
        fetch_view(r) == fetch_answer(links::call_view(call)),
{
    match call {
        Ok(PartitionResult::Fetched(window)) => Ok(window),
        Ok(PartitionResult::Failed(error)) => Err(BrokerError::Core(error)),
        Ok(_) => Err(BrokerError::UnexpectedReply),
        Err(error) => Err(error),
    }
}

/// What a list-offset makes of a call.
pub fn answer_offset(call: Result<PartitionResult, BrokerError>) -> (r: Result<i64, BrokerError>)
    ensures
        r == offset_answer(links::call_view(call)),
{
    match call {
        Ok(PartitionResult::Offset(offset)) => Ok(offset),
        Ok(PartitionResult::Failed(error)) => Err(BrokerError::Core(error)),
        Ok(_) => Err(BrokerError::UnexpectedReply),
        Err(error) => Err(error),
    }
}

/// What resolving a transaction on one shard makes of a call.
pub fn answer_resolve(call: Result<PartitionResult, BrokerError>) -> (r: Result<(), BrokerError>)
    ensures
        r == resolve_answer(links::call_view(call)),
{
    match call {
        Ok(PartitionResult::Resolved) => Ok(()),
        Ok(_) => Err(BrokerError::UnexpectedReply),
        Err(error) => Err(error),
    }
}

/// What a coordination request makes of a call.
pub fn answer_coordination(call: Result<PartitionResult, BrokerError>) -> (r: Result<
    CoordinationResult,
    BrokerError,
>)
    ensures
        coordination_call_view(r) == coordination_answer(links::call_view(call)),
{
    match call {
        Ok(PartitionResult::Coordination(Ok(result))) => Ok(result),
        Ok(PartitionResult::Coordination(Err(error))) => Err(BrokerError::Coordination(error)),
        Ok(_) => Err(BrokerError::UnexpectedReply),
        Err(error) => Err(error),
    }
}

/// What a request that is answered with nothing makes of a coordination call.
pub fn answer_applied(call: Result<CoordinationResult, BrokerError>) -> (r: Result<(), BrokerError>)
    ensures
        r == applied_answer(coordination_call_view(call)),
{
    match call {
        Ok(CoordinationResult::Applied) => Ok(()),
        Ok(_) => Err(BrokerError::UnexpectedReply),
        Err(error) => Err(error),
    }
}

/// What an initialisation makes of a coordination call.
pub fn answer_producer(call: Result<CoordinationResult, BrokerError>) -> (r: Result<
    ProducerIdentity,
    BrokerError,
>)
    ensures
        r == producer_answer(coordination_call_view(call)),
{
    match call {
        Ok(CoordinationResult::Producer(identity)) => Ok(identity),
        Ok(_) => Err(BrokerError::UnexpectedReply),
        Err(error) => Err(error),
    }
}

/// What a join makes of a coordination call.
pub fn answer_group(call: Result<CoordinationResult, BrokerError>) -> (r: Result<
    (i32, Vec<GroupAssignment>),
    BrokerError,
>)
    ensures
        group_view(r) == group_answer(coordination_call_view(call)),
{
    match call {
        Ok(CoordinationResult::Group { generation, assignments }) => Ok((generation, assignments)),
        Ok(_) => Err(BrokerError::UnexpectedReply),
        Err(error) => Err(error),
    }
}

/// What an offset read makes of a coordination call.
pub fn answer_group_offset(call: Result<CoordinationResult, BrokerError>) -> (r: Result<
    Option<i64>,
    BrokerError,
>)
    ensures
        r == group_offset_answer(coordination_call_view(call)),
{
    match call {
        Ok(CoordinationResult::Offset(offset)) => Ok(offset),
        Ok(_) => Err(BrokerError::UnexpectedReply),
        Err(error) => Err(error),
    }
}

/// What an end of a transaction makes of the coordination call.
pub fn answer_completion(call: Result<CoordinationResult, BrokerError>) -> (r: Result<
    coordination::TransactionCompletion,
    BrokerError,
>)
    ensures
        completion_call_view(r) == completion_answer(coordination_call_view(call)),
{
    match call {
        Ok(CoordinationResult::TransactionCompleted(completion)) => Ok(completion),
        Ok(_) => Err(BrokerError::UnexpectedReply),
        Err(error) => Err(error),
    }
}

// ---------------------------------------------------------------------------
// The broker
// ---------------------------------------------------------------------------

/// A shard-per-partition Kafka log broker.
pub struct Broker<S: Shards> {
    shards: S,
    catalog: Arc<TopicCatalog>,
}

/// A shard that is ready to run, and the mailbox it reads from.
pub struct ReadyShard {
    /// The shard.
    pub shard: PartitionShard,
    /// Where its commands arrive.
    pub mailbox: ShardReceiver<PartitionCommand>,
}

impl<S: Shards> Broker<S> {
    /// The topics of the broker.
    pub closed spec fn catalog(&self) -> CatalogModel {
        self.catalog@
    }

    /// The shards of the broker.
    pub closed spec fn shards(&self) -> S {
        self.shards
    }

    /// How many shards the broker has.
    pub open spec fn shard_count(&self) -> nat {
        self.shards().count()
    }

    /// The broker has a shard, and its catalog is well-formed.
    pub closed spec fn wf(&self) -> bool {
        &&& self.shards.wf()
        &&& 0 < self.shards.count()
        &&& self.catalog.wf()
    }

    /// A well-formed broker has well-formed shards, at least one, and a
    /// well-formed catalog.
    pub proof fn lemma_model_wf(&self)
        requires
            self.wf(),
        ensures
            self.shards().wf(),
            0 < self.shard_count(),
            self.catalog().wf(),
    {
        self.catalog.lemma_model_wf();
    }
}

impl<P: Parker> Broker<ShardLinks<P>> {
    /// Makes the mailboxes and shards of a broker. The caller runs each shard
    /// on a thread of its own.
    ///
    /// # Errors
    ///
    /// Returns [`BrokerError::InvalidConfig`] for a zero shard count, an empty
    /// topic list, a mailbox capacity below two, or a rejected topic
    /// definition.
    pub fn start(config: BrokerConfig, parker: P) -> (r: Result<(Self, Vec<ReadyShard>), BrokerError>)
        requires
            config.valid() ==> config.mailbox_capacity < MAX_CHANNEL_CAPACITY,
        ensures
            match r {
                Ok((broker, shards)) => {
                    &&& config.valid()
                    &&& broker.wf()
                    &&& broker.shard_count() == config.shard_count
                    &&& catalog_of(config.topics.deep_view()) == Ok::<CatalogModel, LogError>(
                        broker.catalog(),
                    )
                    &&& shards@.len() == config.shard_count
                    &&& forall|i: int|
                        0 <= i < shards@.len() ==> (#[trigger] shards@[i]).shard.wf()
                            && shards@[i].shard@ == ShardModel::empty(
                            broker.catalog(),
                            config.partition_max_bytes,
                        )
                    &&& forall|i: int|
                        0 <= i < shards@.len() ==> links::command_channel(
                            config.mailbox_capacity,
                            broker.shards().mailbox(i as nat).sender(),
                            (#[trigger] shards@[i]).mailbox,
                        )
                    &&& broker.shards().tries() == links::tries_allowed(config.max_retries)
                    &&& broker.shards().waited() == links::parked(&parker, config.park_timeout)
                },
                Err(error) => !config.valid() && error == BrokerError::InvalidConfig,
            },
    {
        if config.shard_count == 0 || config.topics.len() == 0 || config.mailbox_capacity < 2 {
            return Err(BrokerError::InvalidConfig);
        }
        let catalog = match build_catalog(&config.topics) {
            Ok(catalog) => Arc::new(catalog),
            Err(_) => {
                return Err(BrokerError::InvalidConfig);
            },
        };
        let mut mailboxes: Vec<Mailbox> = Vec::new();
        let mut ready: Vec<ReadyShard> = Vec::new();
        let mut index: usize = 0;
        while index < config.shard_count
            invariant
                index <= config.shard_count,
                2 <= config.mailbox_capacity < MAX_CHANNEL_CAPACITY,
                catalog.wf(),
                mailboxes@.len() == index,
                ready@.len() == index,
                forall|i: int|
                    0 <= i < ready@.len() ==> (#[trigger] ready@[i]).shard.wf() && ready@[i].shard@
                        == ShardModel::empty(catalog@, config.partition_max_bytes),
                forall|i: int|
                    0 <= i < ready@.len() ==> links::command_channel(
                        config.mailbox_capacity,
                        mailboxes@[i].sender(),
                        (#[trigger] ready@[i]).mailbox,
                    ),
            decreases config.shard_count - index,
        {
            let (sender, mailbox) = match channel::<PartitionCommand>(
                queue_capacity(config.mailbox_capacity),
            ) {
                Ok(ends) => ends,
                Err(_) => {
                    return Err(BrokerError::InvalidConfig);
                },
            };
            mailboxes.push(Mailbox::new(sender));
            let shard = PartitionShard::new(Arc::clone(&catalog), config.partition_max_bytes);
            ready.push(ReadyShard { shard, mailbox });
            index += 1;
        }
        let shards = ShardLinks::new(mailboxes, parker, config.park_timeout, config.max_retries);
        Ok((Broker { shards, catalog }, ready))
    }

    /// Stops every shard and waits for its acknowledgement.
    ///
    /// Shutdown is idempotent; a second call is a no-op.
    pub fn shutdown(&self) -> (r: Result<(), BrokerError>)
        requires
            self.wf(),
        ensures
            self.shards().can_stop(r),
    {
        self.shards.stop()
    }
}

impl<S: Shards> Broker<S> {
    /// Shard that owns `(topic, partition)`.
    ///
    /// The partition is expected to have been validated by the caller.
    pub fn shard_index(&self, topic: &[u8], partition: i32) -> (r: usize)
        requires
            self.wf(),
        ensures
            r == placement(topic@, partition, self.shard_count()),
            r < self.shard_count(),
    {
        wrap_around(fnv1a(topic), partition, self.shards.shard_count())
    }

    /// Sends one request to the shard that owns a partition.
    fn call(&self, topic: &[u8], partition: i32, request: PartitionRequest) -> (r: Result<
        PartitionResult,
        BrokerError,
    >)
        requires
            self.wf(),
        ensures
            self.can_call(topic@, partition, request.deep_view(), links::call_view(r)),
    {
        let shard: usize = self.shard_index(topic, partition);
        self.shards.exchange(shard, request)
    }

    /// Sends one coordination request to the shard that coordinates.
    fn coordinate(&self, request: CoordinationRequest) -> (r: Result<
        CoordinationResult,
        BrokerError,
    >)
        requires
            self.wf(),
        ensures
            self.can_coordinate(request.deep_view(), coordination_call_view(r)),
    {
        let call = self.shards.exchange(0, PartitionRequest::Coordinate { request });
        proof {
            assert(self.shards().can_answer(
                0,
                PartitionRequestModel::Coordinate { request: request.deep_view() },
                links::call_view(call),
            ));
        }
        answer_coordination(call)
    }
}

// ---------------------------------------------------------------------------
// What is asked, and how it can end
// ---------------------------------------------------------------------------

/// The first failure of steps that are taken in order.
pub open spec fn first_failure(steps: Seq<Result<(), BrokerError>>) -> Result<(), BrokerError>
    decreases steps.len(),
{
    if steps.len() == 0 {
        Ok(())
    } else {
        match first_failure(steps.drop_last()) {
            Err(error) => Err(error),
            Ok(_) => steps.last(),
        }
    }
}

/// Whether steps were taken in order up to the end of `count` of them, or up
/// to the first failure.
pub open spec fn taken(steps: Seq<Result<(), BrokerError>>, count: nat) -> bool {
    &&& steps.len() <= count
    &&& first_failure(steps) is Ok ==> steps.len() == count
    &&& steps.len() > 0 ==> first_failure(steps.drop_last()) is Ok
}

impl<S: Shards> Broker<S> {
    /// Whether asking the shard that owns a partition can end this way.
    pub open spec fn can_call(
        &self,
        topic: Seq<u8>,
        partition: i32,
        request: PartitionRequestModel,
        call: CallModel,
    ) -> bool {
        self.shards().can_answer(placement(topic, partition, self.shard_count()), request, call)
    }

    /// Whether asking the coordinator, which is shard zero, can end this way.
    pub open spec fn can_coordinate(
        &self,
        request: CoordinationRequestModel,
        call: CoordinationCallModel,
    ) -> bool {
        exists|raw: CallModel| #[trigger]
            self.shards().can_answer(0, PartitionRequestModel::Coordinate { request }, raw) && call
                == coordination_answer(raw)
    }

    /// Whether a produce can be answered this way: the catalog's refusal, or
    /// what is made of the owner's answer.
    pub open spec fn can_produce(
        &self,
        topic: Seq<u8>,
        partition: i32,
        records: Seq<DataModel>,
        r: Result<i64, BrokerError>,
    ) -> bool {
        match self.catalog().checked(topic, partition) {
            Err(error) => r == Err::<i64, BrokerError>(BrokerError::Core(error)),
            Ok(_) => exists|call: CallModel| #[trigger]
                self.can_call(
                    topic,
                    partition,
                    PartitionRequestModel::Produce { topic, partition, records },
                    call,
                ) && r == produce_answer(call),
        }
    }

    /// Whether a transactional produce can be answered this way: the
    /// coordinator's refusal, the catalog's, or what is made of the owner's
    /// answer.
    pub open spec fn can_produce_transactional(
        &self,
        transactional_id: Seq<u8>,
        producer: ProducerIdentity,
        topic: Seq<u8>,
        partition: i32,
        records: Seq<DataModel>,
        r: Result<i64, BrokerError>,
    ) -> bool {
        exists|check: Result<(), BrokerError>| #[trigger]
            self.can_apply(
                CoordinationRequestModel::ValidateProduce {
                    transactional_id,
                    producer,
                    topic,
                    partition,
                },
                check,
            ) && match check {
                Err(error) => r == Err::<i64, BrokerError>(error),
                Ok(_) => self.can_append(producer.id, topic, partition, records, r),
            }
    }

    /// Whether a validated transactional produce can be answered this way.
    pub open spec fn can_append(
        &self,
        producer_id: i64,
        topic: Seq<u8>,
        partition: i32,
        records: Seq<DataModel>,
        r: Result<i64, BrokerError>,
    ) -> bool {
        match self.catalog().checked(topic, partition) {
            Err(error) => r == Err::<i64, BrokerError>(BrokerError::Core(error)),
            Ok(_) => exists|call: CallModel| #[trigger]
                self.can_call(
                    topic,
                    partition,
                    PartitionRequestModel::ProduceTransactional {
                        topic,
                        partition,
                        records,
                        producer_id,
                    },
                    call,
                ) && r == produce_answer(call),
        }
    }

    /// Whether a fetch can be answered this way.
    pub open spec fn can_fetch(
        &self,
        topic: Seq<u8>,
        partition: i32,
        offset: i64,
        max_records: usize,
        max_bytes: usize,
        read_committed: bool,
        r: Result<WindowModel, BrokerError>,
    ) -> bool {
        match self.catalog().checked(topic, partition) {
            Err(error) => r == Err::<WindowModel, BrokerError>(BrokerError::Core(error)),
            Ok(_) => exists|call: CallModel| #[trigger]
                self.can_call(
                    topic,
                    partition,
                    PartitionRequestModel::Fetch {
                        topic,
                        partition,
                        offset,
                        max_records,
                        max_bytes,
                        read_committed,
                    },
                    call,
                ) && r == fetch_answer(call),
        }
    }

    /// Whether a list-offset can be answered this way.
    pub open spec fn can_list(
        &self,
        topic: Seq<u8>,
        partition: i32,
        earliest: bool,
        r: Result<i64, BrokerError>,
    ) -> bool {
        match self.catalog().checked(topic, partition) {
            Err(error) => r == Err::<i64, BrokerError>(BrokerError::Core(error)),
            Ok(_) => exists|call: CallModel| #[trigger]
                self.can_call(
                    topic,
                    partition,
                    PartitionRequestModel::ListOffset { topic, partition, earliest },
                    call,
                ) && r == offset_answer(call),
        }
    }

    /// Whether a request that is answered with nothing can end this way.
    pub open spec fn can_apply(
        &self,
        request: CoordinationRequestModel,
        r: Result<(), BrokerError>,
    ) -> bool {
        exists|call: CoordinationCallModel| #[trigger]
            self.can_coordinate(request, call) && r == applied_answer(call)
    }

    /// Whether an initialisation can be answered this way.
    pub open spec fn can_init(
        &self,
        transactional_id: Seq<u8>,
        r: Result<ProducerIdentity, BrokerError>,
    ) -> bool {
        exists|call: CoordinationCallModel| #[trigger]
            self.can_coordinate(CoordinationRequestModel::InitProducer { transactional_id }, call)
                && r == producer_answer(call)
    }

    /// What a join asks: the member's subscriptions over every partition of
    /// every topic.
    pub open spec fn join_request(
        &self,
        group_id: Seq<u8>,
        member_id: Seq<u8>,
        subscriptions: Seq<Seq<u8>>,
    ) -> CoordinationRequestModel {
        CoordinationRequestModel::JoinGroup {
            group_id,
            member_id,
            subscriptions,
            partitions: every_partition(self.catalog().listed()),
        }
    }

    /// Whether a join can be answered this way.
    pub open spec fn can_join(
        &self,
        group_id: Seq<u8>,
        member_id: Seq<u8>,
        subscriptions: Seq<Seq<u8>>,
        r: Result<(i32, Seq<AssignmentModel>), BrokerError>,
    ) -> bool {
        exists|call: CoordinationCallModel| #[trigger]
            self.can_coordinate(self.join_request(group_id, member_id, subscriptions), call) && r
                == group_answer(call)
    }

    /// Whether an offset read can be answered this way.
    pub open spec fn can_read_offset(
        &self,
        group_id: Seq<u8>,
        topic: Seq<u8>,
        partition: i32,
        r: Result<Option<i64>, BrokerError>,
    ) -> bool {
        exists|call: CoordinationCallModel| #[trigger]
            self.can_coordinate(
                CoordinationRequestModel::FetchOffset { group_id, topic, partition },
                call,
            ) && r == group_offset_answer(call)
    }

    /// Whether the resolution of a producer's batches on the shard that owns a
    /// partition can end this way.
    pub open spec fn can_resolve(
        &self,
        place: (Seq<u8>, i32),
        producer_id: i64,
        commit: bool,
        r: Result<(), BrokerError>,
    ) -> bool {
        exists|call: CallModel| #[trigger]
            self.can_call(
                place.0,
                place.1,
                PartitionRequestModel::ResolveTransaction { producer_id, commit },
                call,
            ) && r == resolve_answer(call)
    }

    /// Whether the commit of an enlisted offset can end this way.
    pub open spec fn can_commit(
        &self,
        offset: TransactionOffsetModel,
        r: Result<(), BrokerError>,
    ) -> bool {
        self.can_apply(
            CoordinationRequestModel::CommitOffset {
                group_id: offset.group_id,
                generation: offset.generation,
                topic: offset.topic,
                partition: offset.partition,
                offset: offset.offset,
            },
            r,
        )
    }

    /// Whether ending a transaction can be answered this way. Once the
    /// coordinator has completed it, the batches of every enlisted partition
    /// are resolved and, on commit, every enlisted offset is committed; the
    /// first failure ends the work and is the answer.
    pub open spec fn can_end(
        &self,
        transactional_id: Seq<u8>,
        producer: ProducerIdentity,
        commit: bool,
        r: Result<(), BrokerError>,
    ) -> bool {
        exists|call: CoordinationCallModel| #[trigger]
            self.can_coordinate(
                CoordinationRequestModel::EndTransaction { transactional_id, producer, commit },
                call,
            ) && match completion_answer(call) {
                Err(error) => r == Err::<(), BrokerError>(error),
                Ok(completion) => self.can_complete(completion, producer.id, commit, r),
            }
    }

    /// Whether the work that a completed transaction leaves can end this way.
    pub open spec fn can_complete(
        &self,
        completion: CompletionModel,
        producer_id: i64,
        commit: bool,
        r: Result<(), BrokerError>,
    ) -> bool {
        exists|resolves: Seq<Result<(), BrokerError>>, commits: Seq<Result<(), BrokerError>>|
         #[trigger]
            self.completed_by(completion, producer_id, commit, resolves, commits, r)
    }

    /// Whether these steps do the work that a completed transaction leaves.
    pub open spec fn completed_by(
        &self,
        completion: CompletionModel,
        producer_id: i64,
        commit: bool,
        resolves: Seq<Result<(), BrokerError>>,
        commits: Seq<Result<(), BrokerError>>,
        r: Result<(), BrokerError>,
    ) -> bool {
        &&& taken(resolves, completion.partitions.len())
        &&& forall|i: int|
            0 <= i < resolves.len() ==> self.can_resolve(
                completion.partitions[i],
                producer_id,
                commit,
                #[trigger] resolves[i],
            )
        &&& match first_failure(resolves) {
            Err(error) => r == Err::<(), BrokerError>(error),
            Ok(_) => {
                &&& taken(
                    commits,
                    if commit {
                        completion.offsets.len()
                    } else {
                        0
                    },
                )
                &&& forall|i: int|
                    0 <= i < commits.len() ==> self.can_commit(
                        completion.offsets[i],
                        #[trigger] commits[i],
                    )
                &&& r == first_failure(commits)
            },
        }
    }
}

/// Every partition of the listed topics, in order.
pub open spec fn every_partition(topics: Seq<TopicMetadataModel>) -> Seq<(Seq<u8>, i32)>
    decreases topics.len(),
{
    if topics.len() == 0 {
        seq![]
    } else {
        every_partition(topics.drop_last()) + partitions_of(
            topics.last().name,
            topics.last().partitions,
        )
    }
}

/// The partitions of one topic, in order.
pub open spec fn partitions_of(name: Seq<u8>, count: i32) -> Seq<(Seq<u8>, i32)> {
    Seq::new(
        if count > 0 {
            count as nat
        } else {
            0
        },
        |i: int| (name, i as i32),
    )
}

/// Lists every partition of the given topics, in order.
pub fn list_partitions(topics: &Vec<TopicMetadata>) -> (r: Vec<(Vec<u8>, i32)>)
    ensures
        r.deep_view() == every_partition(topics.deep_view()),
{
    let ghost models = topics.deep_view();
    let mut places: Vec<(Vec<u8>, i32)> = Vec::new();
    let mut i: usize = 0;
    proof {
        assert(models.take(0) =~= seq![]);
        assert(places.deep_view() =~= seq![]);
    }
    while i < topics.len()
        invariant
            models == topics.deep_view(),
            i <= topics.len(),
            places.deep_view() == every_partition(models.take(i as int)),
        decreases topics.len() - i,
    {
        let topic = &topics[i];
        let ghost name = topic.name@;
        let ghost start = places.deep_view();
        let ghost all = partitions_of(name, topic.partitions);
        let mut partition: i32 = 0;
        proof {
            assert(models.take(i + 1).drop_last() =~= models.take(i as int));
            assert(models.take(i + 1).last() == topic.deep_view());
            assert(start + all.take(0) =~= start);
        }
        while partition < topic.partitions
            invariant
                name == topic.name@,
                all == partitions_of(name, topic.partitions),
                0 <= partition,
                partition <= all.len(),
                places.deep_view() == start + all.take(partition as int),
            decreases topic.partitions - partition,
        {
            let place = (copy_bytes(topic.name.as_slice()), partition);
            let ghost before = places.deep_view();
            let ghost model = place.deep_view();
            places.push(place);
            proof {
                assert(model == all[partition as int]);
                assert(places.deep_view() =~= before.push(model));
                assert(start + all.take(partition + 1) =~= before.push(model));
            }
            partition += 1;
        }
        proof {
            assert(all.take(partition as int) =~= all);
        }
        i += 1;
    }
    proof {
        assert(models.take(i as int) =~= models);
    }
    places
}

/// A request and the shard it goes to.
#[derive(Debug, Eq, PartialEq)]
pub struct Routed {
    /// The owning shard.
    pub shard: usize,
    /// What it is asked.
    pub request: PartitionRequest,
}

/// What a routed request says, or why there is none.
pub open spec fn routed_view(r: Result<Routed, BrokerError>) -> Result<
    (nat, PartitionRequestModel),
    BrokerError,
> {
    match r {
        Ok(routed) => Ok((routed.shard as nat, routed.request.deep_view())),
        Err(error) => Err(error),
    }
}

/// Where a request for a partition goes: nowhere if the catalog does not know
/// the partition, else to the shard that owns it.
pub open spec fn routed(
    catalog: CatalogModel,
    shard_count: nat,
    topic: Seq<u8>,
    partition: i32,
    request: PartitionRequestModel,
) -> Result<(nat, PartitionRequestModel), BrokerError> {
    match catalog.checked(topic, partition) {
        Err(error) => Err(BrokerError::Core(error)),
        Ok(_) => Ok((placement(topic, partition, shard_count), request)),
    }
}

impl<S: Shards> Broker<S> {
    /// Routes a request to the shard that owns a partition.
    fn route(&self, topic: &[u8], partition: i32, request: PartitionRequest) -> (r: Result<
        Routed,
        BrokerError,
    >)
        requires
            self.wf(),
        ensures
            routed_view(r) == routed(
                self.catalog(),
                self.shard_count(),
                topic@,
                partition,
                request.deep_view(),
            ),
            r matches Ok(routed) ==> routed.shard < self.shard_count(),
    {
        match self.catalog.check_partition(topic, partition) {
            Ok(()) => Ok(Routed { shard: self.shard_index(topic, partition), request }),
            Err(error) => Err(BrokerError::Core(error)),
        }
    }

    /// What a produce asks, and of which shard.
    pub fn plan_produce(&self, topic: &[u8], partition: i32, records: Vec<RecordData>) -> (r: Result<
        Routed,
        BrokerError,
    >)
        requires
            self.wf(),
        ensures
            routed_view(r) == routed(
                self.catalog(),
                self.shard_count(),
                topic@,
                partition,
                PartitionRequestModel::Produce {
                    topic: topic@,
                    partition,
                    records: records.deep_view(),
                },
            ),
            r matches Ok(routed) ==> routed.shard < self.shard_count(),
    {
        let request = PartitionRequest::Produce { topic: copy_bytes(topic), partition, records };
        self.route(topic, partition, request)
    }

    /// What a transactional produce asks once it is validated, and of which
    /// shard.
    pub fn plan_transactional_produce(
        &self,
        producer: ProducerIdentity,
        topic: &[u8],
        partition: i32,
        records: Vec<RecordData>,
    ) -> (r: Result<Routed, BrokerError>)
        requires
            self.wf(),
        ensures
            routed_view(r) == routed(
                self.catalog(),
                self.shard_count(),
                topic@,
                partition,
                PartitionRequestModel::ProduceTransactional {
                    topic: topic@,
                    partition,
                    records: records.deep_view(),
                    producer_id: producer.id,
                },
            ),
            r matches Ok(routed) ==> routed.shard < self.shard_count(),
    {
        let request = PartitionRequest::ProduceTransactional {
            topic: copy_bytes(topic),
            partition,
            records,
            producer_id: producer.id,
        };
        self.route(topic, partition, request)
    }

    /// What a fetch asks, and of which shard.
    pub fn plan_fetch(
        &self,
        topic: &[u8],
        partition: i32,
        offset: i64,
        max_records: usize,
        max_bytes: usize,
        read_committed: bool,
    ) -> (r: Result<Routed, BrokerError>)
        requires
            self.wf(),
        ensures
            routed_view(r) == routed(
                self.catalog(),
                self.shard_count(),
                topic@,
                partition,
                PartitionRequestModel::Fetch {
                    topic: topic@,
                    partition,
                    offset,
                    max_records,
                    max_bytes,
                    read_committed,
                },
            ),
            r matches Ok(routed) ==> routed.shard < self.shard_count(),
    {
        let request = PartitionRequest::Fetch {
            topic: copy_bytes(topic),
            partition,
            offset,
            max_records,
            max_bytes,
            read_committed,
        };
        self.route(topic, partition, request)
    }

    /// What a list-offset asks, and of which shard.
    pub fn plan_list_offset(&self, topic: &[u8], partition: i32, earliest: bool) -> (r: Result<
        Routed,
        BrokerError,
    >)
        requires
            self.wf(),
        ensures
            routed_view(r) == routed(
                self.catalog(),
                self.shard_count(),
                topic@,
                partition,
                PartitionRequestModel::ListOffset { topic: topic@, partition, earliest },
            ),
            r matches Ok(routed) ==> routed.shard < self.shard_count(),
    {
        let request = PartitionRequest::ListOffset { topic: copy_bytes(topic), partition, earliest };
        self.route(topic, partition, request)
    }

    /// What a join asks of the coordinator: the member's subscriptions over
    /// every partition of every topic.
    pub fn plan_join(&self, group_id: &[u8], member_id: &[u8], subscriptions: Vec<Vec<u8>>) -> (r:
        CoordinationRequest)
        requires
            self.wf(),
        ensures
            r.deep_view() == self.join_request(
                group_id@,
                member_id@,
                subscriptions.deep_view(),
            ),
    {
        let topics = self.catalog.metadata();
        CoordinationRequest::JoinGroup {
            group_id: copy_bytes(group_id),
            member_id: copy_bytes(member_id),
            subscriptions,
            partitions: list_partitions(&topics),
        }
    }

    /// Appends records atomically and returns the batch's base offset.
    pub fn produce(&self, topic: &[u8], partition: i32, records: Vec<RecordData>) -> (r: Result<
        i64,
        BrokerError,
    >)
        requires
            self.wf(),
        ensures
            self.can_produce(topic@, partition, records.deep_view(), r),
    {
        let routed = self.plan_produce(topic, partition, records)?;
        let ghost asked = routed.request.deep_view();
        let call = self.shards.exchange(routed.shard, routed.request);
        proof {
            assert(self.can_call(topic@, partition, asked, links::call_view(call)));
        }
        answer_produce(call)
    }

    /// Reads records beginning at `offset`.
    pub fn fetch(&self, topic: &[u8], partition: i32, offset: i64, max_records: usize, max_bytes: usize) -> (r:
        Result<FetchWindow, BrokerError>)
        requires
            self.wf(),
        ensures
            self.can_fetch(
                topic@,
                partition,
                offset,
                max_records,
                max_bytes,
                false,
                fetch_view(r),
            ),
    {
        self.fetch_with_isolation(topic, partition, offset, max_records, max_bytes, false)
    }

    /// Reads a partition with explicit Kafka isolation semantics.
    pub fn fetch_with_isolation(
        &self,
        topic: &[u8],
        partition: i32,
        offset: i64,
        max_records: usize,
        max_bytes: usize,
        read_committed: bool,
    ) -> (r: Result<FetchWindow, BrokerError>)
        requires
            self.wf(),
        ensures
            self.can_fetch(
                topic@,
                partition,
                offset,
                max_records,
                max_bytes,
                read_committed,
                fetch_view(r),
            ),
    {
        let routed = self.plan_fetch(
            topic,
            partition,
            offset,
            max_records,
            max_bytes,
            read_committed,
        )?;
        let ghost asked = routed.request.deep_view();
        let call = self.shards.exchange(routed.shard, routed.request);
        proof {
            assert(self.can_call(topic@, partition, asked, links::call_view(call)));
        }
        answer_fetch(call)
    }

    /// Reads the earliest or latest offset of a partition.
    pub fn list_offset(&self, topic: &[u8], partition: i32, earliest: bool) -> (r: Result<
        i64,
        BrokerError,
    >)
        requires
            self.wf(),
        ensures
            self.can_list(topic@, partition, earliest, r),
    {
        let routed = self.plan_list_offset(topic, partition, earliest)?;
        let ghost asked = routed.request.deep_view();
        let call = self.shards.exchange(routed.shard, routed.request);
        proof {
            assert(self.can_call(topic@, partition, asked, links::call_view(call)));
        }
        answer_offset(call)
    }

    /// Metadata for every configured topic.
    pub fn metadata(&self) -> (r: Vec<TopicMetadata>)
        requires
            self.wf(),
        ensures
            r.deep_view() == self.catalog().listed(),
    {
        self.catalog.metadata()
    }

    /// Partition count for a topic, if configured.
    pub fn partition_count(&self, topic: &[u8]) -> (r: Option<i32>)
        requires
            self.wf(),
        ensures
            r == self.catalog().partition_count(topic@),
    {
        self.catalog.partition_count(topic)
    }

    /// Issues (or fences) the producer identity for a transactional id.
    pub fn init_producer(&self, transactional_id: &[u8]) -> (r: Result<ProducerIdentity, BrokerError>)
        requires
            self.wf(),
        ensures
            self.can_init(transactional_id@, r),
    {
        let call = self.coordinate(
            CoordinationRequest::InitProducer { transactional_id: copy_bytes(transactional_id) },
        );
        answer_producer(call)
    }

    /// Enlists a partition in an ongoing transaction.
    pub fn add_transaction_partition(
        &self,
        transactional_id: &[u8],
        producer: ProducerIdentity,
        topic: &[u8],
        partition: i32,
    ) -> (r: Result<(), BrokerError>)
        requires
            self.wf(),
        ensures
            self.can_apply(
                CoordinationRequestModel::AddPartition {
                    transactional_id: transactional_id@,
                    producer,
                    topic: topic@,
                    partition,
                },
                r,
            ),
    {
        let call = self.coordinate(
            CoordinationRequest::AddPartition {
                transactional_id: copy_bytes(transactional_id),
                producer,
                topic: copy_bytes(topic),
                partition,
            },
        );
        answer_applied(call)
    }

    /// Checks the producer epoch and enlisted partition before appending.
    pub fn validate_transactional_produce(
        &self,
        transactional_id: &[u8],
        producer: ProducerIdentity,
        topic: &[u8],
        partition: i32,
    ) -> (r: Result<(), BrokerError>)
        requires
            self.wf(),
        ensures
            self.can_apply(
                CoordinationRequestModel::ValidateProduce {
                    transactional_id: transactional_id@,
                    producer,
                    topic: topic@,
                    partition,
                },
                r,
            ),
    {
        let call = self.coordinate(
            CoordinationRequest::ValidateProduce {
                transactional_id: copy_bytes(transactional_id),
                producer,
                topic: copy_bytes(topic),
                partition,
            },
        );
        answer_applied(call)
    }

    /// Validates a transactional append and then routes it to the owning
    /// partition shard. The append itself remains atomic at the partition.
    pub fn produce_transactional(
        &self,
        transactional_id: &[u8],
        producer: ProducerIdentity,
        topic: &[u8],
        partition: i32,
        records: Vec<RecordData>,
    ) -> (r: Result<i64, BrokerError>)
        requires
            self.wf(),
        ensures
            self.can_produce_transactional(
                transactional_id@,
                producer,
                topic@,
                partition,
                records.deep_view(),
                r,
            ),
    {
        let check = self.validate_transactional_produce(transactional_id, producer, topic, partition);
        check?;
        let routed = self.plan_transactional_produce(producer, topic, partition, records)?;
        let ghost asked = routed.request.deep_view();
        let call = self.shards.exchange(routed.shard, routed.request);
        proof {
            assert(self.can_call(topic@, partition, asked, links::call_view(call)));
        }
        answer_produce(call)
    }

    /// Enlists a consumer offset so it is committed atomically with the
    /// producer transaction.
    pub fn add_transaction_offset(
        &self,
        transactional_id: &[u8],
        producer: ProducerIdentity,
        offset: TransactionOffset,
    ) -> (r: Result<(), BrokerError>)
        requires
            self.wf(),
        ensures
            self.can_apply(
                CoordinationRequestModel::AddOffset {
                    transactional_id: transactional_id@,
                    producer,
                    offset: offset.deep_view(),
                },
                r,
            ),
    {
        let call = self.coordinate(
            CoordinationRequest::AddOffset {
                transactional_id: copy_bytes(transactional_id),
                producer,
                offset,
            },
        );
        answer_applied(call)
    }

    /// Resolves the batches of a producer on the shards of the given
    /// partitions.
    fn resolve_partitions(&self, partitions: &Vec<(Vec<u8>, i32)>, producer_id: i64, commit: bool) -> (r: (
        Result<(), BrokerError>,
        Ghost<Seq<Result<(), BrokerError>>>,
    ))
        requires
            self.wf(),
        ensures
            taken(r.1@, partitions@.len()),
            forall|i: int|
                0 <= i < r.1@.len() ==> self.can_resolve(
                    partitions.deep_view()[i],
                    producer_id,
                    commit,
                    #[trigger] r.1@[i],
                ),
            r.0 == first_failure(r.1@),
    {
        let ghost mut steps: Seq<Result<(), BrokerError>> = seq![];
        let mut i: usize = 0;
        while i < partitions.len()
            invariant
                self.wf(),
                i <= partitions.len(),
                steps.len() == i,
                first_failure(steps) is Ok,
                steps.len() > 0 ==> first_failure(steps.drop_last()) is Ok,
                forall|k: int|
                    0 <= k < steps.len() ==> self.can_resolve(
                        partitions.deep_view()[k],
                        producer_id,
                        commit,
                        #[trigger] steps[k],
                    ),
            decreases partitions.len() - i,
        {
            let call = self.call(
                partitions[i].0.as_slice(),
                partitions[i].1,
                PartitionRequest::ResolveTransaction { producer_id, commit },
            );
            let ghost outcome = links::call_view(call);
            let step = answer_resolve(call);
            proof {
                let place = partitions.deep_view()[i as int];
                assert(place == (partitions@[i as int].0@, partitions@[i as int].1));
                assert(self.can_call(
                    place.0,
                    place.1,
                    PartitionRequestModel::ResolveTransaction { producer_id, commit },
                    outcome,
                ));
                assert(self.can_resolve(place, producer_id, commit, step));
                let before = steps;
                steps = steps.push(step);
                assert(steps.drop_last() =~= before);
            }
            if step.is_err() {
                return (step, Ghost(steps));
            }
            i += 1;
        }
        (Ok(()), Ghost(steps))
    }

    /// Commits the offsets that were enlisted in a transaction.
    fn commit_offsets(&self, offsets: &Vec<TransactionOffset>) -> (r: (
        Result<(), BrokerError>,
        Ghost<Seq<Result<(), BrokerError>>>,
    ))
        requires
            self.wf(),
        ensures
            taken(r.1@, offsets@.len()),
            forall|i: int|
                0 <= i < r.1@.len() ==> self.can_commit(
                    offsets.deep_view()[i],
                    #[trigger] r.1@[i],
                ),
            r.0 == first_failure(r.1@),
    {
        let ghost mut steps: Seq<Result<(), BrokerError>> = seq![];
        let mut i: usize = 0;
        while i < offsets.len()
            invariant
                self.wf(),
                i <= offsets.len(),
                steps.len() == i,
                first_failure(steps) is Ok,
                steps.len() > 0 ==> first_failure(steps.drop_last()) is Ok,
                forall|k: int|
                    0 <= k < steps.len() ==> self.can_commit(
                        offsets.deep_view()[k],
                        #[trigger] steps[k],
                    ),
            decreases offsets.len() - i,
        {
            let offset = &offsets[i];
            let step = self.commit_group_offset(
                offset.group_id.as_slice(),
                offset.generation,
                offset.topic.as_slice(),
                offset.partition,
                offset.offset,
            );
            proof {
                let before = steps;
                steps = steps.push(step);
                assert(steps.drop_last() =~= before);
            }
            if step.is_err() {
                return (step, Ghost(steps));
            }
            i += 1;
        }
        (Ok(()), Ghost(steps))
    }

    /// Commits or aborts an ongoing transaction. The identity of the producer
    /// stays valid: it may begin another transaction, until the next
    /// initialisation of the id replaces it.
    pub fn end_transaction(&self, transactional_id: &[u8], producer: ProducerIdentity, commit: bool) -> (r:
        Result<(), BrokerError>)
        requires
            self.wf(),
        ensures
            self.can_end(transactional_id@, producer, commit, r),
    {
        let call = self.coordinate(
            CoordinationRequest::EndTransaction {
                transactional_id: copy_bytes(transactional_id),
                producer,
                commit,
            },
        );
        let ghost outcome = coordination_call_view(call);
        proof {
            assert(self.can_coordinate(
                CoordinationRequestModel::EndTransaction {
                    transactional_id: transactional_id@,
                    producer,
                    commit,
                },
                outcome,
            ));
        }
        let completion = answer_completion(call)?;
        let ghost model = completion.deep_view();
        proof {
            assert(model.partitions.len() == completion.partitions@.len());
            assert(model.offsets.len() == completion.offsets@.len());
        }
        let (resolved, Ghost(resolves)) = self.resolve_partitions(
            &completion.partitions,
            producer.id,
            commit,
        );
        if resolved.is_err() {
            proof {
                assert(self.completed_by(model, producer.id, commit, resolves, seq![], resolved));
            }
            return resolved;
        }
        if !commit {
            proof {
                let none = Seq::<Result<(), BrokerError>>::empty();
                assert(self.completed_by(model, producer.id, commit, resolves, none, Ok(())));
            }
            return Ok(());
        }
        let (committed, Ghost(commits)) = self.commit_offsets(&completion.offsets);
        proof {
            assert(self.completed_by(model, producer.id, commit, resolves, commits, committed));
        }
        committed
    }

    /// Joins a group and returns a deterministic assignment for every member.
    pub fn join_group(&self, group_id: &[u8], member_id: &[u8], subscriptions: Vec<Vec<u8>>) -> (r:
        Result<(i32, Vec<GroupAssignment>), BrokerError>)
        requires
            self.wf(),
        ensures
            self.can_join(group_id@, member_id@, subscriptions.deep_view(), group_view(r)),
    {
        let call = self.coordinate(self.plan_join(group_id, member_id, subscriptions));
        answer_group(call)
    }

    /// Keeps a group member alive.
    pub fn heartbeat_group(&self, group_id: &[u8], member_id: &[u8], generation: i32) -> (r: Result<
        (),
        BrokerError,
    >)
        requires
            self.wf(),
        ensures
            self.can_apply(
                CoordinationRequestModel::Heartbeat {
                    group_id: group_id@,
                    member_id: member_id@,
                    generation,
                },
                r,
            ),
    {
        let call = self.coordinate(
            CoordinationRequest::Heartbeat {
                group_id: copy_bytes(group_id),
                member_id: copy_bytes(member_id),
                generation,
            },
        );
        answer_applied(call)
    }

    /// Removes a group member of the given generation.
    pub fn leave_group(&self, group_id: &[u8], member_id: &[u8], generation: i32) -> (r: Result<
        (),
        BrokerError,
    >)
        requires
            self.wf(),
        ensures
            self.can_apply(
                CoordinationRequestModel::LeaveGroup {
                    group_id: group_id@,
                    member_id: member_id@,
                    generation,
                },
                r,
            ),
    {
        let call = self.coordinate(
            CoordinationRequest::LeaveGroup {
                group_id: copy_bytes(group_id),
                member_id: copy_bytes(member_id),
                generation,
            },
        );
        answer_applied(call)
    }

    /// Removes a member using Kafka LeaveGroup v0 semantics (no generation).
    pub fn leave_group_any(&self, group_id: &[u8], member_id: &[u8]) -> (r: Result<(), BrokerError>)
        requires
            self.wf(),
        ensures
            self.can_apply(
                CoordinationRequestModel::LeaveGroupAny {
                    group_id: group_id@,
                    member_id: member_id@,
                },
                r,
            ),
    {
        let call = self.coordinate(
            CoordinationRequest::LeaveGroupAny {
                group_id: copy_bytes(group_id),
                member_id: copy_bytes(member_id),
            },
        );
        answer_applied(call)
    }

    /// Commits an offset of a consumer group.
    pub fn commit_group_offset(
        &self,
        group_id: &[u8],
        generation: i32,
        topic: &[u8],
        partition: i32,
        offset: i64,
    ) -> (r: Result<(), BrokerError>)
        requires
            self.wf(),
        ensures
            self.can_apply(
                CoordinationRequestModel::CommitOffset {
                    group_id: group_id@,
                    generation,
                    topic: topic@,
                    partition,
                    offset,
                },
                r,
            ),
    {
        let call = self.coordinate(
            CoordinationRequest::CommitOffset {
                group_id: copy_bytes(group_id),
                generation,
                topic: copy_bytes(topic),
                partition,
                offset,
            },
        );
        answer_applied(call)
    }

    /// Reads a committed offset of a consumer group.
    pub fn group_offset(&self, group_id: &[u8], topic: &[u8], partition: i32) -> (r: Result<
        Option<i64>,
        BrokerError,
    >)
        requires
            self.wf(),
        ensures
            self.can_read_offset(group_id@, topic@, partition, r),
    {
        let call = self.coordinate(
            CoordinationRequest::FetchOffset {
                group_id: copy_bytes(group_id),
                topic: copy_bytes(topic),
                partition,
            },
        );
        answer_group_offset(call)
    }
}

} // verus!
