//! Shards, routing and replies without threads.

use std::cell::{Cell, RefCell};
use std::time::Duration;

use charlotte_kafka_broker::broker_core::coordination::{
    CoordinationError, GroupAssignment, ProducerIdentity, TransactionCompletion,
};
use charlotte_kafka_broker::broker_core::{FetchWindow, LogError, RecordData};
use charlotte_kafka_broker::broker_runtime::broker::{
    answer_applied, answer_completion, answer_coordination, answer_fetch, answer_group,
    answer_group_offset, answer_offset, answer_produce, answer_producer, answer_resolve,
    list_partitions, ReadyShard,
};
use charlotte_kafka_broker::broker_runtime::channel::Parker;
use charlotte_kafka_broker::broker_runtime::links::{answer_stop, Mailbox, ShardLinks};
use charlotte_kafka_broker::broker_runtime::message::{
    CoordinationRequest, CoordinationResult, PartitionCommand, PartitionRequest, PartitionResult,
};
use charlotte_kafka_broker::broker_runtime::{
    Broker, BrokerConfig, BrokerError, TopicSpec, DEFAULT_MAILBOX_CAPACITY, DEFAULT_PARK_TIMEOUT_MS,
};
use sitas_core::shard_runtime::{channel, ShardReceiver};

/// Counts how often it was asked to wait and to release.
struct CountingParker {
    parked: Cell<u32>,
    last: Cell<Option<Duration>>,
}

impl Parker for CountingParker {
    fn park(&self, timeout: Option<Duration>) {
        self.parked.set(self.parked.get() + 1);
        self.last.set(timeout);
    }

    fn unpark(&self) {}
}

fn parker() -> CountingParker {
    CountingParker {
        parked: Cell::new(0),
        last: Cell::new(None),
    }
}

/// Nobody waits on it.
struct IdleParker;

impl Parker for IdleParker {
    fn park(&self, _timeout: Option<Duration>) {}

    fn unpark(&self) {}
}

fn config(shard_count: usize, partitions: i32) -> BrokerConfig {
    BrokerConfig::new(
        shard_count,
        vec![
            TopicSpec {
                name: b"events".to_vec(),
                partitions,
            },
            TopicSpec {
                name: b"audit".to_vec(),
                partitions: 1,
            },
        ],
    )
}

fn started(shard_count: usize, partitions: i32) -> (Broker<ShardLinks<IdleParker>>, Vec<ReadyShard>) {
    Broker::start(config(shard_count, partitions).with_wait_policy(Duration::from_millis(1), 2), IdleParker)
        .expect("start")
}

fn record(value: &[u8]) -> RecordData {
    RecordData {
        timestamp_ms: 1,
        key: None,
        value: Some(value.to_vec()),
    }
}

fn produce(partition: i32, value: &[u8]) -> PartitionRequest {
    PartitionRequest::Produce {
        topic: b"events".to_vec(),
        partition,
        records: vec![record(value)],
    }
}

fn fetch(partition: i32, read_committed: bool) -> PartitionRequest {
    PartitionRequest::Fetch {
        topic: b"events".to_vec(),
        partition,
        offset: 0,
        max_records: 10,
        max_bytes: 4096,
        read_committed,
    }
}

fn values(result: PartitionResult) -> Vec<Vec<u8>> {
    match result {
        PartitionResult::Fetched(window) => {
            window.records.into_iter().map(|record| record.value.expect("value")).collect()
        }
        other => panic!("unexpected result: {other:?}"),
    }
}

#[test]
fn configuration_defaults_and_overrides() {
    let defaults = config(2, 3);
    assert_eq!(defaults.mailbox_capacity, DEFAULT_MAILBOX_CAPACITY);
    assert_eq!(defaults.mailbox_capacity, 64);
    assert_eq!(DEFAULT_PARK_TIMEOUT_MS, 5);
    assert_eq!(defaults.park_timeout, Duration::from_millis(5));
    assert_eq!(defaults.max_retries, 2_000);
    assert_eq!(defaults.partition_max_bytes, None);
    let changed = defaults
        .clone()
        .with_mailbox_capacity(7)
        .with_wait_policy(Duration::from_millis(9), 3)
        .with_partition_max_bytes(1000);
    assert_eq!(changed.mailbox_capacity, 7);
    assert_eq!(changed.park_timeout, Duration::from_millis(9));
    assert_eq!(changed.max_retries, 3);
    assert_eq!(changed.partition_max_bytes, Some(1000));
    assert_eq!(changed.topics, defaults.topics);
}

#[test]
fn invalid_configurations_are_refused() {
    let refused = |config: BrokerConfig| {
        assert_eq!(
            Broker::start(config, IdleParker).err(),
            Some(BrokerError::InvalidConfig)
        );
    };
    refused(config(0, 1));
    refused(BrokerConfig::new(1, Vec::new()));
    refused(config(1, 1).with_mailbox_capacity(1));
    refused(config(1, 0));
    let mut twice = config(1, 1);
    twice.topics.push(TopicSpec {
        name: b"audit".to_vec(),
        partitions: 2,
    });
    refused(twice);
    assert!(Broker::start(config(1, 1).with_mailbox_capacity(2), IdleParker).is_ok());
}

#[test]
fn requests_are_planned_for_the_owning_shard() {
    let (broker, shards) = started(3, 4);
    assert_eq!(shards.len(), 3);
    for partition in 0..4 {
        let owner = broker.shard_index(b"events", partition);
        assert!(owner < 3);
        let planned =
            broker.plan_produce(b"events", partition, vec![record(b"x")]).expect("plan");
        assert_eq!(planned.shard, owner);
        assert_eq!(planned.request, produce(partition, b"x"));
        let planned =
            broker.plan_fetch(b"events", partition, 0, 10, 4096, true).expect("plan");
        assert_eq!(planned.shard, owner);
        assert_eq!(planned.request, fetch(partition, true));
        let planned = broker.plan_list_offset(b"events", partition, true).expect("plan");
        assert_eq!(planned.shard, owner);
        assert_eq!(
            planned.request,
            PartitionRequest::ListOffset {
                topic: b"events".to_vec(),
                partition,
                earliest: true,
            }
        );
        let producer = ProducerIdentity { id: 6, epoch: 1 };
        let planned = broker
            .plan_transactional_produce(producer, b"events", partition, vec![record(b"x")])
            .expect("plan");
        assert_eq!(planned.shard, owner);
        assert_eq!(
            planned.request,
            PartitionRequest::ProduceTransactional {
                topic: b"events".to_vec(),
                partition,
                records: vec![record(b"x")],
                producer_id: 6,
            }
        );
    }
    assert_eq!(
        broker.plan_fetch(b"events", 4, 0, 1, 1, false),
        Err(BrokerError::Core(LogError::UnknownPartition))
    );
    assert_eq!(
        broker.plan_list_offset(b"nothing", 0, false),
        Err(BrokerError::Core(LogError::UnknownTopic))
    );
}

#[test]
fn one_shard_owns_everything_when_alone() {
    let (broker, _shards) = started(1, 8);
    for partition in 0..8 {
        assert_eq!(broker.shard_index(b"events", partition), 0);
    }
}

#[test]
fn joins_cover_every_partition_of_every_topic() {
    let (broker, _shards) = started(2, 2);
    assert_eq!(
        broker.plan_join(b"g", b"m", vec![b"events".to_vec()]),
        CoordinationRequest::JoinGroup {
            group_id: b"g".to_vec(),
            member_id: b"m".to_vec(),
            subscriptions: vec![b"events".to_vec()],
            partitions: vec![
                (b"audit".to_vec(), 0),
                (b"events".to_vec(), 0),
                (b"events".to_vec(), 1),
            ],
        }
    );
    assert_eq!(list_partitions(&broker.metadata()).len(), 3);
}

#[test]
fn callers_give_up_on_shards_that_do_not_answer() {
    let waiting = parker();
    let (broker, shards) = Broker::start(
        config(1, 1).with_mailbox_capacity(2).with_wait_policy(Duration::from_millis(3), 4),
        &waiting,
    )
    .expect("start");
    assert_eq!(broker.produce(b"events", 0, vec![record(b"x")]), Err(BrokerError::ReplyTimeout));
    assert_eq!(waiting.parked.get(), 4);
    assert_eq!(waiting.last.get(), Some(Duration::from_millis(3)));
    assert_eq!(broker.init_producer(b"t"), Err(BrokerError::ReplyTimeout));
    assert_eq!(
        broker.fetch(b"events", 0, 0, 1, 1),
        Err(BrokerError::MailboxUnavailable),
        "the mailbox holds two commands"
    );
    assert_eq!(broker.shutdown(), Err(BrokerError::MailboxUnavailable));
    assert_eq!(broker.shutdown(), Ok(()));
    drop(shards);
}

impl Parker for &CountingParker {
    fn park(&self, timeout: Option<Duration>) {
        (**self).park(timeout);
    }

    fn unpark(&self) {
        (**self).unpark();
    }
}

#[test]
fn shards_store_and_serve() {
    let (_broker, mut shards) = started(1, 2);
    let shard = &mut shards[0].shard;
    assert_eq!(shard.handle(produce(0, b"a")), PartitionResult::Produced { base_offset: 0 });
    assert_eq!(shard.handle(produce(0, b"b")), PartitionResult::Produced { base_offset: 1 });
    assert_eq!(shard.handle(produce(1, b"c")), PartitionResult::Produced { base_offset: 0 });
    assert_eq!(values(shard.handle(fetch(0, false))), [b"a".to_vec(), b"b".to_vec()]);
    assert_eq!(values(shard.handle(fetch(1, false))), [b"c".to_vec()]);
    assert_eq!(
        shard.handle(PartitionRequest::ListOffset {
            topic: b"events".to_vec(),
            partition: 0,
            earliest: false,
        }),
        PartitionResult::Offset(2)
    );
    assert_eq!(
        shard.handle(produce(2, b"x")),
        PartitionResult::Failed(LogError::UnknownPartition)
    );
    assert_eq!(
        shard.handle(PartitionRequest::Produce {
            topic: b"events".to_vec(),
            partition: 0,
            records: Vec::new(),
        }),
        PartitionResult::Failed(LogError::EmptyAppend)
    );
    assert_eq!(shard.handle(PartitionRequest::Shutdown), PartitionResult::Stopped);
}

#[test]
fn shards_bound_their_logs() {
    let (_broker, mut shards) =
        Broker::start(config(1, 1).with_partition_max_bytes(1), IdleParker).expect("start");
    let shard = &mut shards[0].shard;
    shard.handle(produce(0, b"a"));
    shard.handle(produce(0, b"b"));
    assert_eq!(
        shard.handle(fetch(0, false)),
        PartitionResult::Failed(LogError::OffsetOutOfRange)
    );
    assert_eq!(
        shard.handle(PartitionRequest::ListOffset {
            topic: b"events".to_vec(),
            partition: 0,
            earliest: true,
        }),
        PartitionResult::Offset(1)
    );
}

#[test]
fn shards_hide_what_a_transaction_has_not_committed() {
    let (_broker, mut shards) = started(1, 2);
    let shard = &mut shards[0].shard;
    for (producer_id, partition) in [(4, 0), (5, 1)] {
        assert_eq!(
            shard.handle(PartitionRequest::ProduceTransactional {
                topic: b"events".to_vec(),
                partition,
                records: vec![record(b"t")],
                producer_id,
            }),
            PartitionResult::Produced { base_offset: 0 }
        );
    }
    assert!(values(shard.handle(fetch(0, true))).is_empty());
    assert_eq!(values(shard.handle(fetch(0, false))), [b"t".to_vec()]);
    assert_eq!(
        shard.handle(PartitionRequest::ResolveTransaction {
            producer_id: 4,
            commit: true,
        }),
        PartitionResult::Resolved
    );
    assert_eq!(
        shard.handle(PartitionRequest::ResolveTransaction {
            producer_id: 5,
            commit: false,
        }),
        PartitionResult::Resolved
    );
    assert_eq!(values(shard.handle(fetch(0, true))), [b"t".to_vec()]);
    assert!(values(shard.handle(fetch(1, true))).is_empty());
    assert_eq!(values(shard.handle(fetch(1, false))), [b"t".to_vec()]);
}

#[test]
fn shards_coordinate() {
    let (_broker, mut shards) = started(1, 2);
    let shard = &mut shards[0].shard;
    let mut ask = |request: CoordinationRequest| {
        match shard.handle(PartitionRequest::Coordinate { request }) {
            PartitionResult::Coordination(result) => result,
            other => panic!("unexpected result: {other:?}"),
        }
    };
    let producer = ProducerIdentity { id: 1, epoch: 0 };
    let id = || b"t".to_vec();
    assert_eq!(
        ask(CoordinationRequest::InitProducer { transactional_id: id() }),
        Ok(CoordinationResult::Producer(producer))
    );
    assert_eq!(
        ask(CoordinationRequest::ValidateProduce {
            transactional_id: id(),
            producer,
            topic: b"events".to_vec(),
            partition: 0,
        }),
        Err(CoordinationError::InvalidTransactionState)
    );
    assert_eq!(
        ask(CoordinationRequest::AddPartition {
            transactional_id: id(),
            producer,
            topic: b"events".to_vec(),
            partition: 0,
        }),
        Ok(CoordinationResult::Applied)
    );
    assert_eq!(
        ask(CoordinationRequest::ValidateProduce {
            transactional_id: id(),
            producer,
            topic: b"events".to_vec(),
            partition: 0,
        }),
        Ok(CoordinationResult::Applied)
    );
    assert_eq!(
        ask(CoordinationRequest::EndTransaction {
            transactional_id: id(),
            producer,
            commit: true,
        }),
        Ok(CoordinationResult::TransactionCompleted(TransactionCompletion {
            partitions: vec![(b"events".to_vec(), 0)],
            offsets: Vec::new(),
        }))
    );
    assert_eq!(
        ask(CoordinationRequest::JoinGroup {
            group_id: b"g".to_vec(),
            member_id: b"m".to_vec(),
            subscriptions: vec![b"events".to_vec()],
            partitions: vec![(b"events".to_vec(), 0)],
        }),
        Ok(CoordinationResult::Group {
            generation: 1,
            assignments: vec![GroupAssignment {
                member_id: b"m".to_vec(),
                partitions: vec![(b"events".to_vec(), 0)],
            }],
        })
    );
    assert_eq!(
        ask(CoordinationRequest::CommitOffset {
            group_id: b"g".to_vec(),
            generation: 1,
            topic: b"events".to_vec(),
            partition: 0,
            offset: 3,
        }),
        Ok(CoordinationResult::Applied)
    );
    assert_eq!(
        ask(CoordinationRequest::FetchOffset {
            group_id: b"g".to_vec(),
            topic: b"events".to_vec(),
            partition: 0,
        }),
        Ok(CoordinationResult::Offset(Some(3)))
    );
    assert_eq!(
        ask(CoordinationRequest::Heartbeat {
            group_id: b"g".to_vec(),
            member_id: b"m".to_vec(),
            generation: 1,
        }),
        Ok(CoordinationResult::Applied)
    );
    assert_eq!(
        ask(CoordinationRequest::LeaveGroup {
            group_id: b"g".to_vec(),
            member_id: b"m".to_vec(),
            generation: 1,
        }),
        Ok(CoordinationResult::Applied)
    );
    assert_eq!(
        ask(CoordinationRequest::LeaveGroupAny {
            group_id: b"g".to_vec(),
            member_id: b"m".to_vec(),
        }),
        Err(CoordinationError::UnknownMember)
    );
}

#[test]
fn replies_of_the_wrong_kind_are_unexpected() {
    let stopped = || Ok(PartitionResult::Stopped);
    assert_eq!(answer_produce(stopped()), Err(BrokerError::UnexpectedReply));
    assert_eq!(answer_fetch(stopped()), Err(BrokerError::UnexpectedReply));
    assert_eq!(answer_offset(stopped()), Err(BrokerError::UnexpectedReply));
    assert_eq!(answer_resolve(stopped()), Err(BrokerError::UnexpectedReply));
    assert_eq!(answer_coordination(stopped()), Err(BrokerError::UnexpectedReply));
    assert_eq!(answer_stop(stopped()), Ok(()));
    assert_eq!(answer_stop(Ok(PartitionResult::Resolved)), Err(BrokerError::UnexpectedReply));
    let applied = || Ok(CoordinationResult::Applied);
    assert_eq!(answer_applied(applied()), Ok(()));
    assert_eq!(answer_producer(applied()), Err(BrokerError::UnexpectedReply));
    assert_eq!(answer_group(applied()), Err(BrokerError::UnexpectedReply));
    assert_eq!(answer_group_offset(applied()), Err(BrokerError::UnexpectedReply));
    assert_eq!(answer_completion(applied()), Err(BrokerError::UnexpectedReply));
    assert_eq!(
        answer_applied(Ok(CoordinationResult::Offset(None))),
        Err(BrokerError::UnexpectedReply)
    );
}

#[test]
fn failures_pass_through_unchanged() {
    assert_eq!(
        answer_produce(Ok(PartitionResult::Failed(LogError::EmptyAppend))),
        Err(BrokerError::Core(LogError::EmptyAppend))
    );
    assert_eq!(
        answer_fetch(Ok(PartitionResult::Failed(LogError::OffsetOutOfRange))),
        Err(BrokerError::Core(LogError::OffsetOutOfRange))
    );
    assert_eq!(
        answer_coordination(Ok(PartitionResult::Coordination(Err(
            CoordinationError::UnknownGroup
        )))),
        Err(BrokerError::Coordination(CoordinationError::UnknownGroup))
    );
    assert_eq!(
        answer_offset(Err(BrokerError::ReplyTimeout)),
        Err(BrokerError::ReplyTimeout)
    );
    let window = FetchWindow {
        high_watermark: 3,
        last_stable_offset: 2,
        records: Vec::new(),
    };
    assert_eq!(answer_fetch(Ok(PartitionResult::Fetched(window.clone()))), Ok(window));
    assert_eq!(BrokerError::from(LogError::UnknownTopic), BrokerError::Core(LogError::UnknownTopic));
}

#[test]
fn broker_errors_describe_themselves() {
    assert_eq!(BrokerError::InvalidConfig.text(), ("invalid broker configuration", None));
    assert_eq!(BrokerError::MailboxUnavailable.text(), ("shard mailbox unavailable", None));
    assert_eq!(BrokerError::ReplyTimeout.text(), ("shard reply timed out", None));
    assert_eq!(BrokerError::UnexpectedReply.text(), ("unexpected shard reply", None));
    assert_eq!(
        BrokerError::Core(LogError::UnknownTopic).text(),
        ("broker core error", Some("unknown topic"))
    );
    assert_eq!(
        BrokerError::Coordination(CoordinationError::UnknownGroup).text(),
        ("coordination error", Some("unknown group"))
    );
}

#[test]
fn partitions_go_round_the_shards() {
    let (broker, _shards) = started(7, 40);
    assert_eq!(broker.shard_index(b"events", 0), 2);
    for partition in 0..39 {
        let owner = broker.shard_index(b"events", partition);
        assert_eq!(broker.shard_index(b"events", partition + 1), (owner + 1) % 7);
    }
    let (broker, _shards) = started(2, 1);
    assert_eq!(broker.shard_index(b"a", 0), 0);
    assert_eq!(broker.shard_index(b"a", 1), 1);
    let (broker, _shards) = started(3, 1);
    assert_eq!(broker.shard_index(b"a", 0), 1);
    assert_eq!(broker.shard_index(b"a", -1), 0);
    assert_eq!(broker.shard_index(b"a", -2), 2);
}

#[test]
fn a_mailbox_is_let_go_of_after_every_send() {
    let (sender, mut receiver) = channel::<PartitionCommand>(3).expect("mailbox");
    let mailbox = Mailbox::new(sender);
    let (reply, _replies) = channel::<PartitionResult>(2).expect("replies");
    let command = |partition: i32| PartitionCommand {
        request: produce(partition, b"x"),
        reply: reply.clone(),
    };
    assert!(mailbox.try_send(command(0)).is_ok());
    assert!(mailbox.try_send(command(1)).is_ok());
    for _ in 0..3 {
        let returned = mailbox.try_send(command(2)).err().expect("full");
        assert_eq!(returned.request, produce(2, b"x"));
    }
    assert_eq!(receiver.try_recv().map(|taken| taken.request), Some(produce(0, b"x")));
    assert!(mailbox.try_send(command(3)).is_ok());
    assert_eq!(receiver.try_recv().map(|taken| taken.request), Some(produce(1, b"x")));
    assert_eq!(receiver.try_recv().map(|taken| taken.request), Some(produce(3, b"x")));
    assert!(receiver.try_recv().is_none());
}

#[test]
fn commands_are_answered_in_order_up_to_the_stop() {
    let (_broker, mut shards) = started(1, 1);
    let shard = &mut shards[0].shard;
    let requests = [
        produce(0, b"a"),
        produce(9, b"nowhere"),
        produce(0, b"b"),
        fetch(0, false),
        PartitionRequest::Shutdown,
    ];
    let mut replies = Vec::new();
    for (index, request) in requests.into_iter().enumerate() {
        let (reply, mut receiver) = channel::<PartitionResult>(2).expect("replies");
        let going_on = shard.answer(PartitionCommand { request, reply }, &IdleParker);
        assert_eq!(going_on, index != 4);
        replies.push(receiver.try_recv().expect("reply"));
        assert!(receiver.try_recv().is_none(), "one reply each");
    }
    assert_eq!(replies.pop(), Some(PartitionResult::Stopped));
    let fetched = replies.pop().expect("fetched");
    assert_eq!(values(fetched), [b"a".to_vec(), b"b".to_vec()]);
    assert_eq!(
        replies,
        [
            PartitionResult::Produced { base_offset: 0 },
            PartitionResult::Failed(LogError::UnknownPartition),
            PartitionResult::Produced { base_offset: 1 },
        ]
    );
}

/// Looks for the reply whenever it is told to release the caller.
struct WatchingParker {
    replies: RefCell<ShardReceiver<PartitionResult>>,
    seen: RefCell<Vec<PartitionResult>>,
    released: Cell<u32>,
}

impl Parker for WatchingParker {
    fn park(&self, _timeout: Option<Duration>) {}

    fn unpark(&self) {
        self.released.set(self.released.get() + 1);
        while let Some(reply) = self.replies.borrow_mut().try_recv() {
            self.seen.borrow_mut().push(reply);
        }
    }
}

#[test]
fn one_reply_comes_before_the_caller_is_released() {
    let (_broker, mut shards) = started(1, 1);
    let (reply, replies) = channel::<PartitionResult>(4).expect("replies");
    let watching = WatchingParker {
        replies: RefCell::new(replies),
        seen: RefCell::new(Vec::new()),
        released: Cell::new(0),
    };
    let command = PartitionCommand {
        request: produce(0, b"x"),
        reply,
    };
    assert!(shards[0].shard.answer(command, &watching));
    assert_eq!(watching.released.get(), 1);
    assert_eq!(*watching.seen.borrow(), [PartitionResult::Produced { base_offset: 0 }]);
    assert!(watching.replies.borrow_mut().try_recv().is_none());
}

#[test]
fn full_mailboxes_are_tried_as_often_as_allowed() {
    for (max_retries, tries) in [(0, 1), (1, 1), (2, 2), (7, 7)] {
        let waiting = parker();
        let (broker, _shards) = Broker::start(
            config(1, 1)
                .with_mailbox_capacity(2)
                .with_wait_policy(Duration::from_millis(3), max_retries),
            &waiting,
        )
        .expect("start");
        for _ in 0..2 {
            assert_eq!(broker.list_offset(b"events", 0, true), Err(BrokerError::ReplyTimeout));
        }
        assert_eq!(waiting.parked.get(), 2 * tries);
        assert_eq!(
            broker.list_offset(b"events", 0, true),
            Err(BrokerError::MailboxUnavailable)
        );
        assert_eq!(waiting.parked.get(), 3 * tries);
    }
}
