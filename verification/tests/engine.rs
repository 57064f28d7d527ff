//! Responses from what the broker said.

use std::cell::{Cell, RefCell};
use std::time::Duration;

use charlotte_kafka_broker::broker_core::{
    CoordinationError, FetchWindow, GroupAssignment, LogError, ProducerIdentity, Record, RecordData,
};
use charlotte_kafka_broker::broker_engine::answers::{
    partition_budget, respond_fetch, respond_init, respond_join, respond_offset,
    respond_offset_fetch, respond_produce,
};
use charlotte_kafka_broker::broker_engine::codes::{
    coordination_error_code, error_code, outcome_error_code,
};
use charlotte_kafka_broker::broker_engine::groups::{encode_subscription, generated_member_id};
use charlotte_kafka_broker::broker_engine::{BrokerIdentity, Engine, EngineConfig};
use charlotte_kafka_broker::broker_runtime::broker::ReadyShard;
use charlotte_kafka_broker::broker_runtime::channel::Parker;
use charlotte_kafka_broker::broker_runtime::links::ShardLinks;
use charlotte_kafka_broker::broker_runtime::message::{PartitionRequest, PartitionResult};
use charlotte_kafka_broker::broker_runtime::{Broker, BrokerConfig, BrokerError, TopicSpec};
use charlotte_kafka_broker::broker_wire::codec::Decoder;
use charlotte_kafka_broker::broker_wire::protocol::{api, version};
use charlotte_kafka_broker::broker_wire::record_batch::encode_record_batch;
use charlotte_kafka_broker::broker_wire::request::{
    Header, ProducePartition, ProduceTopic, Request, RequestBody,
};
use charlotte_kafka_broker::broker_wire::Error;

#[test]
fn errors_have_their_kafka_codes() {
    assert_eq!(error_code(BrokerError::Core(LogError::UnknownTopic)), 3);
    assert_eq!(error_code(BrokerError::Core(LogError::UnknownPartition)), 3);
    assert_eq!(error_code(BrokerError::Core(LogError::OffsetOutOfRange)), 1);
    assert_eq!(error_code(BrokerError::Core(LogError::EmptyAppend)), -1);
    assert_eq!(error_code(BrokerError::ReplyTimeout), -1);
    assert_eq!(error_code(BrokerError::Coordination(CoordinationError::ProducerFenced)), -1);
    let coordination = |error| coordination_error_code(BrokerError::Coordination(error));
    assert_eq!(coordination(CoordinationError::ProducerFenced), 47);
    assert_eq!(coordination(CoordinationError::InvalidTransactionState), 48);
    assert_eq!(coordination(CoordinationError::UnknownMember), 42);
    assert_eq!(coordination_error_code(BrokerError::MailboxUnavailable), -1);
    assert_eq!(outcome_error_code(Ok(())), 0);
    assert_eq!(
        outcome_error_code(Err(BrokerError::Coordination(CoordinationError::IllegalGeneration))),
        42
    );
}

#[test]
fn fetch_budget_is_the_smallest_bound() {
    assert_eq!(partition_budget(10, 20, 30), 10);
    assert_eq!(partition_budget(20, 10, 30), 10);
    assert_eq!(partition_budget(20, 30, 10), 10);
    assert_eq!(partition_budget(-1, 30, 10), 0);
    assert_eq!(partition_budget(i32::MAX, i32::MAX, usize::MAX), i32::MAX as usize);
}

#[test]
fn engine_bounds_default() {
    let config = EngineConfig::new(BrokerIdentity::new(4, b"host", 19092));
    assert_eq!(config.identity.node_id, 4);
    assert_eq!(config.identity.host, b"host");
    assert_eq!(config.identity.port, 19092);
    assert_eq!(config.max_fetch_records, 1024);
    assert_eq!(config.max_fetch_bytes, 1024 * 1024);
}

#[test]
fn results_carry_offsets_or_none() {
    let produced = respond_produce(2, Ok(17));
    assert_eq!((produced.partition, produced.error, produced.base_offset), (2, 0, 17));
    assert_eq!(produced.log_append_time_ms, -1);
    let refused = respond_produce(2, Err(BrokerError::Core(LogError::UnknownTopic)));
    assert_eq!((refused.error, refused.base_offset, refused.log_append_time_ms), (3, -1, -1));

    let listed = respond_offset(1, Ok(9));
    assert_eq!((listed.partition, listed.error, listed.timestamp_ms, listed.offset), (1, 0, -1, 9));
    let refused = respond_offset(1, Err(BrokerError::ReplyTimeout));
    assert_eq!((refused.error, refused.offset), (-1, -1));

    let window = FetchWindow {
        high_watermark: 8,
        last_stable_offset: 6,
        records: vec![Record {
            offset: 5,
            timestamp_ms: 1,
            key: None,
            value: None,
        }],
    };
    let fetched = respond_fetch(3, Ok(window));
    assert_eq!((fetched.partition, fetched.error), (3, 0));
    assert_eq!((fetched.high_watermark, fetched.last_stable_offset), (8, 6));
    assert_eq!(fetched.aborted_transactions, None);
    assert_eq!(fetched.records.len(), 1);
    let refused = respond_fetch(3, Err(BrokerError::Core(LogError::OffsetOutOfRange)));
    assert_eq!((refused.error, refused.high_watermark, refused.last_stable_offset), (1, -1, -1));
    assert!(refused.records.is_empty());

    let issued = respond_init(Ok(ProducerIdentity { id: 7, epoch: 2 }));
    assert_eq!((issued.error, issued.producer_id, issued.producer_epoch), (0, 7, 2));
    let refused = respond_init(Err(BrokerError::Coordination(CoordinationError::InvalidId)));
    assert_eq!((refused.error, refused.producer_id, refused.producer_epoch), (-1, -1, -1));

    assert_eq!(respond_offset_fetch(Ok(Some(5))), (5, 0));
    assert_eq!(respond_offset_fetch(Ok(None)), (-1, 0));
    assert_eq!(
        respond_offset_fetch(Err(BrokerError::Coordination(CoordinationError::UnknownGroup))),
        (-1, 42)
    );
}

#[test]
fn member_ids_are_generated_from_the_correlation_id() {
    assert_eq!(generated_member_id(0), b"member-0");
    assert_eq!(generated_member_id(40), b"member-40");
    assert_eq!(generated_member_id(-17), b"member-17");
    assert_eq!(generated_member_id(i32::MIN), b"member-2147483648");
}

#[test]
fn subscriptions_are_version_zero_without_user_data() {
    assert_eq!(
        encode_subscription(&vec![b"a".to_vec(), b"bc".to_vec()]),
        Ok(b"\0\0\0\0\0\x02\0\x01a\0\x02bc\xff\xff\xff\xff".to_vec())
    );
    assert_eq!(encode_subscription(&vec![vec![0; 0x8000]]), Err(Error::TooLarge));
}

#[test]
fn joins_list_every_member() {
    let member = |id: &[u8]| GroupAssignment {
        member_id: id.to_vec(),
        partitions: Vec::new(),
    };
    let frame = respond_join(
        3,
        b"b".to_vec(),
        &vec![b"t".to_vec()],
        Ok((6, vec![member(b"a"), member(b"b")])),
    )
    .expect("encode");
    let mut body = Decoder::new(&frame[8..]);
    assert_eq!(body.i16(), Ok(0));
    assert_eq!(body.i32(), Ok(6));
    assert_eq!(body.string_bytes(), Ok(b"charlotte-fixed-v1".as_slice()));
    assert_eq!(body.string_bytes(), Ok(b"b".as_slice()));
    assert_eq!(body.string_bytes(), Ok(b"b".as_slice()));
    assert_eq!(body.array_len(), Ok(2));
    for id in [b"a".as_slice(), b"b"] {
        assert_eq!(body.string_bytes(), Ok(id));
        assert_eq!(
            body.bytes(),
            Ok(Some(b"\0\0\0\0\0\x01\0\x01t\xff\xff\xff\xff".as_slice()))
        );
    }
    assert!(body.done());

    let frame = respond_join(
        3,
        b"b".to_vec(),
        &Vec::new(),
        Err(BrokerError::Coordination(CoordinationError::InvalidId)),
    )
    .expect("encode");
    let mut body = Decoder::new(&frame[8..]);
    assert_eq!(body.i16(), Ok(42));
    assert_eq!(body.i32(), Ok(-1));
    assert_eq!(body.string_bytes(), Ok(b"".as_slice()));
    assert_eq!(body.string_bytes(), Ok(b"".as_slice()));
    assert_eq!(body.string_bytes(), Ok(b"b".as_slice()));
    assert_eq!(body.array_len(), Ok(0));
    assert!(body.done());
}

/// Answers the commands of one shard whenever the caller waits, up to a number
/// of them.
struct InlineShard {
    ready: RefCell<Option<ReadyShard>>,
    left: Cell<u32>,
}

/// Nobody waits on it.
struct IdleParker;

impl Parker for IdleParker {
    fn park(&self, _timeout: Option<Duration>) {}

    fn unpark(&self) {}
}

impl Parker for &InlineShard {
    fn park(&self, _timeout: Option<Duration>) {
        if self.left.get() == 0 {
            return;
        }
        if let Some(ready) = self.ready.borrow_mut().as_mut() {
            if let Some(command) = ready.mailbox.try_recv() {
                self.left.set(self.left.get() - 1);
                ready.shard.answer(command, &IdleParker);
            }
        }
    }

    fn unpark(&self) {}
}

fn inline_engine(inline: &InlineShard) -> Engine<ShardLinks<&InlineShard>> {
    let config = BrokerConfig::new(
        1,
        vec![TopicSpec {
            name: b"events".to_vec(),
            partitions: 1,
        }],
    )
    .with_wait_policy(Duration::from_millis(1), 3);
    let (broker, mut shards) = Broker::start(config, inline).expect("start");
    *inline.ready.borrow_mut() = shards.pop();
    Engine::new(broker, EngineConfig::new(BrokerIdentity::new(1, b"host", 9092)))
}

/// A produce request with one entry that carries these record sets.
fn produce_frame(sets: &[Vec<u8>]) -> Vec<u8> {
    let set = sets.concat();
    let mut body = Vec::new();
    body.extend_from_slice(&api::PRODUCE.to_be_bytes());
    body.extend_from_slice(&version::PRODUCE.to_be_bytes());
    body.extend_from_slice(&7i32.to_be_bytes());
    body.extend_from_slice(&(-1i16).to_be_bytes());
    body.extend_from_slice(&(-1i16).to_be_bytes());
    body.extend_from_slice(&(-1i16).to_be_bytes());
    body.extend_from_slice(&30_000i32.to_be_bytes());
    body.extend_from_slice(&1i32.to_be_bytes());
    body.extend_from_slice(&6i16.to_be_bytes());
    body.extend_from_slice(b"events");
    body.extend_from_slice(&1i32.to_be_bytes());
    body.extend_from_slice(&0i32.to_be_bytes());
    body.extend_from_slice(&(set.len() as i32).to_be_bytes());
    body.extend_from_slice(&set);
    let mut frame = (body.len() as i32).to_be_bytes().to_vec();
    frame.extend_from_slice(&body);
    frame
}

/// The error code and base offset of the only entry of a produce response.
fn produce_result(response: &[u8]) -> (i16, i64) {
    let mut body = Decoder::new(&response[8..]);
    assert_eq!(body.array_len(), Ok(1));
    assert_eq!(body.string_bytes(), Ok(b"events".as_slice()));
    assert_eq!(body.array_len(), Ok(1));
    assert_eq!(body.i32(), Ok(0));
    (body.i16().expect("error"), body.i64().expect("base offset"))
}

fn batch(len: usize) -> Vec<u8> {
    let records: Vec<Record> = (0..len)
        .map(|offset| Record {
            offset: offset as i64,
            timestamp_ms: 1,
            key: None,
            value: Some(b"v".to_vec()),
        })
        .collect();
    encode_record_batch(0, &records).expect("encode")
}

#[test]
fn each_batch_of_an_entry_is_appended_as_one_unit() {
    let inline = InlineShard {
        ready: RefCell::new(None),
        left: Cell::new(u32::MAX),
    };
    let engine = inline_engine(&inline);
    let response = engine.handle_frame(&produce_frame(&[batch(1)])).expect("response");
    assert_eq!(produce_result(&response), (0, 0));
    let response =
        engine.handle_frame(&produce_frame(&[batch(1024), batch(1024)])).expect("response");
    assert_eq!(produce_result(&response), (0, 1));
    assert_eq!(engine.broker().list_offset(b"events", 0, false), Ok(2049));
    let response =
        engine.handle_frame(&produce_frame(&[batch(2), batch(3), batch(4)])).expect("response");
    assert_eq!(produce_result(&response), (0, 2049));
    assert_eq!(engine.broker().list_offset(b"events", 0, false), Ok(2058));
}

#[test]
fn a_refused_batch_leaves_the_earlier_ones() {
    let inline = InlineShard {
        ready: RefCell::new(None),
        left: Cell::new(2),
    };
    let engine = inline_engine(&inline);
    let response = engine
        .handle_frame(&produce_frame(&[batch(5), batch(6), batch(7), batch(8)]))
        .expect("response");
    assert_eq!(produce_result(&response), (-1, -1));
    assert_eq!(engine.broker().list_offset(b"events", 0, false), Err(BrokerError::ReplyTimeout));
    let mut ready = inline.ready.borrow_mut();
    let shard = &mut ready.as_mut().expect("shard").shard;
    assert_eq!(
        shard.handle(PartitionRequest::ListOffset {
            topic: b"events".to_vec(),
            partition: 0,
            earliest: false,
        }),
        PartitionResult::Offset(11)
    );
    let mailbox = &mut ready.as_mut().expect("shard").mailbox;
    let asked = mailbox.try_recv().expect("the refused batch").request;
    assert!(matches!(asked, PartitionRequest::Produce { records, .. } if records.len() == 7));
    let asked = mailbox.try_recv().expect("the offset request").request;
    assert!(matches!(asked, PartitionRequest::ListOffset { .. }));
    assert!(mailbox.try_recv().is_none(), "the fourth batch was not sent");
}

/// A produce request with one entry for a partition of a topic.
fn produce_body(topic: &[u8], values: usize, batch_lens: Vec<usize>) -> Request {
    let records: Vec<RecordData> = (0..values)
        .map(|index| RecordData {
            timestamp_ms: 1,
            key: None,
            value: Some(vec![b'a' + index as u8]),
        })
        .collect();
    Request {
        header: Header {
            api_key: api::PRODUCE,
            api_version: version::PRODUCE,
            correlation_id: 7,
            client_id: None,
        },
        body: RequestBody::Produce {
            transactional_id: None,
            acks: -1,
            timeout_ms: 30_000,
            topics: vec![ProduceTopic {
                name: topic.to_vec(),
                partitions: vec![ProducePartition {
                    partition: 0,
                    records,
                    batch_lens,
                    producer: None,
                }],
            }],
        },
    }
}

#[test]
fn entries_without_records_are_refused_like_any_other() {
    let inline = InlineShard {
        ready: RefCell::new(None),
        left: Cell::new(u32::MAX),
    };
    let engine = inline_engine(&inline);
    let refused = |topic: &[u8]| {
        let response = engine.handle_request(produce_body(topic, 0, Vec::new())).expect("response");
        let mut body = Decoder::new(&response[8..]);
        assert_eq!(body.array_len(), Ok(1));
        assert_eq!(body.string_bytes(), Ok(topic));
        assert_eq!(body.array_len(), Ok(1));
        assert_eq!(body.i32(), Ok(0));
        let error = body.i16().expect("error");
        assert_eq!(body.i64(), Ok(-1));
        error
    };
    assert_eq!(refused(b"missing"), 3);
    assert_eq!(refused(b"events"), -1);
    assert_eq!(engine.broker().list_offset(b"events", 0, false), Ok(0));
}

#[test]
fn no_record_of_an_entry_is_lost() {
    let inline = InlineShard {
        ready: RefCell::new(None),
        left: Cell::new(u32::MAX),
    };
    let engine = inline_engine(&inline);
    let mut next = 0;
    for lens in [vec![2], vec![], vec![0, 1, 0], vec![1, 9, 4], vec![3]] {
        let response = engine.handle_request(produce_body(b"events", 3, lens)).expect("response");
        assert_eq!(produce_result(&response), (0, next));
        next += 3;
        assert_eq!(engine.broker().list_offset(b"events", 0, false), Ok(next));
    }
    let window = engine.broker().fetch(b"events", 0, 0, 100, 100_000).expect("fetch");
    let values: Vec<u8> =
        window.records.iter().map(|record| record.value.as_ref().expect("value")[0]).collect();
    assert_eq!(values, b"abc".repeat(5));
}
