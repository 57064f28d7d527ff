//! Whole requests against an engine over running shards.

use std::sync::Arc;
use std::time::Duration;

use charlotte_kafka_broker::broker_engine::{BrokerIdentity, Engine, EngineConfig};
use charlotte_kafka_broker::broker_runtime::broker::ReadyShard;
use charlotte_kafka_broker::broker_runtime::channel::Parker;
use charlotte_kafka_broker::broker_runtime::links::ShardLinks;
use charlotte_kafka_broker::broker_runtime::{Broker, BrokerConfig, TopicSpec};
use charlotte_kafka_broker::broker_wire::codec::Decoder;
use charlotte_kafka_broker::broker_wire::protocol::{
    api, version, NO_ERROR, OFFSET_OUT_OF_RANGE, UNKNOWN_TOPIC_OR_PARTITION, UNSUPPORTED_VERSION,
};
use charlotte_kafka_broker::broker_wire::record_batch::{crc32c, decode_record_batches};
use charlotte_kafka_broker::broker_wire::Error;
use charlotte_kafka_broker::front_end::connection::{Connection, Received};
use charlotte_kafka_broker::front_end::diagnostics::Diagnostics;
use charlotte_kafka_broker::front_end::frames::Front;
use sitas_core::placement::ShardPlacement;
use sitas_core::shard::ShardId;
use sitas_core::shard_executor::ShardExecutor;
use sitas_core::shard_runtime::{ShardParker, ShardRuntime};
use sitas_unix::UnixRuntime;

const EVENTS: &[u8] = b"events";

/// Lets a caller of the broker wait on the runtime's parker.
struct RuntimeParker(Arc<dyn ShardParker>);

impl Parker for RuntimeParker {
    fn park(&self, timeout: Option<Duration>) {
        self.0.park(timeout);
    }

    fn unpark(&self) {
        self.0.unpark();
    }
}

/// Starts a broker whose shards run on threads of the runtime.
fn start(runtime: &UnixRuntime, config: BrokerConfig) -> Broker<ShardLinks<RuntimeParker>> {
    let park_timeout = config.park_timeout;
    let (broker, shards) =
        Broker::start(config, RuntimeParker(runtime.parker())).expect("start broker");
    for (index, ready) in shards.into_iter().enumerate() {
        let ReadyShard { mut shard, mut mailbox } = ready;
        let parker = RuntimeParker(runtime.parker());
        let shard_id = ShardId(index);
        let reactor = runtime.shard_reactor(shard_id);
        runtime.spawn_shard(
            shard_id,
            ShardPlacement::Sequential,
            Box::new(move || {
                let mut executor = ShardExecutor::new(reactor).with_idle_wait(Some(park_timeout));
                executor.spawn(async move {
                    while let Some(command) = mailbox.recv().await {
                        assert!(shard.has_room(&command.request), "offsets exhausted");
                        if !shard.answer(command, &parker) {
                            return;
                        }
                    }
                });
                executor.run();
            }),
        );
    }
    broker
}

/// A client of an engine. What it sends goes through a connection in chunks of
/// a few bytes.
struct Harness {
    _runtime: UnixRuntime,
    engine: Engine<ShardLinks<RuntimeParker>>,
    connection: Connection,
    diagnostics: Diagnostics,
}

fn harness() -> Harness {
    let runtime = UnixRuntime::new();
    let broker = start(
        &runtime,
        BrokerConfig::new(
            2,
            vec![TopicSpec {
                name: EVENTS.to_vec(),
                partitions: 2,
            }],
        ),
    );
    let engine = Engine::new(
        broker,
        EngineConfig::new(BrokerIdentity::new(1, b"127.0.0.1", 9092)),
    );
    let mut diagnostics = Diagnostics::new();
    let connection = Connection::accept(&mut diagnostics);
    Harness {
        _runtime: runtime,
        engine,
        connection,
        diagnostics,
    }
}

impl Harness {
    /// Sends a request; a connection that ends gives no response.
    fn send(&mut self, request: &[u8]) -> Option<Vec<u8>> {
        let mut response = None;
        for chunk in request.chunks(7) {
            assert!(response.is_none(), "answered before the frame was whole");
            let going_on = self
                .connection
                .receive(Received::Chunk(chunk.to_vec()), &mut self.diagnostics);
            assert!(going_on);
            match self.connection.next_frame(&mut self.diagnostics) {
                Front::Frame(frame) => {
                    let answer = self.engine.handle_frame(&frame);
                    response = self.connection.answered(answer, &mut self.diagnostics);
                }
                Front::Partial => {}
                Front::Malformed => return None,
            }
        }
        response
    }

    fn round_trip(&mut self, request: &[u8]) -> Vec<u8> {
        let response = self.send(request).expect("response");
        let length = i32::from_be_bytes(response[..4].try_into().expect("length"));
        assert_eq!(length as usize, response.len() - 4);
        assert!(self.connection.sent(true, &mut self.diagnostics));
        response
    }
}

impl Drop for Harness {
    fn drop(&mut self) {
        let _ = self.engine.broker().shutdown();
    }
}

/// Builds request bodies.
#[derive(Default)]
struct Body(Vec<u8>);

impl Body {
    fn i8(mut self, value: i8) -> Self {
        self.0.push(value as u8);
        self
    }

    fn i16(mut self, value: i16) -> Self {
        self.0.extend_from_slice(&value.to_be_bytes());
        self
    }

    fn i32(mut self, value: i32) -> Self {
        self.0.extend_from_slice(&value.to_be_bytes());
        self
    }

    fn i64(mut self, value: i64) -> Self {
        self.0.extend_from_slice(&value.to_be_bytes());
        self
    }

    fn string(self, value: &[u8]) -> Self {
        let mut next = self.i16(value.len() as i16);
        next.0.extend_from_slice(value);
        next
    }

    fn nullable_string(self, value: Option<&[u8]>) -> Self {
        match value {
            Some(value) => self.string(value),
            None => self.i16(-1),
        }
    }

    fn bytes(self, value: &[u8]) -> Self {
        let mut next = self.i32(value.len() as i32);
        next.0.extend_from_slice(value);
        next
    }

    fn frame(self, api_key: i16, api_version: i16, correlation_id: i32) -> Vec<u8> {
        let mut payload = Vec::new();
        payload.extend_from_slice(&api_key.to_be_bytes());
        payload.extend_from_slice(&api_version.to_be_bytes());
        payload.extend_from_slice(&correlation_id.to_be_bytes());
        payload.extend_from_slice(&11i16.to_be_bytes());
        payload.extend_from_slice(b"conformance");
        payload.extend_from_slice(&self.0);
        let mut frame = (payload.len() as i32).to_be_bytes().to_vec();
        frame.extend_from_slice(&payload);
        frame
    }
}

fn body() -> Body {
    Body::default()
}

/// The body of a response to the given request.
fn parsed(response: &[u8], correlation_id: i32) -> Decoder<'_> {
    let correlation = i32::from_be_bytes(response[4..8].try_into().expect("correlation"));
    assert_eq!(correlation, correlation_id);
    Decoder::new(&response[8..])
}

fn varint(value: i64) -> Vec<u8> {
    let mut rest = ((value << 1) ^ (value >> 63)) as u64;
    let mut bytes = Vec::new();
    while rest >= 0x80 {
        bytes.push((rest as u8 & 0x7f) | 0x80);
        rest >>= 7;
    }
    bytes.push(rest as u8);
    bytes
}

/// A batch of one record with key `k`, as a client writes it.
fn batch_of(value: &[u8], producer: (i64, i16), transactional: bool) -> Vec<u8> {
    let mut record = vec![0u8];
    record.extend_from_slice(&varint(0));
    record.extend_from_slice(&varint(0));
    record.extend_from_slice(&varint(1));
    record.extend_from_slice(b"k");
    record.extend_from_slice(&varint(value.len() as i64));
    record.extend_from_slice(value);
    record.extend_from_slice(&varint(0));

    let mut content = Vec::new();
    content.extend_from_slice(&(if transactional { 0x10i16 } else { 0 }).to_be_bytes());
    content.extend_from_slice(&0i32.to_be_bytes());
    content.extend_from_slice(&1_000i64.to_be_bytes());
    content.extend_from_slice(&1_000i64.to_be_bytes());
    content.extend_from_slice(&producer.0.to_be_bytes());
    content.extend_from_slice(&producer.1.to_be_bytes());
    content.extend_from_slice(&(if transactional { 0i32 } else { -1 }).to_be_bytes());
    content.extend_from_slice(&1i32.to_be_bytes());
    content.extend_from_slice(&varint(record.len() as i64));
    content.extend_from_slice(&record);

    let mut batch = 0i64.to_be_bytes().to_vec();
    batch.extend_from_slice(&((content.len() + 9) as i32).to_be_bytes());
    batch.extend_from_slice(&(-1i32).to_be_bytes());
    batch.push(2);
    batch.extend_from_slice(&crc32c(&content).to_be_bytes());
    batch.extend_from_slice(&content);
    batch
}

fn record_batch(value: &[u8]) -> Vec<u8> {
    batch_of(value, (-1, -1), false)
}

fn transactional_record_batch(value: &[u8], producer: (i64, i16)) -> Vec<u8> {
    batch_of(value, producer, true)
}

fn produce_request(
    correlation_id: i32,
    transactional_id: Option<&[u8]>,
    partition: i32,
    batch: &[u8],
) -> Vec<u8> {
    body()
        .nullable_string(transactional_id)
        .i16(-1)
        .i32(30_000)
        .i32(1)
        .string(EVENTS)
        .i32(1)
        .i32(partition)
        .bytes(batch)
        .frame(api::PRODUCE, version::PRODUCE, correlation_id)
}

/// The error code and base offset of a produced partition.
fn parse_produce(response: &[u8], correlation_id: i32, partition: i32) -> (i16, i64) {
    let mut body = parsed(response, correlation_id);
    assert_eq!(body.array_len(), Ok(1));
    assert_eq!(body.string_bytes(), Ok(EVENTS));
    assert_eq!(body.array_len(), Ok(1));
    assert_eq!(body.i32(), Ok(partition));
    let error = body.i16().expect("error");
    let base_offset = body.i64().expect("base offset");
    assert_eq!(body.i64(), Ok(-1));
    assert_eq!(body.i32(), Ok(0));
    assert!(body.done());
    (error, base_offset)
}

fn fetch_request(correlation_id: i32, partition: i32, offset: i64, read_committed: bool) -> Vec<u8> {
    body()
        .i32(-1)
        .i32(0)
        .i32(1)
        .i32(65_536)
        .i8(if read_committed { 1 } else { 0 })
        .i32(1)
        .string(EVENTS)
        .i32(1)
        .i32(partition)
        .i64(offset)
        .i32(65_536)
        .frame(api::FETCH, version::FETCH, correlation_id)
}

struct Fetched {
    error: i16,
    high_watermark: i64,
    last_stable_offset: i64,
    records: Vec<u8>,
}

fn parse_fetch(response: &[u8], correlation_id: i32, partition: i32) -> Fetched {
    let mut body = parsed(response, correlation_id);
    assert_eq!(body.i32(), Ok(0));
    assert_eq!(body.array_len(), Ok(1));
    assert_eq!(body.string_bytes(), Ok(EVENTS));
    assert_eq!(body.array_len(), Ok(1));
    assert_eq!(body.i32(), Ok(partition));
    let error = body.i16().expect("error");
    let high_watermark = body.i64().expect("high watermark");
    let last_stable_offset = body.i64().expect("last stable offset");
    assert_eq!(body.nullable_array_len(), Ok(None));
    let records = body.bytes().expect("bytes").expect("a record set is never null").to_vec();
    assert!(body.done());
    Fetched {
        error,
        high_watermark,
        last_stable_offset,
        records,
    }
}

fn list_offsets_request(correlation_id: i32, partition: i32, earliest: bool) -> Vec<u8> {
    body()
        .i32(-1)
        .i32(1)
        .string(EVENTS)
        .i32(1)
        .i32(partition)
        .i64(if earliest { -2 } else { -1 })
        .frame(api::LIST_OFFSETS, version::LIST_OFFSETS, correlation_id)
}

fn parse_list_offsets(response: &[u8], correlation_id: i32, partition: i32) -> i64 {
    let mut body = parsed(response, correlation_id);
    assert_eq!(body.array_len(), Ok(1));
    assert_eq!(body.string_bytes(), Ok(EVENTS));
    assert_eq!(body.array_len(), Ok(1));
    assert_eq!(body.i32(), Ok(partition));
    assert_eq!(body.i16(), Ok(NO_ERROR));
    assert_eq!(body.i64(), Ok(-1));
    let offset = body.i64().expect("offset");
    assert!(body.done());
    offset
}

/// The error code and the advertised `(api_key, min, max)` entries.
fn parse_api_versions(response: &[u8], correlation_id: i32) -> (i16, Vec<(i16, i16, i16)>) {
    let mut body = parsed(response, correlation_id);
    let error = body.i16().expect("error");
    let count = body.array_len().expect("count");
    let mut versions = Vec::new();
    for _ in 0..count {
        versions.push((
            body.i16().expect("key"),
            body.i16().expect("min"),
            body.i16().expect("max"),
        ));
    }
    assert!(body.done());
    (error, versions)
}

fn supports(versions: &[(i16, i16, i16)], api_key: i16, api_version: i16) -> bool {
    versions
        .iter()
        .any(|(key, min, max)| *key == api_key && *min <= api_version && api_version <= *max)
}

fn init_producer_id_request(correlation_id: i32, transactional_id: &[u8]) -> Vec<u8> {
    body()
        .nullable_string(Some(transactional_id))
        .i32(30_000)
        .frame(api::INIT_PRODUCER_ID, version::INIT_PRODUCER_ID, correlation_id)
}

fn parse_init_producer_id(response: &[u8], correlation_id: i32) -> (i64, i16) {
    let mut body = parsed(response, correlation_id);
    assert_eq!(body.i32(), Ok(0));
    assert_eq!(body.i16(), Ok(NO_ERROR));
    let id = body.i64().expect("producer id");
    let epoch = body.i16().expect("producer epoch");
    assert!(body.done());
    (id, epoch)
}

fn parse_group_error(response: &[u8], correlation_id: i32) -> i16 {
    let mut body = parsed(response, correlation_id);
    let error = body.i16().expect("error");
    assert!(body.done());
    error
}

#[test]
fn api_versions_conforms_to_the_client_codec() {
    let mut harness = harness();
    let request = body().frame(api::API_VERSIONS, version::API_VERSIONS, 7);
    let response = harness.round_trip(&request);
    let (error, versions) = parse_api_versions(&response, 7);
    assert_eq!(error, NO_ERROR);
    for (api_key, version) in [
        (api::PRODUCE, version::PRODUCE),
        (api::FETCH, version::FETCH),
        (api::LIST_OFFSETS, version::LIST_OFFSETS),
        (api::METADATA, version::METADATA),
    ] {
        assert!(supports(&versions, api_key, version), "api {api_key} v{version} not advertised");
    }
    assert!(supports(&versions, api::JOIN_GROUP, version::JOIN_GROUP));
    assert!(supports(&versions, api::SYNC_GROUP, version::SYNC_GROUP));
    assert!(supports(&versions, api::HEARTBEAT, version::HEARTBEAT));
    assert!(supports(&versions, api::LEAVE_GROUP, version::LEAVE_GROUP));
    assert!(supports(&versions, api::OFFSET_COMMIT, version::OFFSET_COMMIT));
    assert!(supports(&versions, api::OFFSET_FETCH, version::OFFSET_FETCH));
    assert!(supports(&versions, api::FIND_COORDINATOR, version::FIND_COORDINATOR));
    assert!(supports(&versions, api::INIT_PRODUCER_ID, version::INIT_PRODUCER_ID));
    assert!(supports(&versions, api::ADD_PARTITIONS_TO_TXN, version::ADD_PARTITIONS_TO_TXN));
    assert!(supports(&versions, api::END_TXN, version::END_TXN));
}

#[test]
fn coordinator_and_transaction_identity_conform_to_client_codec() {
    let mut harness = harness();
    let request = body().string(b"orders").i8(1).frame(
        api::FIND_COORDINATOR,
        version::FIND_COORDINATOR,
        20,
    );
    let response = harness.round_trip(&request);
    let mut coordinator = parsed(&response, 20);
    assert_eq!(coordinator.i32(), Ok(0));
    assert_eq!(coordinator.i16(), Ok(NO_ERROR));
    assert_eq!(coordinator.nullable_string_bytes(), Ok(None));
    assert_eq!(coordinator.i32(), Ok(1));
    assert_eq!(coordinator.string_bytes(), Ok(b"127.0.0.1".as_slice()));
    assert_eq!(coordinator.i32(), Ok(9092));
    assert!(coordinator.done());

    let request = init_producer_id_request(21, b"orders");
    let response = harness.round_trip(&request);
    let (producer_id, producer_epoch) = parse_init_producer_id(&response, 21);
    assert!(producer_id > 0);
    assert_eq!(producer_epoch, 0);
}

#[test]
fn metadata_conforms_to_the_client_codec() {
    let mut harness = harness();
    let request = body()
        .i32(2)
        .string(EVENTS)
        .string(b"missing")
        .frame(api::METADATA, version::METADATA, 11);
    let response = harness.round_trip(&request);
    let mut batch = parsed(&response, 11);

    assert_eq!(batch.array_len(), Ok(1));
    assert_eq!(batch.i32(), Ok(1));
    assert_eq!(batch.string_bytes(), Ok(b"127.0.0.1".as_slice()));
    assert_eq!(batch.i32(), Ok(9092));
    assert_eq!(batch.nullable_string_bytes(), Ok(None));
    assert_eq!(batch.i32(), Ok(1));

    assert_eq!(batch.array_len(), Ok(2));
    assert_eq!(batch.i16(), Ok(NO_ERROR));
    assert_eq!(batch.string_bytes(), Ok(EVENTS));
    assert_eq!(batch.i8(), Ok(0));
    assert_eq!(batch.array_len(), Ok(2));
    for partition in 0..2 {
        assert_eq!(batch.i16(), Ok(NO_ERROR));
        assert_eq!(batch.i32(), Ok(partition));
        assert_eq!(batch.i32(), Ok(1), "leader");
        assert_eq!(batch.array_len(), Ok(1));
        assert_eq!(batch.i32(), Ok(1));
        assert_eq!(batch.array_len(), Ok(1));
        assert_eq!(batch.i32(), Ok(1));
    }

    assert_eq!(batch.i16(), Ok(UNKNOWN_TOPIC_OR_PARTITION));
    assert_eq!(batch.string_bytes(), Ok(b"missing".as_slice()));
    assert_eq!(batch.i8(), Ok(0));
    assert_eq!(batch.array_len(), Ok(0));
    assert!(batch.done());
}

#[test]
fn produce_and_fetch_conform_to_the_client_codec() {
    let mut harness = harness();

    let batch = record_batch(b"first");
    let response = harness.round_trip(&produce_request(1, None, 0, &batch));
    let (error, base_offset) = parse_produce(&response, 1, 0);
    assert_eq!(error, NO_ERROR);
    assert_eq!(base_offset, 0);

    let response = harness.round_trip(&fetch_request(2, 0, 0, true));
    let fetched = parse_fetch(&response, 2, 0);
    assert_eq!(fetched.error, NO_ERROR);
    assert_eq!(fetched.high_watermark, 1);
    assert_eq!(fetched.last_stable_offset, 1);
    let records = decode_record_batches(&fetched.records).expect("records");
    assert_eq!(records.len(), 1);
    assert_eq!(records[0].key.as_deref(), Some(b"k".as_slice()));
    assert_eq!(records[0].value.as_deref(), Some(b"first".as_slice()));

    // A caught-up consumer fetches at the high watermark and must receive an
    // empty record set, not a null one: null record sets break kafka-python.
    let response = harness.round_trip(&fetch_request(3, 0, 1, true));
    let fetched = parse_fetch(&response, 3, 0);
    assert_eq!(fetched.error, NO_ERROR);
    assert_eq!(fetched.high_watermark, 1);
    assert!(fetched.records.is_empty());
}

#[test]
fn list_offsets_conforms_to_the_client_codec() {
    let mut harness = harness();

    let response = harness.round_trip(&list_offsets_request(3, 1, false));
    assert_eq!(parse_list_offsets(&response, 3, 1), 0);

    let batch = record_batch(b"second");
    let response = harness.round_trip(&produce_request(4, None, 1, &batch));
    assert_eq!(parse_produce(&response, 4, 1).1, 0);

    let response = harness.round_trip(&list_offsets_request(5, 1, false));
    assert_eq!(parse_list_offsets(&response, 5, 1), 1);

    let response = harness.round_trip(&list_offsets_request(6, 1, true));
    assert_eq!(parse_list_offsets(&response, 6, 1), 0);
}

#[test]
fn per_partition_errors_are_reported_in_the_response() {
    let mut harness = harness();

    let batch = record_batch(b"x");
    let response = harness.round_trip(&produce_request(1, None, 9, &batch));
    assert_eq!(parse_produce(&response, 1, 9), (UNKNOWN_TOPIC_OR_PARTITION, -1));

    let response = harness.round_trip(&fetch_request(2, 0, 5, false));
    let fetched = parse_fetch(&response, 2, 0);
    assert_eq!(fetched.error, OFFSET_OUT_OF_RANGE);
    assert_eq!(fetched.high_watermark, -1);
    assert_eq!(fetched.last_stable_offset, -1);
}

#[test]
fn transactional_produce_is_rejected() {
    let mut harness = harness();
    let batch = record_batch(b"x");
    let response = harness.round_trip(&produce_request(1, Some(b"txn"), 0, &batch));
    assert_eq!(parse_produce(&response, 1, 0).0, UNSUPPORTED_VERSION);
}

#[test]
fn transactional_lifecycle_conforms_to_client_codec() {
    let mut harness = harness();
    let init = init_producer_id_request(30, b"txn");
    let identity = parse_init_producer_id(&harness.round_trip(&init), 30);
    let enlist = body()
        .string(b"txn")
        .i64(identity.0)
        .i16(identity.1)
        .i32(1)
        .string(EVENTS)
        .i32(1)
        .i32(0)
        .frame(api::ADD_PARTITIONS_TO_TXN, version::ADD_PARTITIONS_TO_TXN, 31);
    let response = harness.round_trip(&enlist);
    let mut enlisted = parsed(&response, 31);
    assert_eq!(enlisted.i32(), Ok(0));
    assert_eq!(enlisted.array_len(), Ok(1));
    assert_eq!(enlisted.string_bytes(), Ok(EVENTS));
    assert_eq!(enlisted.array_len(), Ok(1));
    assert_eq!(enlisted.i32(), Ok(0));
    assert_eq!(enlisted.i16(), Ok(NO_ERROR));
    assert!(enlisted.done());
    let batch = transactional_record_batch(b"transactional", identity);
    let produce = produce_request(32, Some(b"txn"), 0, &batch);
    assert_eq!(parse_produce(&harness.round_trip(&produce), 32, 0).0, NO_ERROR);
    let end = body()
        .string(b"txn")
        .i64(identity.0)
        .i16(identity.1)
        .i8(1)
        .frame(api::END_TXN, version::END_TXN, 33);
    let response = harness.round_trip(&end);
    let mut ended = parsed(&response, 33);
    assert_eq!(ended.i32(), Ok(0));
    assert_eq!(ended.i16(), Ok(NO_ERROR));
    assert!(ended.done());
}

#[test]
fn consumer_group_lifecycle_conforms_to_client_codec() {
    let mut harness = harness();
    let subscription = body().i16(0).i32(1).string(EVENTS).i32(-1).0;
    let join = body()
        .string(b"workers")
        .i32(10_000)
        .i32(10_000)
        .string(b"")
        .string(b"consumer")
        .i32(1)
        .string(b"charlotte-fixed-v1")
        .bytes(&subscription)
        .frame(api::JOIN_GROUP, version::JOIN_GROUP, 40);
    let response = harness.round_trip(&join);
    let mut joined = parsed(&response, 40);
    assert_eq!(joined.i16(), Ok(NO_ERROR));
    let generation = joined.i32().expect("generation");
    assert_eq!(generation, 1);
    assert_eq!(joined.string_bytes(), Ok(b"charlotte-fixed-v1".as_slice()));
    assert_eq!(joined.string_bytes(), Ok(b"member-40".as_slice()), "leader");
    let member_id = joined.string_bytes().expect("member").to_vec();
    assert_eq!(member_id, b"member-40");
    assert_eq!(joined.array_len(), Ok(1));
    assert_eq!(joined.string_bytes(), Ok(b"member-40".as_slice()));
    assert_eq!(joined.bytes(), Ok(Some(subscription.as_slice())));
    assert!(joined.done());

    let sync = body()
        .string(b"workers")
        .i32(generation)
        .string(&member_id)
        .i32(1)
        .string(&member_id)
        .bytes(b"assignment")
        .frame(api::SYNC_GROUP, version::SYNC_GROUP, 41);
    let response = harness.round_trip(&sync);
    let mut synced = parsed(&response, 41);
    assert_eq!(synced.i16(), Ok(NO_ERROR));
    assert_eq!(synced.bytes(), Ok(Some(b"assignment".as_slice())));
    assert!(synced.done());

    let heartbeat = body()
        .string(b"workers")
        .i32(generation)
        .string(&member_id)
        .frame(api::HEARTBEAT, version::HEARTBEAT, 42);
    assert_eq!(parse_group_error(&harness.round_trip(&heartbeat), 42), NO_ERROR);

    let commit = body()
        .string(b"workers")
        .i32(generation)
        .string(&member_id)
        .i64(-1)
        .i32(1)
        .string(EVENTS)
        .i32(1)
        .i32(0)
        .i64(7)
        .nullable_string(None)
        .frame(api::OFFSET_COMMIT, version::OFFSET_COMMIT, 43);
    let response = harness.round_trip(&commit);
    let mut committed = parsed(&response, 43);
    assert_eq!(committed.array_len(), Ok(1));
    assert_eq!(committed.string_bytes(), Ok(EVENTS));
    assert_eq!(committed.array_len(), Ok(1));
    assert_eq!(committed.i32(), Ok(0));
    assert_eq!(committed.i16(), Ok(NO_ERROR));
    assert!(committed.done());

    let fetch = body().string(b"workers").i32(1).string(EVENTS).i32(1).i32(0).frame(
        api::OFFSET_FETCH,
        version::OFFSET_FETCH,
        44,
    );
    let response = harness.round_trip(&fetch);
    let mut fetched = parsed(&response, 44);
    assert_eq!(fetched.array_len(), Ok(1));
    assert_eq!(fetched.string_bytes(), Ok(EVENTS));
    assert_eq!(fetched.array_len(), Ok(1));
    assert_eq!(fetched.i32(), Ok(0));
    assert_eq!(fetched.i64(), Ok(7));
    assert_eq!(fetched.nullable_string_bytes(), Ok(None));
    assert_eq!(fetched.i16(), Ok(NO_ERROR));
    assert!(fetched.done());

    let leave = body().string(b"workers").string(&member_id).frame(
        api::LEAVE_GROUP,
        version::LEAVE_GROUP,
        45,
    );
    assert_eq!(parse_group_error(&harness.round_trip(&leave), 45), NO_ERROR);
}

#[test]
fn malformed_request_closes_the_connection() {
    let mut harness = harness();

    let mut frame = body().frame(api::API_VERSIONS, version::API_VERSIONS, 9);
    frame[4..6].copy_from_slice(&0x7f00i16.to_be_bytes());
    assert_eq!(harness.engine.handle_frame(&frame), Err(Error::UnsupportedApi));
    assert!(
        harness.send(&frame).is_none(),
        "server must close after an unsupported API key"
    );
    assert_eq!(harness.diagnostics.engine_errors, 1);
}

#[test]
fn unsupported_api_versions_version_returns_a_downgrade_response() {
    let mut harness = harness();

    // A modern client may probe a version we do not implement. Kafka expects
    // a v0 body with UNSUPPORTED_VERSION and the advertised list so the client
    // can retry with a version the broker accepts.
    let correlation: i32 = 21;
    let mut body = Vec::new();
    body.extend_from_slice(&api::API_VERSIONS.to_be_bytes());
    body.extend_from_slice(&3i16.to_be_bytes());
    body.extend_from_slice(&correlation.to_be_bytes());
    body.extend_from_slice(&(-1i16).to_be_bytes());
    body.push(0);
    let mut frame = Vec::new();
    frame.extend_from_slice(&(body.len() as i32).to_be_bytes());
    frame.extend_from_slice(&body);

    let response = harness.round_trip(&frame);
    let (error, versions) = parse_api_versions(&response, correlation);
    assert_eq!(error, UNSUPPORTED_VERSION);
    assert!(versions.iter().any(|(key, min, max)| {
        *key == api::PRODUCE && *min <= version::PRODUCE && version::PRODUCE <= *max
    }));
}

#[test]
fn other_timestamps_are_not_supported() {
    let mut harness = harness();
    let request = body()
        .i32(-1)
        .i32(1)
        .string(EVENTS)
        .i32(1)
        .i32(0)
        .i64(1_000)
        .frame(api::LIST_OFFSETS, version::LIST_OFFSETS, 3);
    let response = harness.round_trip(&request);
    let mut listed = parsed(&response, 3);
    assert_eq!(listed.array_len(), Ok(1));
    assert_eq!(listed.string_bytes(), Ok(EVENTS));
    assert_eq!(listed.array_len(), Ok(1));
    assert_eq!(listed.i32(), Ok(0));
    assert_eq!(listed.i16(), Ok(UNSUPPORTED_VERSION));
    assert_eq!(listed.i64(), Ok(-1));
    assert_eq!(listed.i64(), Ok(-1));
    assert!(listed.done());
}

#[test]
fn metadata_of_everything_lists_every_topic() {
    let mut harness = harness();
    let request = body().i32(-1).frame(api::METADATA, version::METADATA, 4);
    let response = harness.round_trip(&request);
    let mut listed = parsed(&response, 4);
    assert_eq!(listed.array_len(), Ok(1));
    assert_eq!(listed.i32(), Ok(1));
    assert_eq!(listed.string_bytes(), Ok(b"127.0.0.1".as_slice()));
    assert_eq!(listed.i32(), Ok(9092));
    assert_eq!(listed.nullable_string_bytes(), Ok(None));
    assert_eq!(listed.i32(), Ok(1));
    assert_eq!(listed.array_len(), Ok(1));
    assert_eq!(listed.i16(), Ok(NO_ERROR));
    assert_eq!(listed.string_bytes(), Ok(EVENTS));
}

#[test]
fn producers_without_a_transactional_id_get_no_identity() {
    let mut harness = harness();
    let request = body()
        .nullable_string(None)
        .i32(30_000)
        .frame(api::INIT_PRODUCER_ID, version::INIT_PRODUCER_ID, 5);
    let response = harness.round_trip(&request);
    let mut refused = parsed(&response, 5);
    assert_eq!(refused.i32(), Ok(0));
    assert_eq!(refused.i16(), Ok(42));
    assert_eq!(refused.i64(), Ok(-1));
    assert_eq!(refused.i16(), Ok(-1));
    assert!(refused.done());
}
