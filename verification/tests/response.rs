//! Response encoding.

use charlotte_kafka_broker::broker_core::Record;
use charlotte_kafka_broker::broker_wire::codec::Decoder;
use charlotte_kafka_broker::broker_wire::protocol::{
    api, is_supported_api, version, COORDINATION_VERSIONS, NO_ERROR, SUPPORTED_VERSIONS,
    UNSUPPORTED_VERSION,
};
use charlotte_kafka_broker::broker_wire::record_batch::decode_record_batches;
use charlotte_kafka_broker::broker_wire::{
    encode_add_partitions_to_txn, encode_api_versions, encode_api_versions_error, encode_end_txn,
    encode_fetch, encode_find_coordinator, encode_group_error, encode_init_producer_id,
    encode_join_group, encode_list_offsets, encode_metadata, encode_offset_commit,
    encode_offset_fetch, encode_produce, encode_sync_group, BrokerMetadata, Error,
    FetchPartitionResult, FetchResponse, FetchTopicResult, FindCoordinatorResponse,
    InitProducerIdResponse, JoinGroupResponse, ListOffsetsPartitionResult, ListOffsetsResponse,
    ListOffsetsTopicResult, MetadataResponse, PartitionMetadata, ProducePartitionResult,
    ProduceResponse, ProduceTopicResult, TopicMetadata, TransactionPartitionResult,
};

fn response_body<'a>(frame: &'a [u8], correlation_id: i32) -> Decoder<'a> {
    let declared = i32::from_be_bytes(frame[..4].try_into().expect("length"));
    assert_eq!(declared as usize, frame.len() - 4);
    let correlation = i32::from_be_bytes(frame[4..8].try_into().expect("correlation"));
    assert_eq!(correlation, correlation_id);
    Decoder::new(&frame[8..])
}

#[test]
fn api_versions_response_lists_the_subset() {
    let frame = encode_api_versions(7, &SUPPORTED_VERSIONS).expect("encode");
    let mut body = response_body(&frame, 7);
    assert_eq!(body.i16(), Ok(NO_ERROR));
    let count = body.array_len().expect("count");
    assert_eq!(count, SUPPORTED_VERSIONS.len());
    for (api_key, min, max) in &SUPPORTED_VERSIONS {
        assert_eq!(body.i16(), Ok(*api_key));
        assert_eq!(body.i16(), Ok(*min));
        assert_eq!(body.i16(), Ok(*max));
    }
    assert!(body.done());
}

#[test]
fn metadata_response_round_trips() {
    let response = MetadataResponse {
        brokers: vec![BrokerMetadata {
            node_id: 1,
            host: b"node-1.test".to_vec(),
            port: 9092,
        }],
        controller_id: 1,
        topics: vec![TopicMetadata {
            error: NO_ERROR,
            name: b"events".to_vec(),
            is_internal: false,
            partitions: vec![PartitionMetadata {
                error: NO_ERROR,
                partition: 0,
                leader: 1,
                replicas: vec![1],
                isr: vec![1],
            }],
        }],
    };
    let frame = encode_metadata(21, &response).expect("encode");
    let mut body = response_body(&frame, 21);
    assert_eq!(body.array_len(), Ok(1));
    assert_eq!(body.i32(), Ok(1));
    assert_eq!(body.string_bytes(), Ok(b"node-1.test".as_slice()));
    assert_eq!(body.i32(), Ok(9092));
    assert_eq!(body.nullable_string_bytes(), Ok(None));
    assert_eq!(body.i32(), Ok(1));
    assert_eq!(body.array_len(), Ok(1));
    assert_eq!(body.i16(), Ok(NO_ERROR));
    assert_eq!(body.string_bytes(), Ok(b"events".as_slice()));
    assert_eq!(body.i8(), Ok(0));
    assert_eq!(body.array_len(), Ok(1));
    assert_eq!(body.i16(), Ok(NO_ERROR));
    assert_eq!(body.i32(), Ok(0));
    assert_eq!(body.i32(), Ok(1));
    assert_eq!(body.array_len(), Ok(1));
    assert_eq!(body.i32(), Ok(1));
    assert_eq!(body.array_len(), Ok(1));
    assert_eq!(body.i32(), Ok(1));
    assert!(body.done());
}

#[test]
fn produce_response_round_trips() {
    let response = ProduceResponse {
        topics: vec![ProduceTopicResult {
            name: b"events".to_vec(),
            partitions: vec![ProducePartitionResult {
                partition: 2,
                error: NO_ERROR,
                base_offset: 41,
                log_append_time_ms: -1,
            }],
        }],
        throttle_time_ms: 0,
    };
    let frame = encode_produce(3, &response).expect("encode");
    let mut body = response_body(&frame, 3);
    assert_eq!(body.array_len(), Ok(1));
    assert_eq!(body.string_bytes(), Ok(b"events".as_slice()));
    assert_eq!(body.array_len(), Ok(1));
    assert_eq!(body.i32(), Ok(2));
    assert_eq!(body.i16(), Ok(NO_ERROR));
    assert_eq!(body.i64(), Ok(41));
    assert_eq!(body.i64(), Ok(-1));
    assert_eq!(body.i32(), Ok(0));
    assert!(body.done());
}

#[test]
fn fetch_response_carries_record_batches() {
    let records = vec![
        Record {
            offset: 5,
            timestamp_ms: 1_000,
            key: Some(b"k".to_vec()),
            value: Some(b"first".to_vec()),
        },
        Record {
            offset: 6,
            timestamp_ms: 1_001,
            key: None,
            value: Some(b"second".to_vec()),
        },
    ];
    let response = FetchResponse {
        throttle_time_ms: 0,
        topics: vec![FetchTopicResult {
            name: b"events".to_vec(),
            partitions: vec![FetchPartitionResult {
                partition: 0,
                error: NO_ERROR,
                high_watermark: 7,
                last_stable_offset: 7,
                aborted_transactions: None,
                records: records.clone(),
            }],
        }],
    };
    let frame = encode_fetch(4, &response).expect("encode");
    let mut body = response_body(&frame, 4);
    assert_eq!(body.i32(), Ok(0));
    assert_eq!(body.array_len(), Ok(1));
    assert_eq!(body.string_bytes(), Ok(b"events".as_slice()));
    assert_eq!(body.array_len(), Ok(1));
    assert_eq!(body.i32(), Ok(0));
    assert_eq!(body.i16(), Ok(NO_ERROR));
    assert_eq!(body.i64(), Ok(7));
    assert_eq!(body.i64(), Ok(7));
    assert_eq!(body.nullable_array_len(), Ok(None));
    let set = body.bytes().expect("bytes").expect("record set");
    assert_eq!(
        decode_record_batches(set).expect("decode"),
        records.into_iter().map(Into::into).collect::<Vec<_>>()
    );
    assert!(body.done());
}

#[test]
fn list_offsets_response_round_trips() {
    let response = ListOffsetsResponse {
        topics: vec![ListOffsetsTopicResult {
            name: b"events".to_vec(),
            partitions: vec![ListOffsetsPartitionResult {
                partition: 1,
                error: NO_ERROR,
                timestamp_ms: -1,
                offset: 9,
            }],
        }],
    };
    let frame = encode_list_offsets(5, &response).expect("encode");
    let mut body = response_body(&frame, 5);
    assert_eq!(body.array_len(), Ok(1));
    assert_eq!(body.string_bytes(), Ok(b"events".as_slice()));
    assert_eq!(body.array_len(), Ok(1));
    assert_eq!(body.i32(), Ok(1));
    assert_eq!(body.i16(), Ok(NO_ERROR));
    assert_eq!(body.i64(), Ok(-1));
    assert_eq!(body.i64(), Ok(9));
    assert!(body.done());
}

#[test]
fn api_versions_advertises_only_the_implemented_versions() {
    for (api_key, min, max) in &SUPPORTED_VERSIONS {
        assert_eq!(min, max);
        assert!(matches!(
            *api_key,
            api::PRODUCE | api::FETCH | api::LIST_OFFSETS | api::METADATA | api::API_VERSIONS
        ));
        assert_eq!(
            *min,
            match *api_key {
                api::PRODUCE => version::PRODUCE,
                api::FETCH => version::FETCH,
                api::LIST_OFFSETS => version::LIST_OFFSETS,
                api::METADATA => version::METADATA,
                api::API_VERSIONS => version::API_VERSIONS,
                _ => unreachable!(),
            }
        );
    }
}

/// A response frame with the given body.
fn framed(correlation_id: i32, body: &[&[u8]]) -> Vec<u8> {
    let body = body.concat();
    let mut frame = ((body.len() + 4) as i32).to_be_bytes().to_vec();
    frame.extend_from_slice(&correlation_id.to_be_bytes());
    frame.extend_from_slice(&body);
    frame
}

#[test]
fn short_responses_are_laid_out_exactly() {
    assert_eq!(
        encode_api_versions_error(8, UNSUPPORTED_VERSION, &[(3, 1, 2)]),
        Ok(framed(8, &[b"\0\x23", b"\0\0\0\x01", b"\0\x03\0\x01\0\x02"]))
    );
    assert_eq!(encode_group_error(-2, 16), Ok(framed(-2, &[b"\0\x10"])));
    assert_eq!(encode_end_txn(5, NO_ERROR), Ok(framed(5, &[b"\0\0\0\0", b"\0\0"])));
    assert_eq!(
        encode_sync_group(6, NO_ERROR, b"mine"),
        Ok(framed(6, &[b"\0\0", b"\0\0\0\x04mine"]))
    );
    assert_eq!(
        encode_init_producer_id(
            7,
            InitProducerIdResponse {
                error: NO_ERROR,
                producer_id: 258,
                producer_epoch: 3,
            }
        ),
        Ok(framed(7, &[b"\0\0\0\0", b"\0\0", b"\0\0\0\0\0\0\x01\x02", b"\0\x03"]))
    );
    assert_eq!(
        encode_find_coordinator(
            9,
            &FindCoordinatorResponse {
                error: NO_ERROR,
                node_id: 1,
                host: b"h".to_vec(),
                port: 9092,
            }
        ),
        Ok(framed(
            9,
            &[b"\0\0\0\0", b"\0\0", b"\xff\xff", b"\0\0\0\x01", b"\0\x01h", b"\0\0\x23\x84"]
        ))
    );
    assert_eq!(
        encode_offset_commit(10, b"events", 2, NO_ERROR),
        Ok(framed(
            10,
            &[b"\0\0\0\x01", b"\0\x06events", b"\0\0\0\x01", b"\0\0\0\x02", b"\0\0"]
        ))
    );
    assert_eq!(
        encode_offset_fetch(11, b"events", 2, -1, NO_ERROR),
        Ok(framed(
            11,
            &[
                b"\0\0\0\x01",
                b"\0\x06events",
                b"\0\0\0\x01",
                b"\0\0\0\x02",
                b"\xff\xff\xff\xff\xff\xff\xff\xff",
                b"\xff\xff",
                b"\0\0",
            ]
        ))
    );
    assert_eq!(
        encode_add_partitions_to_txn(
            12,
            &[TransactionPartitionResult {
                topic: b"events".to_vec(),
                partitions: vec![(1, NO_ERROR), (2, 48)],
            }]
        ),
        Ok(framed(
            12,
            &[
                b"\0\0\0\0",
                b"\0\0\0\x01",
                b"\0\x06events",
                b"\0\0\0\x02",
                b"\0\0\0\x01\0\0",
                b"\0\0\0\x02\0\x30",
            ]
        ))
    );
    assert_eq!(
        encode_join_group(
            13,
            &JoinGroupResponse {
                error: NO_ERROR,
                generation: 4,
                protocol: b"p".to_vec(),
                leader: b"l".to_vec(),
                member_id: b"m".to_vec(),
                members: vec![(b"m".to_vec(), b"data".to_vec())],
            }
        ),
        Ok(framed(
            13,
            &[
                b"\0\0",
                b"\0\0\0\x04",
                b"\0\x01p",
                b"\0\x01l",
                b"\0\x01m",
                b"\0\0\0\x01",
                b"\0\x01m",
                b"\0\0\0\x04data",
            ]
        ))
    );
}

#[test]
fn empty_fetches_have_an_empty_record_set() {
    let response = FetchResponse {
        throttle_time_ms: 0,
        topics: vec![FetchTopicResult {
            name: b"e".to_vec(),
            partitions: vec![FetchPartitionResult {
                partition: 0,
                error: NO_ERROR,
                high_watermark: 0,
                last_stable_offset: 0,
                aborted_transactions: Some(vec![(1, 2)]),
                records: Vec::new(),
            }],
        }],
    };
    let frame = encode_fetch(1, &response).expect("encode");
    let mut body = response_body(&frame, 1);
    assert_eq!(body.i32(), Ok(0));
    assert_eq!(body.array_len(), Ok(1));
    assert_eq!(body.string_bytes(), Ok(b"e".as_slice()));
    assert_eq!(body.array_len(), Ok(1));
    assert_eq!(body.i32(), Ok(0));
    assert_eq!(body.i16(), Ok(NO_ERROR));
    assert_eq!(body.i64(), Ok(0));
    assert_eq!(body.i64(), Ok(0));
    assert_eq!(body.nullable_array_len(), Ok(Some(1)));
    assert_eq!(body.i64(), Ok(1));
    assert_eq!(body.i64(), Ok(2));
    assert_eq!(body.bytes(), Ok(Some(b"".as_slice())));
    assert!(body.done());
}

#[test]
fn strings_beyond_the_bound_are_not_encoded() {
    let name = vec![b'x'; 8 * 1024 + 1];
    let response = |name: &[u8]| ListOffsetsResponse {
        topics: vec![ListOffsetsTopicResult {
            name: name.to_vec(),
            partitions: Vec::new(),
        }],
    };
    assert_eq!(encode_list_offsets(1, &response(&name)), Err(Error::TooLarge));
    assert!(encode_list_offsets(1, &response(&name[1..])).is_ok());
}

#[test]
fn every_implemented_api_is_known() {
    for (api_key, min, max) in COORDINATION_VERSIONS {
        assert_eq!(min, max);
        assert!(is_supported_api(api_key));
    }
    for (api_key, _, _) in SUPPORTED_VERSIONS {
        assert!(is_supported_api(api_key));
    }
    for api_key in [4, 7, 15, 25, 99, -1] {
        assert!(!is_supported_api(api_key));
    }
}
