//! Request decoding.

use charlotte_kafka_broker::broker_core::Record;
use charlotte_kafka_broker::broker_wire::protocol::{api, version};
use charlotte_kafka_broker::broker_wire::record_batch::encode_record_batch;
use charlotte_kafka_broker::broker_wire::{decode_request, peek_header, Error, RequestBody};

fn frame(
    api_key: i16,
    api_version: i16,
    correlation: i32,
    client_id: &[u8],
    body: &[u8],
) -> Vec<u8> {
    let mut frame = Vec::new();
    frame.extend_from_slice(&0i32.to_be_bytes());
    frame.extend_from_slice(&api_key.to_be_bytes());
    frame.extend_from_slice(&api_version.to_be_bytes());
    frame.extend_from_slice(&correlation.to_be_bytes());
    frame.extend_from_slice(&(client_id.len() as i16).to_be_bytes());
    frame.extend_from_slice(client_id);
    frame.extend_from_slice(body);
    let payload = (frame.len() - 4) as i32;
    frame[..4].copy_from_slice(&payload.to_be_bytes());
    frame
}

fn metadata_body(topics: &[&[u8]]) -> Vec<u8> {
    let mut body = Vec::new();
    body.extend_from_slice(&(topics.len() as i32).to_be_bytes());
    for topic in topics {
        body.extend_from_slice(&(topic.len() as i16).to_be_bytes());
        body.extend_from_slice(topic);
    }
    body
}

#[test]
fn decodes_metadata_request_header_and_topics() {
    let frame = frame(
        api::METADATA,
        version::METADATA,
        0x0102_0304,
        b"charlotte",
        &metadata_body(&[b"events", b"results"]),
    );
    let request = decode_request(&frame).expect("decode");
    assert_eq!(request.header.api_key, api::METADATA);
    assert_eq!(request.header.correlation_id, 0x0102_0304);
    assert_eq!(request.header.client_id.as_deref(), Some(b"charlotte".as_slice()));
    match request.body {
        RequestBody::Metadata {
            topics: Some(topics),
        } => {
            assert_eq!(topics, [b"events".to_vec(), b"results".to_vec()]);
        }
        other => panic!("unexpected body: {other:?}"),
    }
}

#[test]
fn decodes_api_versions_request_with_empty_body() {
    let frame = frame(api::API_VERSIONS, version::API_VERSIONS, 9, b"client", &[]);
    let request = decode_request(&frame).expect("decode");
    assert_eq!(request.body, RequestBody::ApiVersions);
}

#[test]
fn decodes_produce_request_with_record_batch() {
    let batch = encode_record_batch(
        0,
        &[
            Record {
                offset: 0,
                timestamp_ms: 1_000,
                key: Some(b"k".to_vec()),
                value: Some(b"first".to_vec()),
            },
            Record {
                offset: 1,
                timestamp_ms: 1_005,
                key: None,
                value: Some(b"second".to_vec()),
            },
        ],
    )
    .expect("encode batch");

    let mut body = Vec::new();
    body.extend_from_slice(&(-1i16).to_be_bytes());
    body.extend_from_slice(&(-1i16).to_be_bytes());
    body.extend_from_slice(&30_000i32.to_be_bytes());
    body.extend_from_slice(&1i32.to_be_bytes());
    body.extend_from_slice(&6i16.to_be_bytes());
    body.extend_from_slice(b"events");
    body.extend_from_slice(&1i32.to_be_bytes());
    body.extend_from_slice(&2i32.to_be_bytes());
    body.extend_from_slice(&(batch.len() as i32).to_be_bytes());
    body.extend_from_slice(&batch);

    let frame = frame(api::PRODUCE, version::PRODUCE, 11, b"client", &body);
    let request = decode_request(&frame).expect("decode");
    match request.body {
        RequestBody::Produce {
            transactional_id,
            acks,
            topics,
            ..
        } => {
            assert!(transactional_id.is_none());
            assert_eq!(acks, -1);
            assert_eq!(topics.len(), 1);
            assert_eq!(topics[0].name, b"events");
            assert_eq!(topics[0].partitions.len(), 1);
            assert_eq!(topics[0].partitions[0].partition, 2);
            let records = &topics[0].partitions[0].records;
            assert_eq!(records.len(), 2);
            assert_eq!(records[0].key.as_deref(), Some(b"k".as_slice()));
            assert_eq!(records[1].timestamp_ms, 1_005);
        }
        other => panic!("unexpected body: {other:?}"),
    }
}

#[test]
fn rejects_unsupported_api_and_version() {
    let request = frame(99, 0, 1, b"client", &[]);
    assert_eq!(decode_request(&request), Err(Error::UnsupportedApi));
    let request = frame(api::PRODUCE, 99, 1, b"client", &[]);
    assert_eq!(decode_request(&request), Err(Error::UnsupportedVersion));
}

#[test]
fn rejects_truncated_and_trailing_frames() {
    let mut request = frame(api::API_VERSIONS, version::API_VERSIONS, 1, b"client", &[]);
    request.truncate(request.len() - 1);
    assert_eq!(decode_request(&request), Err(Error::Incomplete));

    let request = frame(api::API_VERSIONS, version::API_VERSIONS, 1, b"client", &[0]);
    assert_eq!(decode_request(&request), Err(Error::Invalid));
}

fn string(value: &[u8]) -> Vec<u8> {
    let mut bytes = (value.len() as i16).to_be_bytes().to_vec();
    bytes.extend_from_slice(value);
    bytes
}

fn joined(parts: &[&[u8]]) -> Vec<u8> {
    parts.concat()
}

fn decoded(api_key: i16, api_version: i16, body: &[u8]) -> Result<RequestBody, Error> {
    decode_request(&frame(api_key, api_version, 5, b"client", body)).map(|request| request.body)
}

#[test]
fn metadata_of_all_topics_is_a_null_list() {
    let body = (-1i32).to_be_bytes();
    assert_eq!(
        decoded(api::METADATA, version::METADATA, &body),
        Ok(RequestBody::Metadata { topics: None })
    );
    assert_eq!(
        decoded(api::METADATA, version::METADATA, &metadata_body(&[b""])),
        Err(Error::Invalid)
    );
}

#[test]
fn decodes_transaction_requests() {
    let body = joined(&[&string(b"orders"), &30i32.to_be_bytes()]);
    assert_eq!(
        decoded(api::INIT_PRODUCER_ID, version::INIT_PRODUCER_ID, &body),
        Ok(RequestBody::InitProducerId {
            transactional_id: Some(b"orders".to_vec()),
            timeout_ms: 30,
        })
    );
    let body = joined(&[
        &string(b"orders"),
        &4i64.to_be_bytes(),
        &2i16.to_be_bytes(),
        &1i32.to_be_bytes(),
        &string(b"events"),
        &2i32.to_be_bytes(),
        &0i32.to_be_bytes(),
        &3i32.to_be_bytes(),
    ]);
    assert_eq!(
        decoded(api::ADD_PARTITIONS_TO_TXN, version::ADD_PARTITIONS_TO_TXN, &body),
        Ok(RequestBody::AddPartitionsToTxn {
            transactional_id: b"orders".to_vec(),
            producer_id: 4,
            producer_epoch: 2,
            topics: vec![(b"events".to_vec(), vec![0, 3])],
        })
    );
    let end = |commit: u8| {
        joined(&[&string(b"orders"), &4i64.to_be_bytes(), &2i16.to_be_bytes(), &[commit]])
    };
    assert_eq!(
        decoded(api::END_TXN, version::END_TXN, &end(0)),
        Ok(RequestBody::EndTxn {
            transactional_id: b"orders".to_vec(),
            producer_id: 4,
            producer_epoch: 2,
            commit: false,
        })
    );
    assert_eq!(decoded(api::END_TXN, version::END_TXN, &end(2)), Err(Error::Invalid));
}

#[test]
fn decodes_coordinator_requests() {
    let find = |kind: u8| joined(&[&string(b"workers"), &[kind]]);
    assert_eq!(
        decoded(api::FIND_COORDINATOR, version::FIND_COORDINATOR, &find(0)),
        Ok(RequestBody::FindCoordinator {
            key: b"workers".to_vec(),
            key_type: 0,
        })
    );
    assert_eq!(
        decoded(api::FIND_COORDINATOR, version::FIND_COORDINATOR, &find(2)),
        Err(Error::Invalid)
    );
    let heartbeat = joined(&[&string(b"workers"), &3i32.to_be_bytes(), &string(b"m")]);
    assert_eq!(
        decoded(api::HEARTBEAT, version::HEARTBEAT, &heartbeat),
        Ok(RequestBody::Heartbeat {
            group_id: b"workers".to_vec(),
            generation: 3,
            member_id: b"m".to_vec(),
        })
    );
    let leave = joined(&[&string(b"workers"), &string(b"m")]);
    assert_eq!(
        decoded(api::LEAVE_GROUP, version::LEAVE_GROUP, &leave),
        Ok(RequestBody::LeaveGroup {
            group_id: b"workers".to_vec(),
            member_id: b"m".to_vec(),
        })
    );
}

#[test]
fn join_reads_the_first_protocol_only() {
    let metadata = joined(&[
        &0i16.to_be_bytes(),
        &2i32.to_be_bytes(),
        &string(b"events"),
        &string(b"results"),
        &(-1i32).to_be_bytes(),
    ]);
    let protocol = |name: &[u8], bytes: &[u8]| {
        joined(&[&string(name), &(bytes.len() as i32).to_be_bytes(), bytes])
    };
    let join = |session: i32, protocols: &[Vec<u8>]| {
        joined(&[
            &string(b"workers"),
            &session.to_be_bytes(),
            &10i32.to_be_bytes(),
            &string(b""),
            &string(b"consumer"),
            &(protocols.len() as i32).to_be_bytes(),
            &protocols.concat(),
        ])
    };
    let protocols = [protocol(b"range", &metadata), protocol(b"other", b"anything")];
    assert_eq!(
        decoded(api::JOIN_GROUP, version::JOIN_GROUP, &join(10, &protocols)),
        Ok(RequestBody::JoinGroup {
            group_id: b"workers".to_vec(),
            member_id: Vec::new(),
            subscriptions: vec![b"events".to_vec(), b"results".to_vec()],
        })
    );
    assert_eq!(
        decoded(api::JOIN_GROUP, version::JOIN_GROUP, &join(-1, &protocols)),
        Err(Error::Invalid)
    );
    assert_eq!(
        decoded(api::JOIN_GROUP, version::JOIN_GROUP, &join(10, &[])),
        Err(Error::Invalid)
    );
}

#[test]
fn sync_keeps_the_first_assignment_that_says_something() {
    let entry = |member: &[u8], bytes: &[u8]| {
        joined(&[&string(member), &(bytes.len() as i32).to_be_bytes(), bytes])
    };
    let body = joined(&[
        &string(b"workers"),
        &1i32.to_be_bytes(),
        &string(b"m"),
        &3i32.to_be_bytes(),
        &entry(b"a", b""),
        &entry(b"b", b"second"),
        &entry(b"c", b"third"),
    ]);
    assert_eq!(
        decoded(api::SYNC_GROUP, version::SYNC_GROUP, &body),
        Ok(RequestBody::SyncGroup {
            group_id: b"workers".to_vec(),
            generation: 1,
            member_id: b"m".to_vec(),
            assignment: b"second".to_vec(),
        })
    );
}

#[test]
fn offset_requests_are_about_one_partition() {
    let commit = |topics: i32, partitions: i32| {
        joined(&[
            &string(b"workers"),
            &1i32.to_be_bytes(),
            &string(b"m"),
            &(-1i64).to_be_bytes(),
            &topics.to_be_bytes(),
            &string(b"events"),
            &partitions.to_be_bytes(),
            &2i32.to_be_bytes(),
            &9i64.to_be_bytes(),
            &(-1i16).to_be_bytes(),
        ])
    };
    assert_eq!(
        decoded(api::OFFSET_COMMIT, version::OFFSET_COMMIT, &commit(1, 1)),
        Ok(RequestBody::OffsetCommit {
            group_id: b"workers".to_vec(),
            generation: 1,
            member_id: b"m".to_vec(),
            topic: b"events".to_vec(),
            partition: 2,
            offset: 9,
        })
    );
    assert_eq!(
        decoded(api::OFFSET_COMMIT, version::OFFSET_COMMIT, &commit(2, 1)),
        Err(Error::Invalid)
    );
    assert_eq!(
        decoded(api::OFFSET_COMMIT, version::OFFSET_COMMIT, &commit(1, 2)),
        Err(Error::Invalid)
    );
    let fetch = joined(&[
        &string(b"workers"),
        &1i32.to_be_bytes(),
        &string(b"events"),
        &1i32.to_be_bytes(),
        &2i32.to_be_bytes(),
    ]);
    assert_eq!(
        decoded(api::OFFSET_FETCH, version::OFFSET_FETCH, &fetch),
        Ok(RequestBody::OffsetFetch {
            group_id: b"workers".to_vec(),
            topic: b"events".to_vec(),
            partition: 2,
        })
    );
}

#[test]
fn fetch_bounds_must_not_be_negative() {
    let fetch = |wait: i32, max: i32, isolation: u8, partition_max: i32| {
        joined(&[
            &(-1i32).to_be_bytes(),
            &wait.to_be_bytes(),
            &1i32.to_be_bytes(),
            &max.to_be_bytes(),
            &[isolation],
            &1i32.to_be_bytes(),
            &string(b"events"),
            &1i32.to_be_bytes(),
            &2i32.to_be_bytes(),
            &7i64.to_be_bytes(),
            &partition_max.to_be_bytes(),
        ])
    };
    match decoded(api::FETCH, version::FETCH, &fetch(5, 100, 1, 50)).expect("decode") {
        RequestBody::Fetch {
            replica_id,
            max_wait_ms,
            min_bytes,
            max_bytes,
            read_committed,
            topics,
        } => {
            assert_eq!((replica_id, max_wait_ms, min_bytes, max_bytes), (-1, 5, 1, 100));
            assert!(read_committed);
            assert_eq!(topics[0].name, b"events");
            let partition = topics[0].partitions[0];
            assert_eq!(partition.partition, 2);
            assert_eq!(partition.fetch_offset, 7);
            assert_eq!(partition.partition_max_bytes, 50);
        }
        other => panic!("unexpected body: {other:?}"),
    }
    for bad in [
        fetch(-1, 100, 0, 50),
        fetch(5, -1, 0, 50),
        fetch(5, 100, 2, 50),
        fetch(5, 100, 0, -1),
    ] {
        assert_eq!(decoded(api::FETCH, version::FETCH, &bad), Err(Error::Invalid));
    }
}

#[test]
fn damaged_record_sets_fail_the_frame() {
    let batch = encode_record_batch(
        0,
        &[Record {
            offset: 0,
            timestamp_ms: 1,
            key: None,
            value: Some(b"v".to_vec()),
        }],
    )
    .expect("encode");
    let produce = |batch: &[u8]| {
        joined(&[
            &(-1i16).to_be_bytes(),
            &1i16.to_be_bytes(),
            &30i32.to_be_bytes(),
            &1i32.to_be_bytes(),
            &string(b"events"),
            &1i32.to_be_bytes(),
            &0i32.to_be_bytes(),
            &(batch.len() as i32).to_be_bytes(),
            batch,
        ])
    };
    assert!(decoded(api::PRODUCE, version::PRODUCE, &produce(&batch)).is_ok());
    let mut damaged = batch.clone();
    let last = damaged.len() - 1;
    damaged[last] ^= 1;
    assert_eq!(
        decoded(api::PRODUCE, version::PRODUCE, &produce(&damaged)),
        Err(Error::Checksum)
    );
    assert_eq!(decoded(api::PRODUCE, version::PRODUCE, &produce(b"")), Err(Error::Invalid));
}

#[test]
fn headers_can_be_peeked_at_whatever_follows() {
    let request = frame(api::API_VERSIONS, 99, 77, b"client", b"anything");
    assert_eq!(decode_request(&request), Err(Error::UnsupportedVersion));
    let header = peek_header(&request).expect("peek");
    assert_eq!(header.api_key, api::API_VERSIONS);
    assert_eq!(header.api_version, 99);
    assert_eq!(header.correlation_id, 77);
    assert!(peek_header(&request[..9]).is_err());
}

#[test]
fn oversized_frames_are_rejected() {
    let mut request = frame(api::API_VERSIONS, version::API_VERSIONS, 1, b"client", &[]);
    request.resize(4 + 1024 * 1024 + 1, 0);
    let length = (request.len() - 4) as i32;
    request[..4].copy_from_slice(&length.to_be_bytes());
    assert_eq!(decode_request(&request), Err(Error::TooLarge));
}

#[test]
fn wire_errors_describe_themselves() {
    assert_eq!(Error::Incomplete.text(), "incomplete frame");
    assert_eq!(Error::Invalid.text(), "invalid field");
    assert_eq!(Error::TooLarge.text(), "field exceeds the bound");
    assert_eq!(Error::UnsupportedApi.text(), "unsupported API");
    assert_eq!(Error::UnsupportedVersion.text(), "unsupported API version");
    assert_eq!(Error::Correlation.text(), "correlation id mismatch");
    assert_eq!(Error::Checksum.text(), "record batch checksum mismatch");
}

#[test]
fn frames_of_every_shape_are_exact() {
    let group = b"\0\x01g\0\0\0\x07\0\x01m";
    let key = b"\0\x03key\0";
    for request in [
        frame(api::HEARTBEAT, version::HEARTBEAT, 1, b"client", group),
        frame(api::FIND_COORDINATOR, version::FIND_COORDINATOR, 1, b"client", key),
        frame(api::METADATA, version::METADATA, 1, b"client", &(-1i32).to_be_bytes()),
    ] {
        assert!(decode_request(&request).is_ok());
        assert_eq!(decode_request(&request[..request.len() - 1]), Err(Error::Incomplete));
        let mut longer = request.clone();
        longer.push(0);
        assert_eq!(decode_request(&longer), Err(Error::Incomplete));
        let declared = (longer.len() - 4) as i32;
        longer[..4].copy_from_slice(&declared.to_be_bytes());
        assert_eq!(decode_request(&longer), Err(Error::Invalid));
    }
}
