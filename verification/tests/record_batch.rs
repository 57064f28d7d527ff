//! Record batches.

use charlotte_kafka_broker::broker_core::Record;
use charlotte_kafka_broker::broker_wire::record_batch::{
    crc32_ieee, crc32c, decode_record_batches, decode_record_batches_with_identity,
    encode_record_batch,
};
use charlotte_kafka_broker::broker_wire::Error;

fn record(offset: i64, timestamp_ms: i64, key: Option<&[u8]>, value: Option<&[u8]>) -> Record {
    Record {
        offset,
        timestamp_ms,
        key: key.map(Vec::from),
        value: value.map(Vec::from),
    }
}

#[test]
fn crc32c_matches_known_vector() {
    assert_eq!(crc32c(b"123456789"), 0xe306_9283);
}

#[test]
fn encode_decode_round_trip_preserves_records() {
    let batch = encode_record_batch(
        7,
        &[
            record(7, 1_000, Some(b"a"), Some(b"first")),
            record(8, 1_004, None, Some(b"second")),
        ],
    )
    .expect("encode");
    let records = decode_record_batches(&batch).expect("decode");
    assert_eq!(records.len(), 2);
    assert_eq!(records[0].timestamp_ms, 1_000);
    assert_eq!(records[0].key.as_deref(), Some(b"a".as_slice()));
    assert_eq!(records[0].value.as_deref(), Some(b"first".as_slice()));
    assert_eq!(records[1].timestamp_ms, 1_004);
    assert!(records[1].key.is_none());
    assert_eq!(records[1].value.as_deref(), Some(b"second".as_slice()));
}

#[test]
fn multiple_batches_decode_in_order() {
    let first = encode_record_batch(0, &[record(0, 1, None, Some(b"a"))]).expect("encode");
    let second = encode_record_batch(1, &[record(1, 2, None, Some(b"b"))]).expect("encode");
    let mut set = first.clone();
    set.extend_from_slice(&second);
    let records = decode_record_batches(&set).expect("decode");
    assert_eq!(records.len(), 2);
    assert_eq!(records[0].value.as_deref(), Some(b"a".as_slice()));
    assert_eq!(records[1].value.as_deref(), Some(b"b".as_slice()));
}

#[test]
fn checksum_mismatch_is_rejected() {
    let mut batch =
        encode_record_batch(0, &[record(0, 1, None, Some(b"value"))]).expect("encode");
    let last = batch.len() - 1;
    batch[last] ^= 0xff;
    assert_eq!(decode_record_batches(&batch), Err(Error::Checksum));
}

#[test]
fn compressed_batch_is_rejected() {
    let mut batch =
        encode_record_batch(0, &[record(0, 1, None, Some(b"value"))]).expect("encode");
    let attributes = 12 + 4 + 1 + 4;
    batch[attributes..attributes + 2].copy_from_slice(&2i16.to_be_bytes());
    let crc = crc32c(&batch[12 + 9..]);
    batch[12 + 5..12 + 9].copy_from_slice(&crc.to_be_bytes());
    assert_eq!(decode_record_batches(&batch), Err(Error::UnsupportedVersion));
}

#[test]
fn empty_record_set_is_rejected() {
    assert_eq!(decode_record_batches(&[]), Err(Error::Invalid));
}

fn legacy_message_set(
    magic: i8,
    timestamp_ms: i64,
    key: Option<&[u8]>,
    value: Option<&[u8]>,
) -> Vec<u8> {
    let mut body = vec![magic as u8, 0];
    if magic == 1 {
        body.extend_from_slice(&timestamp_ms.to_be_bytes());
    }
    for field in [key, value] {
        match field {
            Some(bytes) => {
                body.extend_from_slice(&(bytes.len() as i32).to_be_bytes());
                body.extend_from_slice(bytes);
            }
            None => body.extend_from_slice(&(-1i32).to_be_bytes()),
        }
    }
    let crc = crc32_ieee(&body);
    let mut message = crc.to_be_bytes().to_vec();
    message.extend_from_slice(&body);
    let mut set = 0i64.to_be_bytes().to_vec();
    set.extend_from_slice(&(message.len() as i32).to_be_bytes());
    set.extend_from_slice(&message);
    set
}

#[test]
fn legacy_message_sets_decode() {
    let v1 = legacy_message_set(1, 1_234, Some(b"k"), Some(b"value"));
    let records = decode_record_batches(&v1).expect("v1 decode");
    assert_eq!(records.len(), 1);
    assert_eq!(records[0].timestamp_ms, 1_234);
    assert_eq!(records[0].key.as_deref(), Some(b"k".as_slice()));
    assert_eq!(records[0].value.as_deref(), Some(b"value".as_slice()));

    let v0 = legacy_message_set(0, 0, None, Some(b"legacy"));
    let records = decode_record_batches(&v0).expect("v0 decode");
    assert_eq!(records[0].timestamp_ms, 0);
    assert!(records[0].key.is_none());
    assert_eq!(records[0].value.as_deref(), Some(b"legacy".as_slice()));
}

#[test]
fn legacy_crc_mismatch_is_rejected() {
    let mut v1 = legacy_message_set(1, 1, None, Some(b"value"));
    *v1.last_mut().expect("non-empty") ^= 0xff;
    assert_eq!(decode_record_batches(&v1), Err(Error::Checksum));
}

#[test]
fn crc32_ieee_matches_known_vector() {
    assert_eq!(crc32_ieee(b"123456789"), 0xcbf4_3926);
}

/// A batch with its attributes changed and its checksum mended.
fn with_attributes(mut batch: Vec<u8>, attributes: i16) -> Vec<u8> {
    batch[21..23].copy_from_slice(&attributes.to_be_bytes());
    let crc = crc32c(&batch[21..]);
    batch[17..21].copy_from_slice(&crc.to_be_bytes());
    batch
}

#[test]
fn batches_carry_their_base_offset_and_deltas() {
    let batch = encode_record_batch(
        41,
        &[record(41, 500, None, None), record(43, 490, Some(b""), Some(b"v"))],
    )
    .expect("encode");
    assert_eq!(batch[..8], 41i64.to_be_bytes());
    assert_eq!(batch[8..12], ((batch.len() - 12) as i32).to_be_bytes());
    assert_eq!(batch[16], 2);
    assert_eq!(batch[17..21], crc32c(&batch[21..]).to_be_bytes());
    assert_eq!(batch[23..27], 1i32.to_be_bytes(), "last offset delta");
    let records = decode_record_batches(&batch).expect("decode");
    assert_eq!(records[0].timestamp_ms, 500);
    assert!(records[0].key.is_none());
    assert!(records[0].value.is_none());
    assert_eq!(records[1].timestamp_ms, 490);
    assert_eq!(records[1].key.as_deref(), Some(b"".as_slice()));
}

#[test]
fn empty_and_oversized_batches_are_not_encoded() {
    assert_eq!(encode_record_batch(0, &[]), Err(Error::Invalid));
    let many: Vec<Record> = (0..1025).map(|offset| record(offset, 1, None, None)).collect();
    assert_eq!(encode_record_batch(0, &many), Err(Error::Invalid));
    assert!(encode_record_batch(0, &many[..1024]).is_ok());
    let large = vec![0u8; 1024 * 1024];
    assert_eq!(
        encode_record_batch(0, &[record(0, 1, None, Some(&large))]),
        Err(Error::TooLarge)
    );
}

#[test]
fn every_single_byte_change_is_noticed() {
    let batch = encode_record_batch(0, &[record(0, 7, Some(b"k"), Some(b"v"))]).expect("encode");
    for index in 21..batch.len() {
        let mut changed = batch.clone();
        changed[index] ^= 0x01;
        assert_eq!(decode_record_batches(&changed), Err(Error::Checksum), "byte {index}");
    }
}

#[test]
fn truncated_batches_are_rejected() {
    let batch = encode_record_batch(0, &[record(0, 7, Some(b"k"), Some(b"v"))]).expect("encode");
    for len in 1..batch.len() {
        assert!(decode_record_batches(&batch[..len]).is_err(), "{len} bytes");
    }
}

#[test]
fn transactional_batches_need_the_identity_reader() {
    let plain = encode_record_batch(0, &[record(0, 7, None, Some(b"v"))]).expect("encode");
    let decoded = decode_record_batches_with_identity(&plain).expect("decode");
    assert_eq!(decoded.producer, None);
    assert_eq!(decoded.records.len(), 1);

    let mut batch = plain.clone();
    batch[43..51].copy_from_slice(&77i64.to_be_bytes());
    batch[51..53].copy_from_slice(&3i16.to_be_bytes());
    let batch = with_attributes(batch, 0x10);
    assert_eq!(decode_record_batches(&batch), Err(Error::UnsupportedVersion));
    let decoded = decode_record_batches_with_identity(&batch).expect("decode");
    assert_eq!(decoded.producer, Some((77, 3)));
    assert_eq!(decoded.records[0].value.as_deref(), Some(b"v".as_slice()));
}

#[test]
fn checksums_of_nothing_and_of_zeros() {
    assert_eq!(crc32c(b""), 0);
    assert_eq!(crc32_ieee(b""), 0);
    assert_eq!(crc32c(&[0u8; 32]), 0x8a91_36aa);
    assert_eq!(crc32c(&[0xffu8; 32]), 0x62a8_ab43);
}

#[test]
fn batches_of_a_set_are_kept_apart() {
    let batch = |values: &[&[u8]]| {
        let records: Vec<Record> =
            values.iter().map(|value| record(0, 5, None, Some(value))).collect();
        encode_record_batch(0, &records).expect("encode")
    };
    let first = batch(&[b"a", b"b"]);
    let mut set = first.clone();
    set.extend_from_slice(&batch(&[b"c"]));
    let decoded = decode_record_batches_with_identity(&set).expect("decode");
    assert_eq!(decoded.records.len(), 3);
    assert_eq!(decoded.batch_lens, [2, 1]);

    // A batch without records is a header alone, and nothing to append.
    let mut empty = first[..61].to_vec();
    empty[8..12].copy_from_slice(&49i32.to_be_bytes());
    empty[57..61].copy_from_slice(&0i32.to_be_bytes());
    let crc = crc32c(&empty[21..]);
    empty[17..21].copy_from_slice(&crc.to_be_bytes());
    let mut set = empty.clone();
    set.extend_from_slice(&first);
    set.extend_from_slice(&empty);
    let decoded = decode_record_batches_with_identity(&set).expect("decode");
    assert_eq!(decoded.records.len(), 2);
    assert_eq!(decoded.batch_lens, [2]);
}

#[test]
fn sets_put_together_decode_together() {
    let plain = |value: &[u8]| {
        encode_record_batch(0, &[record(0, 7, None, Some(value)), record(1, 8, None, None)])
            .expect("encode")
    };
    let transactional = |value: &[u8], id: i64| {
        let mut batch = plain(value);
        batch[43..51].copy_from_slice(&id.to_be_bytes());
        batch[51..53].copy_from_slice(&3i16.to_be_bytes());
        with_attributes(batch, 0x10)
    };
    for (a, b, producer) in [
        (plain(b"a"), plain(b"b"), None),
        (transactional(b"a", 77), plain(b"b"), Some((77, 3))),
        (plain(b"a"), transactional(b"b", 77), Some((77, 3))),
        (transactional(b"a", 77), transactional(b"b", 77), Some((77, 3))),
    ] {
        let first = decode_record_batches_with_identity(&a).expect("first");
        let second = decode_record_batches_with_identity(&b).expect("second");
        let both = decode_record_batches_with_identity(&[a, b].concat()).expect("both");
        assert_eq!(both.records, [first.records, second.records].concat());
        assert_eq!(both.batch_lens, [2, 2]);
        assert_eq!(both.producer, producer);
    }
    let mixed = [transactional(b"a", 77), transactional(b"b", 78)].concat();
    assert_eq!(decode_record_batches_with_identity(&mixed), Err(Error::Invalid));
}
