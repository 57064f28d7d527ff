//! The partition log.

use charlotte_kafka_broker::broker_core::log::{MAX_APPEND_RECORDS, RECORD_OVERHEAD_BYTES};
use charlotte_kafka_broker::broker_core::{LogError, PartitionLog, RecordData, RecordInput};

fn input(value: &[u8]) -> RecordInput<'_> {
    RecordInput {
        timestamp_ms: 1_000,
        key: None,
        value: Some(value),
    }
}

#[test]
fn append_assigns_contiguous_offsets() {
    let mut log = PartitionLog::new();
    assert_eq!(log.append(&[input(b"a"), input(b"b")]), Ok(0));
    assert_eq!(log.append(&[input(b"c")]), Ok(2));
    assert_eq!(log.high_watermark(), 3);
    assert_eq!(log.record_count(), 3);
    assert_eq!(log.start_offset(), 0);
    assert_eq!(log.list_offset(true), 0);
    assert_eq!(log.list_offset(false), 3);
}

#[test]
fn fetch_returns_owned_records_from_the_requested_offset() {
    let mut log = PartitionLog::new();
    log.append(&[input(b"a"), input(b"b"), input(b"c")]).expect("append");
    let window = log.fetch(1, 10, 1024).expect("fetch");
    assert_eq!(window.high_watermark, 3);
    assert_eq!(window.records.len(), 2);
    assert_eq!(window.records[0].offset, 1);
    assert_eq!(window.records[0].value.as_deref(), Some(b"b".as_slice()));
    assert_eq!(window.records[1].offset, 2);
}

#[test]
fn fetch_honors_record_and_byte_budgets() {
    let mut log = PartitionLog::new();
    log.append(&[input(b"a"), input(b"b"), input(b"c")]).expect("append");
    let window = log.fetch(0, 2, 1024).expect("fetch");
    assert_eq!(window.records.len(), 2);
    let window = log.fetch(0, 10, RECORD_OVERHEAD_BYTES + 2).expect("fetch");
    assert_eq!(window.records.len(), 1, "byte budget admits only the first record");
}

#[test]
fn fetch_at_high_watermark_is_empty() {
    let mut log = PartitionLog::new();
    log.append(&[input(b"a")]).expect("append");
    let window = log.fetch(1, 10, 1024).expect("fetch");
    assert!(window.records.is_empty());
    assert_eq!(window.high_watermark, 1);
}

#[test]
fn read_committed_hides_pending_and_aborted_batches() {
    let mut log = PartitionLog::new();
    log.append(&[input(b"plain")]).expect("append plain");
    log.append_transactional(&[RecordData::from(input(b"pending"))], 7)
        .expect("append pending");
    let pending = log.fetch_with_isolation(0, 10, 4096, true).expect("fetch");
    assert_eq!(pending.records.len(), 1);
    assert_eq!(pending.last_stable_offset, 1);
    log.commit_transaction(7, false);
    let committed = log.fetch_with_isolation(0, 10, 4096, true).expect("fetch committed");
    assert_eq!(committed.records.len(), 1);
    assert_eq!(committed.last_stable_offset, 2);
    assert_eq!(committed.records[0].value.as_deref(), Some(b"plain".as_slice()));
    let uncommitted = log.fetch(0, 10, 4096).expect("fetch all");
    assert_eq!(uncommitted.records.len(), 2);
}

#[test]
fn fetch_out_of_range_is_rejected() {
    let mut log = PartitionLog::new();
    log.append(&[input(b"a")]).expect("append");
    assert_eq!(log.fetch(-1, 10, 1024), Err(LogError::OffsetOutOfRange));
    assert_eq!(log.fetch(2, 10, 1024), Err(LogError::OffsetOutOfRange));
}

#[test]
fn append_rejects_empty_and_oversized_batches() {
    let mut log = PartitionLog::new();
    assert_eq!(log.append(&[]), Err(LogError::EmptyAppend));
    let oversized = vec![input(b"x"); MAX_APPEND_RECORDS + 1];
    assert_eq!(log.append(&oversized), Err(LogError::TooManyRecords));
    assert_eq!(log.high_watermark(), 0, "rejected appends assign no offsets");
}

#[test]
fn fetch_spans_multiple_batches() {
    let mut log = PartitionLog::new();
    log.append(&[input(b"a")]).expect("append");
    log.append(&[input(b"b"), input(b"c")]).expect("append");
    let window = log.fetch(1, 10, 1024).expect("fetch");
    assert_eq!(window.records.len(), 2);
    assert_eq!(window.records[0].offset, 1);
    assert_eq!(window.records[1].offset, 2);
}

#[test]
fn retention_drops_oldest_batches_and_advances_the_start() {
    let budget = RECORD_OVERHEAD_BYTES + 1;
    let mut log = PartitionLog::with_max_bytes(budget);
    assert_eq!(log.append(&[input(b"a")]), Ok(0));
    assert_eq!(log.start_offset(), 0);
    assert_eq!(log.append(&[input(b"b")]), Ok(1));
    assert_eq!(log.start_offset(), 1, "the oldest batch was evicted");
    assert_eq!(log.list_offset(true), 1);
    assert_eq!(log.list_offset(false), 2);
    assert_eq!(log.high_watermark(), 2);
    assert_eq!(log.record_count(), 1);
    assert_eq!(log.fetch(0, 10, 1024), Err(LogError::OffsetOutOfRange));
    let window = log.fetch(1, 10, 1024).expect("fetch retained record");
    assert_eq!(window.records.len(), 1);
    assert_eq!(window.records[0].value.as_deref(), Some(b"b".as_slice()));
}

#[test]
fn retention_keeps_the_newest_batch_even_over_budget() {
    let mut log = PartitionLog::with_max_bytes(1);
    log.append(&[input(b"a"), input(b"b")]).expect("append");
    assert_eq!(log.start_offset(), 0);
    assert_eq!(log.record_count(), 2);
    assert_eq!(log.fetch(0, 10, 4096).expect("fetch").records.len(), 2);
}

#[test]
fn largest_append_is_accepted() {
    let mut log = PartitionLog::default();
    let largest = vec![input(b"x"); MAX_APPEND_RECORDS];
    assert_eq!(log.append(&largest), Ok(0));
    assert_eq!(log.high_watermark(), MAX_APPEND_RECORDS as i64);
    assert_eq!(log.record_count(), MAX_APPEND_RECORDS);
}

#[test]
fn reader_makes_progress_with_the_smallest_budget() {
    let mut log = PartitionLog::new();
    log.append(&[input(b"a"), input(b"b")]).expect("append");
    log.append(&[input(b"c")]).expect("append");
    let mut next = 0;
    let mut seen = Vec::new();
    while next < log.high_watermark() {
        let window = log.fetch(next, 1, 0).expect("fetch");
        assert_eq!(window.records.len(), 1);
        assert_eq!(window.records[0].offset, next);
        seen.push(window.records[0].value.clone().expect("value"));
        next += 1;
    }
    assert_eq!(seen, [b"a".to_vec(), b"b".to_vec(), b"c".to_vec()]);
    assert!(log.fetch(0, 0, 1024).expect("no records").records.is_empty());
}

#[test]
fn byte_budget_counts_keys_values_and_overhead() {
    let mut log = PartitionLog::new();
    let record = RecordInput {
        timestamp_ms: 1,
        key: Some(b"key"),
        value: Some(b"value"),
    };
    log.append(&[record, record]).expect("append");
    let both = 2 * (RECORD_OVERHEAD_BYTES + 8);
    assert_eq!(log.fetch(0, 10, both).expect("fetch").records.len(), 2);
    assert_eq!(log.fetch(0, 10, both - 1).expect("fetch").records.len(), 1);
}

#[test]
fn rejected_appends_change_nothing() {
    let mut log = PartitionLog::new();
    log.append(&[input(b"a")]).expect("append");
    assert_eq!(log.append_data(&[]), Err(LogError::EmptyAppend));
    assert_eq!(log.append_transactional(&[], 3), Err(LogError::EmptyAppend));
    assert_eq!(log.high_watermark(), 1);
    assert_eq!(log.record_count(), 1);
}

#[test]
fn committed_batches_show_up_at_their_offsets() {
    let mut log = PartitionLog::new();
    let data = |value: &[u8]| RecordData::from(input(value));
    assert_eq!(log.append_transactional(&[data(b"seven")], 7), Ok(0));
    assert_eq!(log.append_transactional(&[data(b"eight")], 8), Ok(1));
    assert_eq!(log.append_data(&[data(b"plain")]), Ok(2));
    let stable = log.fetch_with_isolation(0, 10, 4096, true).expect("fetch");
    assert_eq!(stable.records.len(), 1, "only open transactions are hidden");
    assert_eq!(stable.records[0].offset, 2);
    assert_eq!(stable.last_stable_offset, 0);
    assert_eq!(stable.high_watermark, 3);

    log.commit_transaction(8, true);
    assert_eq!(log.fetch_with_isolation(0, 10, 4096, true).expect("fetch").last_stable_offset, 0);

    log.commit_transaction(7, true);
    let stable = log.fetch_with_isolation(0, 10, 4096, true).expect("fetch");
    let offsets: Vec<i64> = stable.records.iter().map(|record| record.offset).collect();
    assert_eq!(offsets, [0, 1, 2]);
    assert_eq!(stable.last_stable_offset, 3);
}

#[test]
fn resolving_one_producer_leaves_the_others() {
    let mut log = PartitionLog::new();
    let data = RecordData::from(input(b"x"));
    log.append_transactional(std::slice::from_ref(&data), 1).expect("append");
    log.append_transactional(std::slice::from_ref(&data), 2).expect("append");
    log.commit_transaction(1, false);
    let stable = log.fetch_with_isolation(0, 10, 4096, true).expect("fetch");
    assert!(stable.records.is_empty());
    assert_eq!(stable.last_stable_offset, 1);
    log.commit_transaction(2, true);
    let stable = log.fetch_with_isolation(0, 10, 4096, true).expect("fetch");
    assert_eq!(stable.records.len(), 1);
    assert_eq!(stable.records[0].offset, 1);
}

#[test]
fn start_and_end_never_move_back() {
    let mut log = PartitionLog::with_max_bytes(3 * (RECORD_OVERHEAD_BYTES + 1));
    let (mut start, mut end) = (log.start_offset(), log.high_watermark());
    for _ in 0..20 {
        log.append(&[input(b"a")]).expect("append");
        assert!(log.start_offset() >= start);
        assert_eq!(log.high_watermark(), end + 1);
        start = log.start_offset();
        end = log.high_watermark();
    }
    assert_eq!((start, end), (17, 20));
    assert_eq!(log.record_count(), 3);
}

#[test]
fn records_convert_both_ways() {
    let owned = RecordData::from(RecordInput {
        timestamp_ms: 5,
        key: Some(b"k"),
        value: None,
    });
    assert_eq!(owned.timestamp_ms, 5);
    assert_eq!(owned.key.as_deref(), Some(b"k".as_slice()));
    assert!(owned.value.is_none());
    assert_eq!(RecordData::from(owned.as_input()), owned);
}

#[test]
fn log_errors_describe_themselves() {
    assert_eq!(LogError::UnknownTopic.text(), "unknown topic");
    assert_eq!(LogError::UnknownPartition.text(), "unknown partition");
    assert_eq!(LogError::InvalidTopic.text(), "invalid topic definition");
    assert_eq!(LogError::DuplicateTopic.text(), "duplicate topic");
    assert_eq!(LogError::EmptyAppend.text(), "append with no records");
    assert_eq!(LogError::TooManyRecords.text(), "append exceeds the record bound");
    assert_eq!(LogError::OffsetOutOfRange.text(), "offset out of range");
}

#[test]
fn refused_appends_need_no_room() {
    let log = PartitionLog::new();
    let many: Vec<RecordData> = (0..1025)
        .map(|_| RecordData {
            timestamp_ms: 1,
            key: None,
            value: None,
        })
        .collect();
    assert!(log.has_room(&many));
    assert!(log.has_room(&[]));
    assert!(log.has_room(&many[..1024]));
}
