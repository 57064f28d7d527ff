//! The topic catalog.

use charlotte_kafka_broker::broker_core::{LogError, TopicCatalog};

#[test]
fn create_rejects_empty_duplicate_and_zero_partition_topics() {
    let mut catalog = TopicCatalog::new();
    assert_eq!(catalog.create(b"", 1), Err(LogError::InvalidTopic));
    assert_eq!(catalog.create(b"events", 0), Err(LogError::InvalidTopic));
    assert_eq!(catalog.create(b"events", 3), Ok(()));
    assert_eq!(catalog.create(b"events", 3), Err(LogError::DuplicateTopic));
    assert!(catalog.contains(b"events"));
    assert_eq!(catalog.partition_count(b"events"), Some(3));
    assert_eq!(catalog.len(), 1);
}

#[test]
fn check_partition_distinguishes_unknown_topic_and_partition() {
    let mut catalog = TopicCatalog::new();
    catalog.create(b"events", 2).expect("create");
    assert_eq!(catalog.check_partition(b"events", 0), Ok(()));
    assert_eq!(catalog.check_partition(b"events", 1), Ok(()));
    assert_eq!(catalog.check_partition(b"events", 2), Err(LogError::UnknownPartition));
    assert_eq!(catalog.check_partition(b"events", -1), Err(LogError::UnknownPartition));
    assert_eq!(catalog.check_partition(b"missing", 0), Err(LogError::UnknownTopic));
}

#[test]
fn metadata_is_ordered_by_name() {
    let mut catalog = TopicCatalog::new();
    catalog.create(b"results", 1).expect("create results");
    catalog.create(b"events", 2).expect("create events");
    let metadata = catalog.metadata();
    assert_eq!(metadata.len(), 2);
    assert_eq!(metadata[0].name, b"events");
    assert_eq!(metadata[0].partitions, 2);
    assert_eq!(metadata[1].name, b"results");
    assert_eq!(metadata[1].partitions, 1);
}

#[test]
fn refused_topics_change_nothing() {
    let mut catalog = TopicCatalog::default();
    assert!(catalog.is_empty());
    catalog.create(b"events", 2).expect("create");
    assert_eq!(catalog.create(b"events", 9), Err(LogError::DuplicateTopic));
    assert_eq!(catalog.create(b"other", -1), Err(LogError::InvalidTopic));
    assert_eq!(catalog.partition_count(b"events"), Some(2));
    assert_eq!(catalog.partition_count(b"other"), None);
    assert!(!catalog.contains(b"other"));
    assert_eq!(catalog.len(), 1);
    assert!(!catalog.is_empty());
}

#[test]
fn names_are_ordered_byte_by_byte() {
    let mut catalog = TopicCatalog::new();
    for name in [b"b".as_slice(), b"ab", b"\xff", b"a", b"aa"] {
        catalog.create(name, 1).expect("create");
    }
    let names: Vec<Vec<u8>> = catalog.metadata().into_iter().map(|topic| topic.name).collect();
    assert_eq!(
        names,
        [b"a".to_vec(), b"aa".to_vec(), b"ab".to_vec(), b"b".to_vec(), b"\xff".to_vec()]
    );
}
