//! Producer and group coordination.

use charlotte_kafka_broker::broker_core::{
    CoordinationError, GroupCoordinator, ProducerIdentity, TransactionCoordinator, TransactionOffset,
};

#[test]
fn producer_epoch_fences_previous_instance_and_requires_enlistment() {
    let mut coordinator = TransactionCoordinator::new();
    let first = coordinator.init(b"orders").expect("first identity");
    coordinator.add_partition(b"orders", first, b"events", 0).expect("enlist");
    assert_eq!(coordinator.validate_produce(b"orders", first, b"events", 0), Ok(()));
    let second = coordinator.init(b"orders").expect("fenced identity");
    assert_eq!(second.id, first.id);
    assert!(second.epoch > first.epoch);
    assert_eq!(
        coordinator.validate_produce(b"orders", first, b"events", 0),
        Err(CoordinationError::ProducerFenced)
    );
    assert_eq!(
        coordinator.validate_produce(b"orders", second, b"events", 0),
        Err(CoordinationError::InvalidTransactionState)
    );
    coordinator.add_partition(b"orders", second, b"events", 0).expect("re-enlist");
    let completion = coordinator.end(b"orders", second, true).expect("complete");
    assert_eq!(completion.partitions, vec![(b"events".to_vec(), 0)]);
    assert!(completion.offsets.is_empty());
    let third = coordinator.init(b"orders").expect("retain producer id");
    assert_eq!(third.id, second.id);
    assert!(third.epoch > second.epoch);
}

#[test]
fn group_assignment_and_generation_fencing_are_deterministic() {
    let mut coordinator = GroupCoordinator::new();
    let partitions = vec![(b"events".to_vec(), 0), (b"events".to_vec(), 1)];
    let (generation, assignments) = coordinator
        .join(b"workers", b"a", vec![b"events".to_vec()], &partitions)
        .expect("join a");
    assert_eq!(generation, 1);
    assert_eq!(assignments[0].partitions.len(), 2);
    let (generation, assignments) = coordinator
        .join(b"workers", b"b", vec![b"events".to_vec()], &partitions)
        .expect("join b");
    assert_eq!(generation, 2);
    assert_eq!(assignments[0].partitions.len(), 1);
    assert_eq!(assignments[1].partitions.len(), 1);
    assert_eq!(
        coordinator.heartbeat(b"workers", b"a", 1),
        Err(CoordinationError::IllegalGeneration)
    );
    coordinator.commit_offset(b"workers", generation, b"events", 0, 1).expect("commit");
    assert_eq!(coordinator.offset(b"workers", b"events", 0), Ok(Some(1)));
}

fn offset_of(group: &[u8], generation: i32, partition: i32, offset: i64) -> TransactionOffset {
    TransactionOffset {
        group_id: group.to_vec(),
        generation,
        topic: b"events".to_vec(),
        partition,
        offset,
    }
}

#[test]
fn producer_ids_count_up_from_one() {
    let mut coordinator = TransactionCoordinator::new();
    assert_eq!(coordinator.init(b"a"), Ok(ProducerIdentity { id: 1, epoch: 0 }));
    assert_eq!(coordinator.init(b"b"), Ok(ProducerIdentity { id: 2, epoch: 0 }));
    assert_eq!(coordinator.init(b"a"), Ok(ProducerIdentity { id: 1, epoch: 1 }));
    assert_eq!(coordinator.init(b"c"), Ok(ProducerIdentity { id: 3, epoch: 0 }));
    assert_eq!(coordinator.init(b""), Err(CoordinationError::InvalidId));
}

#[test]
fn default_transaction_coordinator_counts_from_zero() {
    let mut coordinator = TransactionCoordinator::default();
    assert_eq!(coordinator.init(b"a"), Ok(ProducerIdentity { id: 0, epoch: 0 }));
}

#[test]
fn epochs_stop_at_the_last_one() {
    let mut coordinator = TransactionCoordinator::new();
    let mut last = coordinator.init(b"a").expect("init");
    for _ in 0..33_000 {
        last = coordinator.init(b"a").expect("init again");
    }
    assert_eq!(last, ProducerIdentity { id: 1, epoch: i16::MAX });
}

#[test]
fn transaction_refusals_name_their_reason() {
    let mut coordinator = TransactionCoordinator::new();
    let stranger = ProducerIdentity { id: 9, epoch: 9 };
    assert_eq!(
        coordinator.add_partition(b"t", stranger, b"events", 0),
        Err(CoordinationError::UnknownTransaction)
    );
    let identity = coordinator.init(b"t").expect("init");
    assert_eq!(
        coordinator.add_partition(b"t", identity, b"", 0),
        Err(CoordinationError::InvalidId)
    );
    assert_eq!(
        coordinator.add_partition(b"t", identity, b"events", -1),
        Err(CoordinationError::InvalidId)
    );
    assert_eq!(
        coordinator.add_offset(b"t", identity, offset_of(b"g", 0, 0, 0)),
        Err(CoordinationError::InvalidTransactionState)
    );
    assert_eq!(
        coordinator.end(b"t", identity, true),
        Err(CoordinationError::InvalidTransactionState)
    );
    coordinator.add_partition(b"t", identity, b"events", 0).expect("enlist");
    for bad in [
        offset_of(b"", 0, 0, 0),
        offset_of(b"g", -1, 0, 0),
        offset_of(b"g", 0, -1, 0),
        offset_of(b"g", 0, 0, -1),
    ] {
        assert_eq!(coordinator.add_offset(b"t", identity, bad), Err(CoordinationError::InvalidId));
    }
    assert_eq!(coordinator.end(b"t", stranger, true), Err(CoordinationError::ProducerFenced));
}

#[test]
fn completion_lists_partitions_once_and_in_order() {
    let mut coordinator = TransactionCoordinator::new();
    let identity = coordinator.init(b"t").expect("init");
    for (topic, partition) in
        [(b"z".as_slice(), 0), (b"ab", 1), (b"a", 7), (b"ab", 0), (b"a", 7)]
    {
        coordinator.add_partition(b"t", identity, topic, partition).expect("enlist");
    }
    coordinator.add_offset(b"t", identity, offset_of(b"g", 1, 0, 5)).expect("first offset");
    coordinator.add_offset(b"t", identity, offset_of(b"g", 1, 0, 4)).expect("second offset");
    let completion = coordinator.end(b"t", identity, false).expect("end");
    assert_eq!(
        completion.partitions,
        vec![
            (b"a".to_vec(), 7),
            (b"ab".to_vec(), 0),
            (b"ab".to_vec(), 1),
            (b"z".to_vec(), 0),
        ]
    );
    assert_eq!(completion.offsets, vec![offset_of(b"g", 1, 0, 5), offset_of(b"g", 1, 0, 4)]);
    assert_eq!(
        coordinator.validate_produce(b"t", identity, b"a", 7),
        Err(CoordinationError::InvalidTransactionState)
    );
}

#[test]
fn transactions_do_not_touch_each_other() {
    let mut coordinator = TransactionCoordinator::new();
    let one = coordinator.init(b"one").expect("init one");
    let two = coordinator.init(b"two").expect("init two");
    coordinator.add_partition(b"one", one, b"events", 0).expect("enlist one");
    coordinator.add_partition(b"two", two, b"events", 1).expect("enlist two");
    coordinator.end(b"two", two, true).expect("end two");
    assert_eq!(coordinator.validate_produce(b"one", one, b"events", 0), Ok(()));
    assert_eq!(
        coordinator.validate_produce(b"two", one, b"events", 1),
        Err(CoordinationError::ProducerFenced)
    );
}

#[test]
fn each_partition_goes_to_one_reader() {
    let mut coordinator = GroupCoordinator::new();
    let partitions: Vec<(Vec<u8>, i32)> = (0..5).map(|p| (b"events".to_vec(), p)).collect();
    for member in [b"c".as_slice(), b"a", b"b"] {
        coordinator.join(b"g", member, vec![b"events".to_vec()], &partitions).expect("join");
    }
    let (generation, assignments) =
        coordinator.join(b"g", b"d", vec![b"other".to_vec()], &partitions).expect("join");
    assert_eq!(generation, 4);
    let names: Vec<&[u8]> = assignments.iter().map(|a| a.member_id.as_slice()).collect();
    assert_eq!(names, [b"a".as_slice(), b"b", b"c", b"d"]);
    let numbers: Vec<Vec<i32>> = assignments
        .iter()
        .map(|a| a.partitions.iter().map(|(_, p)| *p).collect())
        .collect();
    assert_eq!(numbers, [vec![0, 3], vec![1, 4], vec![2], vec![]]);
}

#[test]
fn group_refusals_name_their_reason() {
    let mut coordinator = GroupCoordinator::default();
    assert_eq!(coordinator.heartbeat(b"g", b"m", 1), Err(CoordinationError::UnknownGroup));
    assert_eq!(coordinator.leave(b"g", b"m", 1), Err(CoordinationError::UnknownGroup));
    assert_eq!(coordinator.leave_any(b"g", b"m"), Err(CoordinationError::UnknownGroup));
    assert_eq!(
        coordinator.commit_offset(b"g", 1, b"events", 0, 0),
        Err(CoordinationError::UnknownGroup)
    );
    assert_eq!(coordinator.offset(b"g", b"events", 0), Err(CoordinationError::UnknownGroup));
    assert_eq!(
        coordinator.join(b"", b"m", Vec::new(), &Vec::new()),
        Err(CoordinationError::InvalidId)
    );
    assert_eq!(
        coordinator.join(b"g", b"", Vec::new(), &Vec::new()),
        Err(CoordinationError::InvalidId)
    );
    coordinator.join(b"g", b"m", Vec::new(), &Vec::new()).expect("join");
    assert_eq!(coordinator.heartbeat(b"g", b"m", 1), Ok(()));
    assert_eq!(coordinator.heartbeat(b"g", b"other", 1), Err(CoordinationError::UnknownMember));
    assert_eq!(coordinator.heartbeat(b"g", b"m", 2), Err(CoordinationError::IllegalGeneration));
    assert_eq!(
        coordinator.commit_offset(b"g", 0, b"events", 0, 0),
        Err(CoordinationError::IllegalGeneration)
    );
    assert_eq!(
        coordinator.commit_offset(b"g", 1, b"events", -1, 0),
        Err(CoordinationError::InvalidId)
    );
    assert_eq!(
        coordinator.commit_offset(b"g", 1, b"events", 0, -1),
        Err(CoordinationError::InvalidId)
    );
    assert_eq!(coordinator.offset(b"g", b"events", 0), Ok(None));
    assert_eq!(coordinator.leave(b"g", b"m", 0), Err(CoordinationError::IllegalGeneration));
    assert_eq!(coordinator.leave(b"g", b"other", 1), Err(CoordinationError::UnknownMember));
}

#[test]
fn leaving_starts_a_generation_and_keeps_offsets() {
    let mut coordinator = GroupCoordinator::new();
    let partitions = vec![(b"events".to_vec(), 0)];
    coordinator.join(b"g", b"a", vec![b"events".to_vec()], &partitions).expect("join a");
    coordinator.commit_offset(b"g", 1, b"events", 0, 12).expect("commit");
    assert_eq!(coordinator.leave(b"g", b"a", 1), Ok(()));
    assert_eq!(coordinator.leave_any(b"g", b"a"), Err(CoordinationError::UnknownMember));
    assert_eq!(
        coordinator.commit_offset(b"g", 1, b"events", 0, 13),
        Err(CoordinationError::IllegalGeneration)
    );
    assert_eq!(coordinator.offset(b"g", b"events", 0), Ok(Some(12)));
    let (generation, _) =
        coordinator.join(b"g", b"a", vec![b"events".to_vec()], &partitions).expect("join again");
    assert_eq!(generation, 3);
    assert_eq!(coordinator.leave_any(b"g", b"a"), Ok(()));
}

#[test]
fn coordination_errors_describe_themselves() {
    assert_eq!(CoordinationError::InvalidId.text(), "invalid coordinator id");
    assert_eq!(CoordinationError::UnknownTransaction.text(), "unknown transaction");
    assert_eq!(CoordinationError::ProducerFenced.text(), "producer fenced");
    assert_eq!(CoordinationError::InvalidTransactionState.text(), "invalid transaction state");
    assert_eq!(CoordinationError::UnknownGroup.text(), "unknown group");
    assert_eq!(CoordinationError::UnknownMember.text(), "unknown group member");
    assert_eq!(CoordinationError::IllegalGeneration.text(), "illegal group generation");
}

#[test]
fn a_transaction_can_always_be_joined_by_its_producer() {
    let mut coordinator = TransactionCoordinator::new();
    let producer = coordinator.init(b"id").expect("init");
    for commit in [true, false] {
        assert!(coordinator.end(b"id", producer, commit).is_err(), "nothing is enlisted");
        assert_eq!(coordinator.add_partition(b"id", producer, b"events", 0), Ok(()));
        assert_eq!(coordinator.add_partition(b"id", producer, b"events", 1), Ok(()));
        assert_eq!(coordinator.end(b"id", producer, commit).expect("end").partitions.len(), 2);
    }
}
