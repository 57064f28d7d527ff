//! Placement of sessions.

use charlotte_kafka_broker::broker_runtime::{SessionId, SessionShardLayout};

#[test]
fn assignment_is_stable_and_bounded() {
    let layout = SessionShardLayout::new(4, 3);
    for value in 0..100 {
        let shard = layout.shard_for(SessionId::new(value)).0;
        assert!((4..7).contains(&shard));
        assert_eq!(shard, layout.shard_for(SessionId::new(value)).0);
    }
}

#[test]
fn zero_shards_remains_total() {
    assert_eq!(SessionShardLayout::new(2, 0).shard_for(SessionId::new(1)).0, 2);
}

#[test]
fn sessions_keep_their_number_and_spread() {
    assert_eq!(SessionId::new(17).get(), 17);
    let layout = SessionShardLayout::new(0, 4);
    assert_eq!(layout.shard_count(), 4);
    assert_eq!(layout.shard_for(SessionId::new(0)).0, 0);
    let mut used = [false; 4];
    for value in 0..64 {
        used[layout.shard_for(SessionId::new(value)).0] = true;
    }
    assert_eq!(used, [true; 4]);
    assert_eq!(SessionShardLayout::new(3, 0).shard_count(), 1);
}
