# charlotte-kafka-broker

A shard-per-partition, Kafka-compatible log broker, written in Verus. One
partition log is owned by exactly one shard; everything that crosses shards is
a typed, owned message over a bounded mailbox.

## Layers

```text
front_end       frames, connections and counters, without the sockets
      |
broker_engine   request dispatch and Kafka error mapping
      |
broker_wire     bounded Kafka subset codec (server side)
      |
broker_runtime  partition owners, routing, calls and replies
      |
broker_core     partition log, topic catalog, transactions and groups
```

- `src/` is the library. Every function has a contract over mathematical
  models (`LogModel`, `CatalogModel`, `TransactionsModel`, `GroupsModel`,
  `ShardModel`, `EngineModel`, ...), and Verus proves it. What holds over
  several calls stands in the `*laws` modules and in functions named `law_*`.
- `tests/` runs the library, also over real shards on threads.
- `app/` is the host program: a TCP listener in front of an engine, with the
  shards on threads of a `sitas-unix` runtime. `app/el0.rs` is the root of the
  CharlotteOS image, which is built with the crates of that system.

## What is believed without proof

- `src/broker_runtime/channel.rs`: the channels of `sitas-core`.
- `src/broker_runtime/broker.rs`: `Duration::from_millis`.

What a shard replies depends on what the other threads asked it before. A
`Broker` is therefore verified for any kind of shards (the trait `Shards`): its
contracts fix which shard is asked what, and what is made of each possible
reply. `PartitionShard::handle` says exactly what a shard replies.

## Placement and batches

The shard of a partition is `hash(topic) + partition (mod shard_count)`, so the
next partition of a topic belongs to the next shard. A produce entry may carry
several record batches; each is appended as one unit, in order, and the first
that is refused ends the work on the entry.

## Protocol subset

| API | Key | Version |
|---|---|---|
| Produce | 0 | 3 |
| Fetch | 1 | 4 |
| ListOffsets | 2 | 1 |
| Metadata | 3 | 1 |
| OffsetCommit | 8 | 2 |
| OffsetFetch | 9 | 1 |
| FindCoordinator | 10 | 1 |
| JoinGroup | 11 | 1 |
| Heartbeat | 12 | 0 |
| LeaveGroup | 13 | 0 |
| SyncGroup | 14 | 0 |
| ApiVersions | 18 | 0 |
| InitProducerId | 22 | 0 |
| AddPartitionsToTxn | 24 | 0 |
| EndTxn | 26 | 0 |

A failure that applies to one topic or partition becomes a Kafka error code in
that entry. A frame that cannot be decoded ends the connection.
