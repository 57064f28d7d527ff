//! A shard-per-partition, Kafka-compatible log broker.

pub mod broker_core;
pub mod broker_engine;
pub mod broker_runtime;
pub mod broker_wire;
pub mod byte_order;
pub mod bytes;
pub mod front_end;
pub mod saturating;
pub mod sorted_map;
