//! Request dispatch and Kafka error mapping.
//!
//! The engine is the only layer that knows both the wire subset and the shard
//! runtime. Each supported request maps to one response; per-item failures
//! become Kafka error codes in the response instead of failing the whole
//! connection.

pub mod answers;
pub mod codes;
pub mod config;
pub mod end_to_end;
pub mod engine;
pub mod group_laws;
pub mod groups;
pub mod laws;
pub mod metadata_laws;
pub mod partition_laws;

pub use config::{
    BrokerIdentity, EngineConfig, DEFAULT_MAX_FETCH_BYTES, DEFAULT_MAX_FETCH_RECORDS,
};
pub use engine::Engine;
