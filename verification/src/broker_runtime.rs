//! Shard services of the broker.
//!
//! A broker owns one mailbox per partition shard and routes produce, fetch,
//! list-offset, and metadata operations to the shard that owns the requested
//! partition. Only the owning shard mutates its logs; callers block on a
//! bounded reply channel and park between polls. Transaction and consumer
//! group state is single-writer coordination state hosted by shard zero.

pub mod broker;
pub mod broker_laws;
pub mod channel;
pub mod error;
pub mod links;
pub mod message;
pub mod partition;
pub mod runtime_laws;
pub mod session;
pub mod transaction_laws;

pub use crate::broker_core::{
    CoordinationError, GroupAssignment, ProducerIdentity, TransactionOffset,
};
pub use broker::{
    Broker, BrokerConfig, TopicSpec, DEFAULT_MAILBOX_CAPACITY, DEFAULT_PARK_TIMEOUT_MS,
};
pub use error::BrokerError;
pub use session::{SessionId, SessionShardLayout};
