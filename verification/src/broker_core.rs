//! Deterministic, transport-free broker state.
//!
//! The partition log, the topic catalog and the coordinators: no threads,
//! channels, clocks or I/O.

pub mod coordination;
pub mod coordination_laws;
pub mod error;
pub mod log;
pub mod log_history;
pub mod log_laws;
pub mod topic;

pub use coordination::{
    CoordinationError, GroupAssignment, GroupCoordinator, ProducerIdentity, TransactionCompletion,
    TransactionCoordinator, TransactionOffset, TransactionState,
};
pub use error::LogError;
pub use log::{FetchWindow, PartitionLog, Record, RecordData, RecordInput};
pub use topic::{TopicCatalog, TopicMetadata};
