//! Typed commands and replies exchanged with a partition shard.
//!
//! Every message is an owned value. A command carries the reply sender it
//! expects; the shard answers on that channel and then unparks the caller.

use vstd::prelude::*;

use sitas_core::shard_runtime::ShardSender;

use crate::broker_core::coordination::{
    AssignmentModel, CompletionModel, CoordinationError, GroupAssignment, ProducerIdentity,
    TransactionCompletion, TransactionOffset, TransactionOffsetModel,
};
use crate::broker_core::error::LogError;
use crate::broker_core::log::{DataModel, FetchWindow, RecordData, WindowModel};

verus! {

/// A request together with the channel on which the shard answers it.
pub struct PartitionCommand {
    /// What is asked.
    pub request: PartitionRequest,
    /// Where the answer goes.
    pub reply: ShardSender<PartitionResult>,
}

/// A request routed to the shard owning one partition.
#[derive(Debug, Eq, PartialEq)]
pub enum PartitionRequest {
    /// Appends records.
    Produce { topic: Vec<u8>, partition: i32, records: Vec<RecordData> },
    /// Appends records of an open transaction.
    ProduceTransactional {
        topic: Vec<u8>,
        partition: i32,
        records: Vec<RecordData>,
        producer_id: i64,
    },
    /// Reads records.
    Fetch {
        topic: Vec<u8>,
        partition: i32,
        offset: i64,
        max_records: usize,
        max_bytes: usize,
        read_committed: bool,
    },
    /// Reads the earliest or latest offset.
    ListOffset { topic: Vec<u8>, partition: i32, earliest: bool },
    /// Ends the shard.
    Shutdown,
    /// Commits or aborts the batches of a producer.
    ResolveTransaction { producer_id: i64, commit: bool },
    /// Coordination state is hosted by shard zero so it remains single-writer
    /// without introducing a lock shared by every connection.
    Coordinate { request: CoordinationRequest },
}

/// What a request to a shard says.
#[verifier::ext_equal]
pub enum PartitionRequestModel {
    Produce { topic: Seq<u8>, partition: i32, records: Seq<DataModel> },
    ProduceTransactional {
        topic: Seq<u8>,
        partition: i32,
        records: Seq<DataModel>,
        producer_id: i64,
    },
    Fetch {
        topic: Seq<u8>,
        partition: i32,
        offset: i64,
        max_records: usize,
        max_bytes: usize,
        read_committed: bool,
    },
    ListOffset { topic: Seq<u8>, partition: i32, earliest: bool },
    Shutdown,
    ResolveTransaction { producer_id: i64, commit: bool },
    Coordinate { request: CoordinationRequestModel },
}

impl DeepView for PartitionRequest {
    type V = PartitionRequestModel;

    open spec fn deep_view(&self) -> PartitionRequestModel {
        match *self {
            PartitionRequest::Produce { topic, partition, records } => PartitionRequestModel::Produce {
                topic: topic@,
                partition,
                records: records.deep_view(),
            },
            PartitionRequest::ProduceTransactional {
                topic,
                partition,
                records,
                producer_id,
            } => PartitionRequestModel::ProduceTransactional {
                topic: topic@,
                partition,
                records: records.deep_view(),
                producer_id,
            },
            PartitionRequest::Fetch {
                topic,
                partition,
                offset,
                max_records,
                max_bytes,
                read_committed,
            } => PartitionRequestModel::Fetch {
                topic: topic@,
                partition,
                offset,
                max_records,
                max_bytes,
                read_committed,
            },
            PartitionRequest::ListOffset {
                topic,
                partition,
                earliest,
            } => PartitionRequestModel::ListOffset { topic: topic@, partition, earliest },
            PartitionRequest::Shutdown => PartitionRequestModel::Shutdown,
            PartitionRequest::ResolveTransaction {
                producer_id,
                commit,
            } => PartitionRequestModel::ResolveTransaction { producer_id, commit },
            PartitionRequest::Coordinate { request } => PartitionRequestModel::Coordinate {
                request: request.deep_view(),
            },
        }
    }
}

/// Operations owned by the broker's coordination state machine.
#[derive(Debug, Eq, PartialEq)]
pub enum CoordinationRequest {
    InitProducer { transactional_id: Vec<u8> },
    AddPartition {
        transactional_id: Vec<u8>,
        producer: ProducerIdentity,
        topic: Vec<u8>,
        partition: i32,
    },
    ValidateProduce {
        transactional_id: Vec<u8>,
        producer: ProducerIdentity,
        topic: Vec<u8>,
        partition: i32,
    },
    EndTransaction { transactional_id: Vec<u8>, producer: ProducerIdentity, commit: bool },
    AddOffset {
        transactional_id: Vec<u8>,
        producer: ProducerIdentity,
        offset: TransactionOffset,
    },
    JoinGroup {
        group_id: Vec<u8>,
        member_id: Vec<u8>,
        subscriptions: Vec<Vec<u8>>,
        partitions: Vec<(Vec<u8>, i32)>,
    },
    Heartbeat { group_id: Vec<u8>, member_id: Vec<u8>, generation: i32 },
    LeaveGroup { group_id: Vec<u8>, member_id: Vec<u8>, generation: i32 },
    LeaveGroupAny { group_id: Vec<u8>, member_id: Vec<u8> },
    CommitOffset {
        group_id: Vec<u8>,
        generation: i32,
        topic: Vec<u8>,
        partition: i32,
        offset: i64,
    },
    FetchOffset { group_id: Vec<u8>, topic: Vec<u8>, partition: i32 },
}

/// What a coordination request says.
#[verifier::ext_equal]
pub enum CoordinationRequestModel {
    InitProducer { transactional_id: Seq<u8> },
    AddPartition {
        transactional_id: Seq<u8>,
        producer: ProducerIdentity,
        topic: Seq<u8>,
        partition: i32,
    },
    ValidateProduce {
        transactional_id: Seq<u8>,
        producer: ProducerIdentity,
        topic: Seq<u8>,
        partition: i32,
    },
    EndTransaction { transactional_id: Seq<u8>, producer: ProducerIdentity, commit: bool },
    AddOffset {
        transactional_id: Seq<u8>,
        producer: ProducerIdentity,
        offset: TransactionOffsetModel,
    },
    JoinGroup {
        group_id: Seq<u8>,
        member_id: Seq<u8>,
        subscriptions: Seq<Seq<u8>>,
        partitions: Seq<(Seq<u8>, i32)>,
    },
    Heartbeat { group_id: Seq<u8>, member_id: Seq<u8>, generation: i32 },
    LeaveGroup { group_id: Seq<u8>, member_id: Seq<u8>, generation: i32 },
    LeaveGroupAny { group_id: Seq<u8>, member_id: Seq<u8> },
    CommitOffset {
        group_id: Seq<u8>,
        generation: i32,
        topic: Seq<u8>,
        partition: i32,
        offset: i64,
    },
    FetchOffset { group_id: Seq<u8>, topic: Seq<u8>, partition: i32 },
}

impl DeepView for CoordinationRequest {
    type V = CoordinationRequestModel;

    open spec fn deep_view(&self) -> CoordinationRequestModel {
        match *self {
            CoordinationRequest::InitProducer {
                transactional_id,
            } => CoordinationRequestModel::InitProducer { transactional_id: transactional_id@ },
            CoordinationRequest::AddPartition {
                transactional_id,
                producer,
                topic,
                partition,
            } => CoordinationRequestModel::AddPartition {
                transactional_id: transactional_id@,
                producer,
                topic: topic@,
                partition,
            },
            CoordinationRequest::ValidateProduce {
                transactional_id,
                producer,
                topic,
                partition,
            } => CoordinationRequestModel::ValidateProduce {
                transactional_id: transactional_id@,
                producer,
                topic: topic@,
                partition,
            },
            CoordinationRequest::EndTransaction {
                transactional_id,
                producer,
                commit,
            } => CoordinationRequestModel::EndTransaction {
                transactional_id: transactional_id@,
                producer,
                commit,
            },
            CoordinationRequest::AddOffset {
                transactional_id,
                producer,
                offset,
            } => CoordinationRequestModel::AddOffset {
                transactional_id: transactional_id@,
                producer,
                offset: offset.deep_view(),
            },
            CoordinationRequest::JoinGroup {
                group_id,
                member_id,
                subscriptions,
                partitions,
            } => CoordinationRequestModel::JoinGroup {
                group_id: group_id@,
                member_id: member_id@,
                subscriptions: subscriptions.deep_view(),
                partitions: partitions.deep_view(),
            },
            CoordinationRequest::Heartbeat {
                group_id,
                member_id,
                generation,
            } => CoordinationRequestModel::Heartbeat {
                group_id: group_id@,
                member_id: member_id@,
                generation,
            },
            CoordinationRequest::LeaveGroup {
                group_id,
                member_id,
                generation,
            } => CoordinationRequestModel::LeaveGroup {
                group_id: group_id@,
                member_id: member_id@,
                generation,
            },
            CoordinationRequest::LeaveGroupAny {
                group_id,
                member_id,
            } => CoordinationRequestModel::LeaveGroupAny {
                group_id: group_id@,
                member_id: member_id@,
            },
            CoordinationRequest::CommitOffset {
                group_id,
                generation,
                topic,
                partition,
                offset,
            } => CoordinationRequestModel::CommitOffset {
                group_id: group_id@,
                generation,
                topic: topic@,
                partition,
                offset,
            },
            CoordinationRequest::FetchOffset {
                group_id,
                topic,
                partition,
            } => CoordinationRequestModel::FetchOffset {
                group_id: group_id@,
                topic: topic@,
                partition,
            },
        }
    }
}

/// A shard's answer to one command.
#[derive(Debug, Eq, PartialEq)]
pub enum PartitionResult {
    Produced { base_offset: i64 },
    Fetched(FetchWindow),
    Offset(i64),
    Failed(LogError),
    Coordination(Result<CoordinationResult, CoordinationError>),
    Resolved,
    Stopped,
}

/// What a shard's answer says.
#[verifier::ext_equal]
pub enum PartitionResultModel {
    Produced { base_offset: i64 },
    Fetched(WindowModel),
    Offset(i64),
    Failed(LogError),
    Coordination(Result<CoordinationResultModel, CoordinationError>),
    Resolved,
    Stopped,
}

impl DeepView for PartitionResult {
    type V = PartitionResultModel;

    open spec fn deep_view(&self) -> PartitionResultModel {
        match *self {
            PartitionResult::Produced { base_offset } => PartitionResultModel::Produced { base_offset },
            PartitionResult::Fetched(window) => PartitionResultModel::Fetched(window.deep_view()),
            PartitionResult::Offset(offset) => PartitionResultModel::Offset(offset),
            PartitionResult::Failed(error) => PartitionResultModel::Failed(error),
            PartitionResult::Coordination(result) => PartitionResultModel::Coordination(
                coordination_view(result),
            ),
            PartitionResult::Resolved => PartitionResultModel::Resolved,
            PartitionResult::Stopped => PartitionResultModel::Stopped,
        }
    }
}

/// The answer to a coordination request.
#[derive(Debug, Eq, PartialEq)]
pub enum CoordinationResult {
    Producer(ProducerIdentity),
    Group { generation: i32, assignments: Vec<GroupAssignment> },
    TransactionCompleted(TransactionCompletion),
    Offset(Option<i64>),
    Applied,
}

/// What the answer to a coordination request says.
#[verifier::ext_equal]
pub enum CoordinationResultModel {
    Producer(ProducerIdentity),
    Group { generation: i32, assignments: Seq<AssignmentModel> },
    TransactionCompleted(CompletionModel),
    Offset(Option<i64>),
    Applied,
}

impl DeepView for CoordinationResult {
    type V = CoordinationResultModel;

    open spec fn deep_view(&self) -> CoordinationResultModel {
        match *self {
            CoordinationResult::Producer(identity) => CoordinationResultModel::Producer(identity),
            CoordinationResult::Group {
                generation,
                assignments,
            } => CoordinationResultModel::Group { generation, assignments: assignments.deep_view() },
            CoordinationResult::TransactionCompleted(completion) => {
                CoordinationResultModel::TransactionCompleted(completion.deep_view())
            },
            CoordinationResult::Offset(offset) => CoordinationResultModel::Offset(offset),
            CoordinationResult::Applied => CoordinationResultModel::Applied,
        }
    }
}

/// What a coordinator's answer says.
pub open spec fn coordination_view(r: Result<CoordinationResult, CoordinationError>) -> Result<
    CoordinationResultModel,
    CoordinationError,
> {
    match r {
        Ok(result) => Ok(result.deep_view()),
        Err(error) => Err(error),
    }
}

} // verus!
