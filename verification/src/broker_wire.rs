//! Bounded server-side Kafka wire subset.
//!
//! Transport-free: a request frame becomes typed data and typed results become
//! a response frame.

pub mod batch_layout;
pub mod codec;
pub mod client_frames;
pub mod places;
pub mod producer_sets;
pub mod protocol;
pub mod record_batch;
pub mod record_batch_laws;
pub mod request;
pub mod request_laws;
pub mod response;
pub mod response_laws;

pub use protocol::Error;
pub use record_batch::{
    crc32c, decode_record_batches, decode_record_batches_with_identity, encode_record_batch,
    DecodedRecordBatch,
};
pub use request::{
    decode_request, peek_header, FetchPartition, FetchTopic, Header, ListOffsetsPartition,
    ListOffsetsTopic, ProducePartition, ProduceTopic, Request, RequestBody,
};
pub use response::{
    encode_add_partitions_to_txn, encode_api_versions, encode_api_versions_error, encode_end_txn,
    encode_fetch, encode_find_coordinator, encode_group_error, encode_init_producer_id,
    encode_join_group, encode_list_offsets, encode_metadata, encode_offset_commit,
    encode_offset_fetch, encode_produce, encode_sync_group, BrokerMetadata, FetchPartitionResult,
    FetchResponse, FetchTopicResult, FindCoordinatorResponse, InitProducerIdResponse,
    JoinGroupResponse, ListOffsetsPartitionResult, ListOffsetsResponse, ListOffsetsTopicResult,
    MetadataResponse, PartitionMetadata, ProducePartitionResult, ProduceResponse,
    ProduceTopicResult, TopicMetadata, TransactionPartitionResult,
};
