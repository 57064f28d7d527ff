//! Kafka error codes of broker errors.

use vstd::prelude::*;

use crate::broker_core::coordination::CoordinationError;
use crate::broker_core::error::LogError;
use crate::broker_runtime::error::BrokerError;
use crate::broker_wire::protocol::{
    INVALID_PRODUCER_EPOCH, INVALID_REQUEST, INVALID_TXN_STATE, NO_ERROR, OFFSET_OUT_OF_RANGE,
    UNKNOWN_SERVER_ERROR, UNKNOWN_TOPIC_OR_PARTITION,
};

verus! {

broadcast use crate::bytes::lemma_bytes_deep_view, crate::bytes::lemma_slice_deep_view;

/// The Kafka code of a broker error.
pub open spec fn code_of(error: BrokerError) -> i16 {
    match error {
        BrokerError::Core(LogError::UnknownTopic) => UNKNOWN_TOPIC_OR_PARTITION,
        BrokerError::Core(LogError::UnknownPartition) => UNKNOWN_TOPIC_OR_PARTITION,
        BrokerError::Core(LogError::OffsetOutOfRange) => OFFSET_OUT_OF_RANGE,
        _ => UNKNOWN_SERVER_ERROR,
    }
}

/// The Kafka code of an error in a coordination request.
pub open spec fn coordination_code_of(error: BrokerError) -> i16 {
    match error {
        BrokerError::Coordination(CoordinationError::ProducerFenced) => INVALID_PRODUCER_EPOCH,
        BrokerError::Coordination(CoordinationError::InvalidTransactionState) => INVALID_TXN_STATE,
        BrokerError::Coordination(_) => INVALID_REQUEST,
        _ => code_of(error),
    }
}

/// The Kafka code of the answer to a coordination request.
pub open spec fn outcome_code(r: Result<(), BrokerError>) -> i16 {
    match r {
        Ok(_) => NO_ERROR,
        Err(error) => coordination_code_of(error),
    }
}

/// The Kafka code of a broker error.
pub fn error_code(error: BrokerError) -> (r: i16)
    ensures
        r == code_of(error),
{
    match error {
        BrokerError::Core(LogError::UnknownTopic) => UNKNOWN_TOPIC_OR_PARTITION,
        BrokerError::Core(LogError::UnknownPartition) => UNKNOWN_TOPIC_OR_PARTITION,
        BrokerError::Core(LogError::OffsetOutOfRange) => OFFSET_OUT_OF_RANGE,
        _ => UNKNOWN_SERVER_ERROR,
    }
}

/// The Kafka code of an error in a coordination request.
pub fn coordination_error_code(error: BrokerError) -> (r: i16)
    ensures
        r == coordination_code_of(error),
{
    match error {
        BrokerError::Coordination(CoordinationError::ProducerFenced) => INVALID_PRODUCER_EPOCH,
        BrokerError::Coordination(CoordinationError::InvalidTransactionState) => INVALID_TXN_STATE,
        BrokerError::Coordination(_) => INVALID_REQUEST,
        other => error_code(other),
    }
}

/// The Kafka code of the answer to a coordination request.
pub fn outcome_error_code(outcome: Result<(), BrokerError>) -> (r: i16)
    ensures
        r == outcome_code(outcome),
{
    match outcome {
        Ok(()) => NO_ERROR,
        Err(error) => coordination_error_code(error),
    }
}

/// The codes that clients get. Nothing but success has the code of success. An
/// unknown topic or partition, an offset out of range, a fenced producer and a
/// wrong transaction state each have the code that Kafka gives them; any other
/// refusal of the coordinator is an invalid request, and anything else an
/// unknown error.
pub proof fn law_codes_tell_what_happened(error: BrokerError)
    ensures
        code_of(error) != 0,
        coordination_code_of(error) != 0,
        outcome_code(Ok(())) == 0,
        outcome_code(Err(error)) == coordination_code_of(error),
        code_of(error) == 3 <==> error == BrokerError::Core(LogError::UnknownTopic) || error
            == BrokerError::Core(LogError::UnknownPartition),
        code_of(error) == 1 <==> error == BrokerError::Core(LogError::OffsetOutOfRange),
        code_of(error) == -1 || code_of(error) == 1 || code_of(error) == 3,
        coordination_code_of(error) == 47 <==> error == BrokerError::Coordination(
            CoordinationError::ProducerFenced,
        ),
        coordination_code_of(error) == 48 <==> error == BrokerError::Coordination(
            CoordinationError::InvalidTransactionState,
        ),
        error is Coordination ==> coordination_code_of(error) == 42 || coordination_code_of(error)
            == 47 || coordination_code_of(error) == 48,
        !(error is Coordination) ==> coordination_code_of(error) == code_of(error),
{
}

} // verus!
