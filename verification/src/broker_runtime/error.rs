//! Runtime errors surfaced to the broker caller.

use vstd::prelude::*;

use crate::broker_core::coordination::CoordinationError;
use crate::broker_core::error::LogError;

verus! {

/// A failed broker operation.
#[derive(Clone, Copy, Debug, Eq, PartialEq, Structural)]
pub enum BrokerError {
    /// The broker configuration is inconsistent.
    InvalidConfig,
    /// A shard mailbox stayed full or closed for the whole retry budget.
    MailboxUnavailable,
    /// A shard did not answer within the retry budget.
    ReplyTimeout,
    /// A shard answered with a result that does not match the request.
    UnexpectedReply,
    /// The deterministic core rejected the operation.
    Core(LogError),
    /// A transaction or consumer-group state transition was fenced/rejected.
    Coordination(CoordinationError),
}

impl From<LogError> for BrokerError {
    fn from(error: LogError) -> (r: Self) {
        BrokerError::Core(error)
    }
}

impl vstd::std_specs::convert::FromSpecImpl<LogError> for BrokerError {
    open spec fn obeys_from_spec() -> bool {
        true
    }

    open spec fn from_spec(error: LogError) -> Self {
        BrokerError::Core(error)
    }
}

impl BrokerError {
    /// The text that describes the error: what went wrong, and the reason
    /// that the core or a coordinator gave.
    pub open spec fn description(self) -> (Seq<char>, Option<Seq<char>>) {
        match self {
            BrokerError::InvalidConfig => ("invalid broker configuration"@, None),
            BrokerError::MailboxUnavailable => ("shard mailbox unavailable"@, None),
            BrokerError::ReplyTimeout => ("shard reply timed out"@, None),
            BrokerError::UnexpectedReply => ("unexpected shard reply"@, None),
            BrokerError::Core(error) => ("broker core error"@, Some(error.description())),
            BrokerError::Coordination(error) => ("coordination error"@, Some(error.description())),
        }
    }

    /// Describes the error, with the reason that the core or a coordinator
    /// gave.
    pub fn text(self) -> (r: (&'static str, Option<&'static str>))
        ensures
            r.0@ == self.description().0,
            match r.1 {
                Some(reason) => self.description().1 == Some(reason@),
                None => self.description().1 is None,
            },
    {
        match self {
            BrokerError::InvalidConfig => ("invalid broker configuration", None),
            BrokerError::MailboxUnavailable => ("shard mailbox unavailable", None),
            BrokerError::ReplyTimeout => ("shard reply timed out", None),
            BrokerError::UnexpectedReply => ("unexpected shard reply", None),
            BrokerError::Core(error) => ("broker core error", Some(error.text())),
            BrokerError::Coordination(error) => ("coordination error", Some(error.text())),
        }
    }
}

} // verus!
