//! What a listener does with what it is told.

use vstd::prelude::*;

use crate::broker_runtime::session::{SessionId, SessionShardLayout, ShardId};
use crate::front_end::connection::{Connection, ConnectionModel};
use crate::front_end::diagnostics::{Diagnostics, Heartbeat};
use crate::front_end::HEARTBEAT_POLLS;

verus! {

/// What happened at the listener.
#[derive(Clone, Copy, Debug, Eq, PartialEq, Structural)]
pub enum AcceptEvent {
    /// The port could not be listened on.
    ListenFailed,
    /// A client connected.
    Accepted,
    /// No client is waiting.
    WouldBlock,
    /// Accepting failed.
    Failed,
}

/// The event that the result code of an accept stands for.
pub open spec fn event_of(result: i64, would_block: i64) -> AcceptEvent {
    if result == 0 {
        AcceptEvent::Accepted
    } else if result == would_block {
        AcceptEvent::WouldBlock
    } else {
        AcceptEvent::Failed
    }
}

/// The event that the result code of an accept stands for.
pub fn accept_event(result: i64, would_block: i64) -> (r: AcceptEvent)
    ensures
        r == event_of(result, would_block),
{
    if result == 0 {
        AcceptEvent::Accepted
    } else if result == would_block {
        AcceptEvent::WouldBlock
    } else {
        AcceptEvent::Failed
    }
}

/// What is to be done at the listener.
#[derive(Debug)]
pub enum AcceptAction {
    /// Wait, then open the listener again.
    Reopen,
    /// Serve a connection on a session shard, then open the listener again.
    Serve {
        /// The accepted connection.
        connection: Connection,
        /// The shard of its session.
        shard: ShardId,
    },
    /// Wait, then ask for a client again.
    Poll {
        /// Whether a heartbeat is due.
        heartbeat: bool,
    },
    /// Give up.
    Abort,
}

/// What an action says.
#[verifier::ext_equal]
pub enum ActionModel {
    Reopen,
    Serve { connection: ConnectionModel, shard: usize },
    Poll { heartbeat: bool },
    Abort,
}

impl DeepView for AcceptAction {
    type V = ActionModel;

    open spec fn deep_view(&self) -> ActionModel {
        match *self {
            AcceptAction::Reopen => ActionModel::Reopen,
            AcceptAction::Serve { connection, shard } => ActionModel::Serve {
                connection: connection@,
                shard: shard.0,
            },
            AcceptAction::Poll { heartbeat } => ActionModel::Poll { heartbeat },
            AcceptAction::Abort => ActionModel::Abort,
        }
    }
}

/// The mathematical model of a listener.
pub struct AcceptorModel {
    /// Idle polls since the last heartbeat.
    pub polls: nat,
    /// Where sessions go.
    pub layout: SessionShardLayout,
}

impl AcceptorModel {
    /// What a listener does, and what it counts, when something happens.
    pub open spec fn stepped(self, event: AcceptEvent, diagnostics: Diagnostics) -> (
        AcceptorModel,
        Diagnostics,
        ActionModel,
    ) {
        match event {
            AcceptEvent::ListenFailed => (self, diagnostics, ActionModel::Reopen),
            AcceptEvent::Accepted => {
                let number = diagnostics.next_connection.wrapping_add(1);
                (
                    self,
                    diagnostics.with_accepted(),
                    ActionModel::Serve {
                        connection: ConnectionModel { number, pending: seq![] },
                        shard: (self.layout.first() + self.layout.slot_of(number)) as usize,
                    },
                )
            },
            AcceptEvent::WouldBlock => {
                let heartbeat = self.polls + 1 == HEARTBEAT_POLLS;
                (
                    AcceptorModel {
                        polls: if heartbeat {
                            0
                        } else {
                            self.polls + 1
                        },
                        ..self
                    },
                    diagnostics,
                    ActionModel::Poll { heartbeat },
                )
            },
            AcceptEvent::Failed => (self, diagnostics, ActionModel::Abort),
        }
    }
}

/// A listener that hands connections to session shards.
#[derive(Debug)]
pub struct Acceptor {
    heartbeat: Heartbeat,
    layout: SessionShardLayout,
}

impl View for Acceptor {
    type V = AcceptorModel;

    closed spec fn view(&self) -> AcceptorModel {
        AcceptorModel { polls: self.heartbeat@, layout: self.layout }
    }
}

impl Acceptor {
    /// The layout has a shard, and all its shards have a number.
    pub closed spec fn wf(self) -> bool {
        &&& self.heartbeat.wf()
        &&& self.layout.wf()
        &&& self.layout.first() + self.layout.count() <= usize::MAX
    }

    /// Creates a listener over a layout of session shards.
    pub fn new(layout: SessionShardLayout) -> (r: Self)
        requires
            layout.wf(),
            layout.first() + layout.count() <= usize::MAX,
        ensures
            r.wf(),
            r@ == (AcceptorModel { polls: 0, layout }),
    {
        Acceptor { heartbeat: Heartbeat::new(), layout }
    }

    /// Takes in what happened at the listener, and returns what is to be done.
    pub fn step(&mut self, event: AcceptEvent, diagnostics: &mut Diagnostics) -> (r: AcceptAction)
        requires
            old(self).wf(),
        ensures
            final(self).wf(),
            (final(self)@, *final(diagnostics), r.deep_view()) == old(self)@.stepped(
                event,
                *old(diagnostics),
            ),
    {
        match event {
            AcceptEvent::ListenFailed => AcceptAction::Reopen,
            AcceptEvent::Accepted => {
                let connection = Connection::accept(diagnostics);
                let shard = self.layout.shard_for(SessionId::new(connection.number()));
                AcceptAction::Serve { connection, shard }
            },
            AcceptEvent::WouldBlock => AcceptAction::Poll { heartbeat: self.heartbeat.poll() },
            AcceptEvent::Failed => AcceptAction::Abort,
        }
    }
}

/// Idle polls in a row.
pub open spec fn idled(listener: AcceptorModel, diagnostics: Diagnostics, polls: nat) -> AcceptorModel
    decreases polls,
{
    if polls == 0 {
        listener
    } else {
        idled(listener, diagnostics, (polls - 1) as nat).stepped(
            AcceptEvent::WouldBlock,
            diagnostics,
        ).0
    }
}

/// A listener that is left alone is due a heartbeat after so many polls, and
/// not before.
pub proof fn law_heartbeats_are_regular(
    listener: AcceptorModel,
    diagnostics: Diagnostics,
    polls: nat,
)
    requires
        listener.polls == 0,
        polls < HEARTBEAT_POLLS,
    ensures
        idled(listener, diagnostics, polls).polls == polls,
        idled(listener, diagnostics, polls).layout == listener.layout,
        idled(listener, diagnostics, polls).stepped(AcceptEvent::WouldBlock, diagnostics).2
            == (ActionModel::Poll { heartbeat: polls + 1 == HEARTBEAT_POLLS }),
    decreases polls,
{
    if polls > 0 {
        law_heartbeats_are_regular(listener, diagnostics, (polls - 1) as nat);
    }
}

/// An accepted connection gets the number that is counted for it, has received
/// nothing yet, and is served on one of the shards of the layout; no other event
/// of a listener is counted.
pub proof fn law_accepted_connections_are_served(listener: AcceptorModel, diagnostics: Diagnostics)
    requires
        listener.layout.wf(),
        listener.layout.first() + listener.layout.count() <= usize::MAX,
    ensures
        ({
            let (after, counted, action) = listener.stepped(AcceptEvent::Accepted, diagnostics);
            &&& after == listener
            &&& counted.accepted == diagnostics.accepted.wrapping_add(1)
            &&& counted.active == diagnostics.active.wrapping_add(1)
            &&& action matches ActionModel::Serve { connection, shard } && connection.number
                == counted.next_connection && connection.number == counted.last_connection
                && connection.pending.len() == 0 && listener.layout.first() <= shard
                < listener.layout.first() + listener.layout.count()
        }),
        listener.stepped(AcceptEvent::ListenFailed, diagnostics).1 == diagnostics,
        listener.stepped(AcceptEvent::WouldBlock, diagnostics).1 == diagnostics,
        listener.stepped(AcceptEvent::Failed, diagnostics).1 == diagnostics,
        listener.stepped(AcceptEvent::ListenFailed, diagnostics).2 is Reopen,
        listener.stepped(AcceptEvent::Failed, diagnostics).2 is Abort,
{
}

} // verus!
