//! How shards are asked: one request, one reply.

use core::sync::atomic::AtomicBool;
use core::sync::atomic::Ordering;
use core::time::Duration;

use vstd::prelude::*;

use sitas_core::shard_runtime::{channel, ShardReceiver, ShardSender};

use crate::broker_runtime::broker;
use crate::broker_runtime::channel::{poll, Parker};
use crate::broker_runtime::error::BrokerError;
use crate::broker_runtime::message::{
    PartitionCommand, PartitionRequest, PartitionRequestModel, PartitionResult, PartitionResultModel,
};

verus! {

/// What a call to a shard brings back: a reply, or the failure to get one.
pub type CallModel = Result<PartitionResultModel, BrokerError>;

/// What a call stands for.
pub open spec fn call_view(r: Result<PartitionResult, BrokerError>) -> CallModel {
    match r {
        Ok(reply) => Ok(reply.deep_view()),
        Err(error) => Err(error),
    }
}

/// Shards that can be asked.
///
/// What is made of their answers is the same for all kinds of shards, so it is
/// stated for any relation between what a shard is asked and what comes back.
pub trait Shards {
    /// What always holds of the shards.
    spec fn wf(&self) -> bool;

    /// How many shards there are.
    spec fn count(&self) -> nat;

    /// Whether asking a shard can end this way.
    spec fn can_answer(&self, shard: nat, request: PartitionRequestModel, call: CallModel) -> bool;

    /// How many shards there are.
    fn shard_count(&self) -> (r: usize)
        ensures
            r == self.count(),
    ;

    /// Sends one request to a shard and waits for its reply.
    fn exchange(&self, shard: usize, request: PartitionRequest) -> (r: Result<
        PartitionResult,
        BrokerError,
    >)
        requires
            self.wf(),
            shard < self.count(),
        ensures
            self.can_answer(shard as nat, request.deep_view(), call_view(r)),
    ;
}

/// Usable capacity `items` corresponds to a ring size one larger, because the
/// bounded ring buffer distinguishes full from empty with a reserved slot.
pub(crate) fn queue_capacity(items: usize) -> (r: usize)
    requires
        items < usize::MAX,
    ensures
        r == items + 1,
{
    items + 1
}

/// The sending end of a shard's mailbox.
///
/// The ring of a channel takes one sender at a time, so callers on several
/// threads take turns: while one of them sends, the mailbox is as good as full
/// for the others.
pub struct Mailbox {
    sender: ShardSender<PartitionCommand>,
    busy: AtomicBool,
}

impl Mailbox {
    /// The end of the channel that commands go into.
    pub closed spec fn sender(&self) -> ShardSender<PartitionCommand> {
        self.sender
    }

    /// Whether the mailbox was found in the hands of another caller.
    pub closed spec fn taken_by_another(&self) -> bool {
        call_ensures(AtomicBool::swap, (&self.busy, true, Ordering::Acquire), true)
    }

    /// Whether the mailbox was found free, and was let go of again.
    pub closed spec fn taken_and_released(&self) -> bool {
        &&& call_ensures(AtomicBool::swap, (&self.busy, true, Ordering::Acquire), false)
        &&& exists|done: ()| #[trigger]
            call_ensures(AtomicBool::store, (&self.busy, false, Ordering::Release), done)
    }

    /// Whether this command was queued: the mailbox was free for as long as it
    /// took, and the channel had room.
    pub open spec fn accepts(&self, command: PartitionCommand) -> bool {
        &&& self.taken_and_released()
        &&& exists|sent: Result<(), PartitionCommand>|
            sent is Ok && #[trigger] call_ensures(
                ShardSender::<PartitionCommand>::try_send,
                (&self.sender(), command),
                sent,
            )
    }

    /// Whether the channel did not take this command, and the mailbox was let
    /// go of.
    pub open spec fn turned_away(&self, command: PartitionCommand) -> bool {
        &&& self.taken_and_released()
        &&& exists|sent: Result<(), PartitionCommand>|
            sent is Err && #[trigger] call_ensures(
                ShardSender::<PartitionCommand>::try_send,
                (&self.sender(), command),
                sent,
            )
    }

    /// Whether this command was refused: another caller was sending, or the
    /// channel did not take it.
    pub open spec fn refuses(&self, command: PartitionCommand) -> bool {
        self.taken_by_another() || self.turned_away(command)
    }

    /// Wraps the sending end of a channel.
    pub fn new(sender: ShardSender<PartitionCommand>) -> (r: Self)
        ensures
            r.sender() == sender,
    {
        Mailbox { sender, busy: AtomicBool::new(false) }
    }

    /// Queues a command, or hands it back. Whether there is room depends on
    /// the other threads.
    pub fn try_send(&self, command: PartitionCommand) -> (r: Result<(), PartitionCommand>)
        ensures
            match r {
                Ok(_) => self.accepts(command),
                Err(returned) => returned == command && self.refuses(command),
            },
    {
        if self.busy.swap(true, Ordering::Acquire) {
            return Err(command);
        }
        let outcome = self.sender.try_send(command);
        self.busy.store(false, Ordering::Release);
        outcome
    }
}

/// How often something is tried before it is given up: at least once.
pub open spec fn tries_allowed(max_retries: u32) -> nat {
    if max_retries == 0 {
        1
    } else {
        max_retries as nat
    }
}

/// Whether somebody waited on this parker for this long.
pub open spec fn parked<P: Parker>(parker: &P, timeout: Duration) -> bool {
    exists|done: ()| #[trigger] call_ensures(P::park, (parker, Some(timeout)), done)
}

/// What is left of the tries that a send may take.
pub struct SendBudget {
    left: u32,
}

impl SendBudget {
    /// How many tries are left.
    pub closed spec fn left(&self) -> nat {
        self.left as nat
    }

    /// The budget for this many retries.
    fn new(max_retries: u32) -> (r: Self)
        ensures
            r == Self::of(max_retries),
            r.left() == tries_allowed(max_retries),
    {
        let left: u32 = if max_retries == 0 {
            1
        } else {
            max_retries
        };
        SendBudget { left }
    }

    /// The budget for this many retries.
    pub closed spec fn of(max_retries: u32) -> SendBudget {
        SendBudget { left: tries_allowed(max_retries) as u32 }
    }

    /// Spends one try: offers a command to a mailbox once, and parks when the
    /// mailbox refuses it.
    fn spend<P: Parker>(
        self,
        mailbox: &Mailbox,
        command: PartitionCommand,
        parker: &P,
        park_timeout: Duration,
    ) -> (r: (SendBudget, Result<(), PartitionCommand>))
        requires
            self.left() > 0,
        ensures
            r.0.left() == self.left() - 1,
            match r.1 {
                Ok(_) => mailbox.accepts(command),
                Err(returned) => {
                    &&& returned == command
                    &&& mailbox.refuses(command)
                    &&& parked(parker, park_timeout)
                },
            },
    {
        let outcome = mailbox.try_send(command);
        if outcome.is_err() {
            parker.park(Some(park_timeout));
        }
        (SendBudget { left: self.left - 1 }, outcome)
    }
}

/// Whether spending one try of `before` on this command ended this way and left
/// `after`.
pub closed spec fn tried<P: Parker>(
    before: SendBudget,
    mailbox: Mailbox,
    command: PartitionCommand,
    parker: P,
    park_timeout: Duration,
    after: SendBudget,
    outcome: Result<(), PartitionCommand>,
) -> bool {
    call_ensures(
        SendBudget::spend::<P>,
        (before, &mailbox, command, &parker, park_timeout),
        (after, outcome),
    )
}

/// Whether this many tries of a budget, one after the other, were all refused
/// and left `end`.
pub open spec fn stayed_refused<P: Parker>(
    start: SendBudget,
    mailbox: Mailbox,
    command: PartitionCommand,
    parker: P,
    park_timeout: Duration,
    tries: nat,
    end: SendBudget,
) -> bool
    decreases tries,
{
    if tries == 0 {
        start == end
    } else {
        exists|before: SendBudget| #[trigger]
            tried(before, mailbox, command, parker, park_timeout, end, Err(command))
                && stayed_refused(
                start,
                mailbox,
                command,
                parker,
                park_timeout,
                (tries - 1) as nat,
                before,
            )
    }
}

/// Whether a command was queued after this many tries that were refused.
pub open spec fn queued_after<P: Parker>(
    mailbox: Mailbox,
    command: PartitionCommand,
    parker: P,
    park_timeout: Duration,
    max_retries: u32,
    refusals: nat,
) -> bool {
    exists|before: SendBudget, after: SendBudget, outcome: Result<(), PartitionCommand>|
        outcome is Ok && #[trigger] tried(
            before,
            mailbox,
            command,
            parker,
            park_timeout,
            after,
            outcome,
        ) && stayed_refused(
            SendBudget::of(max_retries),
            mailbox,
            command,
            parker,
            park_timeout,
            refusals,
            before,
        )
}

/// Whether sending a command with retries ends this way: it is queued at one of
/// the tries that are allowed, or it is given up when all of them were refused.
pub open spec fn sent_with_retries<P: Parker>(
    mailbox: Mailbox,
    command: PartitionCommand,
    parker: P,
    park_timeout: Duration,
    max_retries: u32,
    step: Result<(), BrokerError>,
) -> bool {
    match step {
        Ok(_) => exists|refusals: nat|
            refusals < tries_allowed(max_retries) && #[trigger] queued_after(
                mailbox,
                command,
                parker,
                park_timeout,
                max_retries,
                refusals,
            ),
        Err(error) => {
            &&& error == BrokerError::MailboxUnavailable
            &&& exists|end: SendBudget| #[trigger]
                stayed_refused(
                    SendBudget::of(max_retries),
                    mailbox,
                    command,
                    parker,
                    park_timeout,
                    tries_allowed(max_retries),
                    end,
                )
        },
    }
}

/// Queues a command, parking between tries while the mailbox is full.
fn send_with_retry<P: Parker>(
    mailbox: &Mailbox,
    command: PartitionCommand,
    parker: &P,
    park_timeout: Duration,
    max_retries: u32,
) -> (r: Result<(), BrokerError>)
    ensures
        sent_with_retries(*mailbox, command, *parker, park_timeout, max_retries, r),
        match r {
            Ok(_) => mailbox.accepts(command),
            Err(_) => mailbox.refuses(command) && parked(parker, park_timeout),
        },
{
    let mut budget = SendBudget::new(max_retries);
    let ghost mut refusals: nat = 0;
    let mut offered = command;
    while budget.left > 0
        invariant
            offered == command,
            refusals + budget.left() == tries_allowed(max_retries),
            stayed_refused(
                SendBudget::of(max_retries),
                *mailbox,
                command,
                *parker,
                park_timeout,
                refusals,
                budget,
            ),
            refusals > 0 ==> mailbox.refuses(command) && parked(parker, park_timeout),
        decreases budget.left,
    {
        let ghost before = budget;
        let (after, outcome) = budget.spend(mailbox, offered, parker, park_timeout);
        budget = after;
        assert(tried(before, *mailbox, command, *parker, park_timeout, after, outcome));
        match outcome {
            Ok(()) => {
                assert(queued_after(
                    *mailbox,
                    command,
                    *parker,
                    park_timeout,
                    max_retries,
                    refusals,
                ));
                return Ok(());
            },
            Err(returned) => {
                offered = returned;
                proof {
                    refusals = refusals + 1;
                }
            },
        }
    }
    Err(BrokerError::MailboxUnavailable)
}

/// Whether a poll of `before` gave this message and left `after`.
pub closed spec fn polled(
    before: ShardReceiver<PartitionResult>,
    after: ShardReceiver<PartitionResult>,
    message: Option<PartitionResult>,
) -> bool {
    call_ensures(poll::<PartitionResult>, (before,), (after, message))
}

/// Whether this many polls of `start`, one after the other, gave nothing and
/// left `end`.
pub open spec fn stayed_empty(
    start: ShardReceiver<PartitionResult>,
    polls: nat,
    end: ShardReceiver<PartitionResult>,
) -> bool
    decreases polls,
{
    if polls == 0 {
        start == end
    } else {
        exists|before: ShardReceiver<PartitionResult>| #[trigger]
            polled(before, end, None) && stayed_empty(start, (polls - 1) as nat, before)
    }
}

/// Whether this reply was the first thing received, after `polls` polls that
/// gave nothing.
pub open spec fn first_received(
    receiver: ShardReceiver<PartitionResult>,
    polls: nat,
    reply: PartitionResultModel,
) -> bool {
    exists|
        before: ShardReceiver<PartitionResult>,
        after: ShardReceiver<PartitionResult>,
        result: PartitionResult,
    | #[trigger]
        polled(before, after, Some(result)) && stayed_empty(receiver, polls, before)
            && result.deep_view() == reply
}

/// Whether waiting for a reply ends this way: with the first thing received
/// in as many polls as are allowed, or with a timeout when all of them gave
/// nothing.
pub open spec fn awaited(
    receiver: ShardReceiver<PartitionResult>,
    polls: nat,
    call: CallModel,
) -> bool {
    match call {
        Ok(reply) => exists|before: nat|
            before < polls && #[trigger] first_received(receiver, before, reply),
        Err(error) => {
            &&& error == BrokerError::ReplyTimeout
            &&& exists|end: ShardReceiver<PartitionResult>| #[trigger]
                stayed_empty(receiver, polls, end)
        },
    }
}

/// Waits for a reply, parking between polls.
fn wait_reply<P: Parker>(
    receiver: ShardReceiver<PartitionResult>,
    parker: &P,
    park_timeout: Duration,
    max_retries: u32,
) -> (r: Result<PartitionResult, BrokerError>)
    ensures
        awaited(receiver, tries_allowed(max_retries), call_view(r)),
        r is Err ==> parked(parker, park_timeout),
{
    let tries: u32 = if max_retries == 0 {
        1
    } else {
        max_retries
    };
    let mut rest = receiver;
    let mut tried: u32 = 0;
    while tried < tries
        invariant
            tried <= tries,
            tries == tries_allowed(max_retries),
            stayed_empty(receiver, tried as nat, rest),
            tried > 0 ==> parked(parker, park_timeout),
        decreases tries - tried,
    {
        let ghost before = rest;
        let (after, message) = poll(rest);
        rest = after;
        assert(polled(before, after, message));
        match message {
            Some(result) => {
                assert(first_received(receiver, tried as nat, result.deep_view()));
                return Ok(result);
            },
            None => {},
        }
        parker.park(Some(park_timeout));
        tried += 1;
    }
    Err(BrokerError::ReplyTimeout)
}

/// What stopping one shard makes of its reply.
pub open spec fn stop_answer(call: CallModel) -> Result<(), BrokerError> {
    match call {
        Ok(PartitionResultModel::Stopped) => Ok(()),
        Ok(_) => Err(BrokerError::UnexpectedReply),
        Err(error) => Err(error),
    }
}

/// What stopping one shard makes of its reply.
pub fn answer_stop(call: Result<PartitionResult, BrokerError>) -> (r: Result<(), BrokerError>)
    ensures
        r == stop_answer(call_view(call)),
{
    match call {
        Ok(PartitionResult::Stopped) => Ok(()),
        Ok(_) => Err(BrokerError::UnexpectedReply),
        Err(error) => Err(error),
    }
}

/// Whether these are the two ends of a channel with room for one reply.
pub open spec fn reply_channel(
    reply: ShardSender<PartitionResult>,
    receiver: ShardReceiver<PartitionResult>,
) -> bool {
    call_ensures(channel::<PartitionResult>, (2usize,), Ok((reply, receiver)))
}

/// Whether these are the two ends of a channel with room for this many
/// commands.
pub open spec fn command_channel(
    capacity: usize,
    sender: ShardSender<PartitionCommand>,
    mailbox: ShardReceiver<PartitionCommand>,
) -> bool {
    call_ensures(channel::<PartitionCommand>, ((capacity + 1) as usize,), Ok((sender, mailbox)))
}

/// Shards on threads of their own, reached through their mailboxes.
pub struct ShardLinks<P: Parker> {
    mailboxes: Vec<Mailbox>,
    parker: P,
    park_timeout: Duration,
    max_retries: u32,
    stopped: AtomicBool,
}

impl<P: Parker> Shards for ShardLinks<P> {
    closed spec fn wf(&self) -> bool {
        0 < self.mailboxes@.len()
    }

    closed spec fn count(&self) -> nat {
        self.mailboxes@.len()
    }

    /// What a shard answers is up to it: it has been asked by others before.
    /// The request goes to its mailbox with a reply channel of its own, and
    /// what comes back is what arrives there.
    open spec fn can_answer(&self, shard: nat, request: PartitionRequestModel, call: CallModel) -> bool {
        exists|command: PartitionCommand, receiver: ShardReceiver<PartitionResult>|
            command.request.deep_view() == request && #[trigger] self.exchanged(
                shard,
                command,
                receiver,
                call,
            )
    }

    fn shard_count(&self) -> (r: usize) {
        self.mailboxes.len()
    }

    fn exchange(&self, shard: usize, request: PartitionRequest) -> (r: Result<
        PartitionResult,
        BrokerError,
    >) {
        let (reply, receiver) = match channel::<PartitionResult>(queue_capacity(1)) {
            Ok(ends) => ends,
            Err(_) => {
                return Err(BrokerError::InvalidConfig);
            },
        };
        let command = PartitionCommand { request, reply };
        let ghost asked = command;
        let ghost answers = receiver;
        let sent = send_with_retry(
            &self.mailboxes[shard],
            command,
            &self.parker,
            self.park_timeout,
            self.max_retries,
        );
        match sent {
            Err(error) => {
                assert(self.exchanged(shard as nat, asked, answers, Err(error)));
                Err(error)
            },
            Ok(()) => {
                let call = wait_reply(receiver, &self.parker, self.park_timeout, self.max_retries);
                assert(self.exchanged(shard as nat, asked, answers, call_view(call)));
                call
            },
        }
    }
}

impl<P: Parker> ShardLinks<P> {
    /// The mailbox of a shard.
    pub closed spec fn mailbox(&self, shard: nat) -> Mailbox {
        self.mailboxes@[shard as int]
    }

    /// How often a mailbox or a reply is tried.
    pub closed spec fn tries(&self) -> nat {
        tries_allowed(self.max_retries)
    }

    /// Whether somebody waited between tries.
    pub closed spec fn waited(&self) -> bool {
        parked(&self.parker, self.park_timeout)
    }

    /// Whether sending a command to the mailbox of a shard, with as many tries as
    /// are allowed, ends this way.
    pub closed spec fn sent(
        &self,
        shard: nat,
        command: PartitionCommand,
        step: Result<(), BrokerError>,
    ) -> bool {
        sent_with_retries(
            self.mailbox(shard),
            command,
            self.parker,
            self.park_timeout,
            self.max_retries,
            step,
        )
    }

    /// Whether these shards were found stopped.
    pub closed spec fn found_stopped(&self) -> bool {
        call_ensures(AtomicBool::swap, (&self.stopped, true, Ordering::AcqRel), true)
    }

    /// Whether these shards were found running.
    pub closed spec fn found_running(&self) -> bool {
        call_ensures(AtomicBool::swap, (&self.stopped, true, Ordering::AcqRel), false)
    }

    /// Whether sending this command to a shard and waiting at the other end of
    /// its reply channel ends this way.
    pub open spec fn exchanged(
        &self,
        shard: nat,
        command: PartitionCommand,
        receiver: ShardReceiver<PartitionResult>,
        call: CallModel,
    ) -> bool {
        &&& reply_channel(command.reply, receiver)
        &&& call is Err ==> self.waited()
        &&& match call {
            Err(BrokerError::MailboxUnavailable) => {
                &&& self.mailbox(shard).refuses(command)
                &&& self.sent(shard, command, Err(BrokerError::MailboxUnavailable))
            },
            _ => {
                &&& self.mailbox(shard).accepts(command)
                &&& self.sent(shard, command, Ok(()))
                &&& awaited(receiver, self.tries(), call)
            },
        }
    }

    /// Whether telling a shard to stop, with this reply channel, ends this way.
    pub open spec fn told(
        &self,
        shard: nat,
        command: PartitionCommand,
        receiver: ShardReceiver<PartitionResult>,
        step: Result<(), BrokerError>,
    ) -> bool {
        &&& command.request is Shutdown
        &&& reply_channel(command.reply, receiver)
        &&& self.sent(shard, command, step)
        &&& match step {
            Ok(_) => self.mailbox(shard).accepts(command),
            Err(error) => {
                &&& error == BrokerError::MailboxUnavailable
                &&& self.mailbox(shard).refuses(command)
                &&& self.waited()
            },
        }
    }

    /// Whether the acknowledgement that was awaited here is this.
    pub open spec fn acknowledged(
        &self,
        receiver: ShardReceiver<PartitionResult>,
        step: Result<(), BrokerError>,
    ) -> bool {
        exists|call: CallModel| #[trigger]
            awaited(receiver, self.tries(), call) && (call is Err ==> self.waited()) && step
                == stop_answer(call)
    }

    /// Whether these steps stop the shards: each is told to stop, then each
    /// acknowledges, and the first failure ends the work and is the answer.
    pub open spec fn stopped_by(
        &self,
        commands: Seq<PartitionCommand>,
        receivers: Seq<ShardReceiver<PartitionResult>>,
        sends: Seq<Result<(), BrokerError>>,
        replies: Seq<Result<(), BrokerError>>,
        r: Result<(), BrokerError>,
    ) -> bool {
        &&& broker::taken(sends, self.count())
        &&& forall|i: int|
            0 <= i < sends.len() ==> self.told(
                i as nat,
                commands[i],
                receivers[i],
                #[trigger] sends[i],
            )
        &&& match broker::first_failure(sends) {
            Err(error) => r == Err::<(), BrokerError>(error),
            Ok(_) => {
                &&& broker::taken(replies, self.count())
                &&& forall|i: int|
                    0 <= i < replies.len() ==> self.acknowledged(receivers[i], #[trigger] replies[i])
                &&& r == broker::first_failure(replies)
            },
        }
    }

    /// Whether stopping every shard can end this way.
    pub open spec fn can_stop_shards(&self, r: Result<(), BrokerError>) -> bool {
        exists|
            commands: Seq<PartitionCommand>,
            receivers: Seq<ShardReceiver<PartitionResult>>,
            sends: Seq<Result<(), BrokerError>>,
            replies: Seq<Result<(), BrokerError>>,
        | #[trigger]
            self.stopped_by(commands, receivers, sends, replies, r)
    }

    /// Whether a stop can end this way: with nothing to do, because the shards
    /// were found stopped, or with every shard told to stop, because they were
    /// found running.
    pub open spec fn can_stop(&self, r: Result<(), BrokerError>) -> bool {
        ||| self.found_stopped() && r == Ok::<(), BrokerError>(())
        ||| self.found_running() && self.can_stop_shards(r)
    }

    /// Reaches shards through their mailboxes.
    pub fn new(
        mailboxes: Vec<Mailbox>,
        parker: P,
        park_timeout: Duration,
        max_retries: u32,
    ) -> (r: Self)
        requires
            0 < mailboxes@.len(),
        ensures
            r.wf(),
            r.count() == mailboxes@.len(),
            forall|i: int|
                0 <= i < mailboxes@.len() ==> r.mailbox(i as nat) == #[trigger] mailboxes@[i],
            r.tries() == tries_allowed(max_retries),
            r.waited() == parked(&parker, park_timeout),
            forall|shard: nat, command: PartitionCommand, step: Result<(), BrokerError>|
                shard < mailboxes@.len() ==> #[trigger] r.sent(shard, command, step)
                    == sent_with_retries(
                    mailboxes@[shard as int],
                    command,
                    parker,
                    park_timeout,
                    max_retries,
                    step,
                ),
    {
        ShardLinks { mailboxes, parker, park_timeout, max_retries, stopped: AtomicBool::new(false) }
    }

    /// Stops every shard and waits for its acknowledgement. A second call does
    /// nothing; whether this is the first is up to the other threads.
    pub fn stop(&self) -> (r: Result<(), BrokerError>)
        requires
            self.wf(),
        ensures
            self.can_stop(r),
    {
        if self.stopped.swap(true, Ordering::AcqRel) {
            return Ok(());
        }
        self.stop_shards()
    }

    /// Tells every shard to stop, and then waits for each to acknowledge.
    pub fn stop_shards(&self) -> (r: Result<(), BrokerError>)
        requires
            self.wf(),
        ensures
            self.can_stop_shards(r),
    {
        let ghost mut commands: Seq<PartitionCommand> = seq![];
        let ghost mut ends: Seq<ShardReceiver<PartitionResult>> = seq![];
        let ghost mut sends: Seq<Result<(), BrokerError>> = seq![];
        let ghost mut replies: Seq<Result<(), BrokerError>> = seq![];
        let mut receivers: Vec<ShardReceiver<PartitionResult>> = Vec::new();
        let mut i: usize = 0;
        while i < self.mailboxes.len()
            invariant
                i <= self.mailboxes.len(),
                receivers@ == ends,
                ends.len() == i,
                commands.len() == i,
                sends.len() == i,
                broker::first_failure(sends) is Ok,
                sends.len() > 0 ==> broker::first_failure(sends.drop_last()) is Ok,
                forall|k: int|
                    0 <= k < sends.len() ==> self.told(
                        k as nat,
                        commands[k],
                        ends[k],
                        #[trigger] sends[k],
                    ),
            decreases self.mailboxes.len() - i,
        {
            let (reply, receiver) = match channel::<PartitionResult>(queue_capacity(1)) {
                Ok(ends) => ends,
                Err(_) => {
                    return Err(BrokerError::InvalidConfig);
                },
            };
            let ghost end = receiver;
            receivers.push(receiver);
            let command = PartitionCommand { request: PartitionRequest::Shutdown, reply };
            let ghost asked = command;
            let step = send_with_retry(
                &self.mailboxes[i],
                command,
                &self.parker,
                self.park_timeout,
                self.max_retries,
            );
            proof {
                assert(self.told(i as nat, asked, end, step));
                let before = sends;
                commands = commands.push(asked);
                ends = ends.push(end);
                sends = sends.push(step);
                assert(sends.drop_last() =~= before);
            }
            if step.is_err() {
                proof {
                    assert(self.stopped_by(commands, ends, sends, replies, step));
                }
                return step;
            }
            i += 1;
        }
        let mut acknowledgements: usize = 0;
        while acknowledgements < self.mailboxes.len()
            invariant
                broker::taken(sends, self.count()),
                broker::first_failure(sends) is Ok,
                forall|k: int|
                    0 <= k < sends.len() ==> self.told(
                        k as nat,
                        commands[k],
                        ends[k],
                        #[trigger] sends[k],
                    ),
                acknowledgements <= self.mailboxes.len(),
                ends.len() == self.mailboxes.len(),
                receivers@ == ends.skip(acknowledgements as int),
                replies.len() == acknowledgements,
                broker::first_failure(replies) is Ok,
                replies.len() > 0 ==> broker::first_failure(replies.drop_last()) is Ok,
                forall|k: int|
                    0 <= k < replies.len() ==> self.acknowledged(ends[k], #[trigger] replies[k]),
            decreases self.mailboxes.len() - acknowledgements,
        {
            let receiver = receivers.remove(0);
            let ghost end = receiver;
            let call = wait_reply(receiver, &self.parker, self.park_timeout, self.max_retries);
            let ghost outcome = call_view(call);
            let step = answer_stop(call);
            proof {
                assert(end == ends[acknowledgements as int]);
                assert(receivers@ =~= ends.skip(acknowledgements + 1));
                assert(awaited(end, self.tries(), outcome));
                let before = replies;
                replies = replies.push(step);
                assert(replies.drop_last() =~= before);
            }
            if step.is_err() {
                proof {
                    assert(self.stopped_by(commands, ends, sends, replies, step));
                }
                return step;
            }
            acknowledgements += 1;
        }
        proof {
            assert(self.stopped_by(commands, ends, sends, replies, Ok(())));
        }
        Ok(())
    }
}

} // verus!
