//! The message channels between shards, and how a caller waits.

use core::time::Duration;

use vstd::prelude::*;

use sitas_core::shard_runtime::{ShardChannelError, ShardReceiver, ShardSender};

verus! {

/// The sending end of a `sitas_core` shard channel. Nothing is claimed of its
/// content: other shards send and receive at the same time.
#[verifier::external_type_specification]
#[verifier::external_body]
#[verifier::reject_recursive_types(M)]
pub struct ExShardSender<M>(ShardSender<M>);

/// The receiving end of a `sitas_core` shard channel.
#[verifier::external_type_specification]
#[verifier::external_body]
#[verifier::reject_recursive_types(M)]
pub struct ExShardReceiver<M>(ShardReceiver<M>);

/// Why `sitas_core::shard_runtime::channel` refuses to make a channel.
#[verifier::external_type_specification]
#[verifier::external_body]
pub struct ExShardChannelError(ShardChannelError);

/// The largest channel that is asked for: with slots of up to 2 KiB it fits
/// half the address space, which is the most that can be allocated at once.
pub const MAX_CHANNEL_CAPACITY: usize = usize::MAX / 4096;

/// `sitas_core::shard_runtime::channel` makes a channel exactly when it is
/// asked for at least two slots. It allocates all slots at once, so the
/// capacity is kept to what can be allocated.
pub assume_specification<M: Send + 'static>[ sitas_core::shard_runtime::channel::<M> ](
    capacity: usize,
) -> (r: Result<(ShardSender<M>, ShardReceiver<M>), ShardChannelError>)
    requires
        capacity <= MAX_CHANNEL_CAPACITY,
    ensures
        r is Ok <==> capacity >= 2,
;

/// `ShardSender::try_send` queues the message, or hands the same message back
/// when the channel is full or closed. Whether there is room depends on the
/// other shards. The ring behind it is for one sender at a time.
pub assume_specification<M>[ ShardSender::<M>::try_send ](sender: &ShardSender<M>, msg: M) -> (r: Result<
    (),
    M,
>)
    ensures
        r matches Err(returned) ==> returned == msg,
;

/// `ShardReceiver::try_recv` takes the oldest queued message, if there is one;
/// the receiving end comes back with what it took. Which message it is depends
/// on the other shards, so nothing is claimed of it.
#[verifier::external_body]
pub(crate) fn poll<M>(receiver: ShardReceiver<M>) -> (r: (ShardReceiver<M>, Option<M>)) {
    let mut receiver = receiver;
    let message = receiver.try_recv();
    (receiver, message)
}

/// How a caller waits between polls, and how a shard releases it. Callers
/// re-check what they wait for, because a wait may end at any time.
pub trait Parker {
    /// Waits until released, or until the time is over.
    fn park(&self, timeout: Option<Duration>);

    /// Releases whoever waits.
    fn unpark(&self);
}

} // verus!
