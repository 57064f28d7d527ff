//! What holds of shards and placement over several requests.

use vstd::prelude::*;

use crate::broker_core::coordination::CompletionModel;
use crate::broker_core::log::{self, DataModel, MAX_APPEND_RECORDS};
use crate::broker_core::log_laws;
use crate::broker_core::topic::{self, CatalogModel, TopicMetadataModel};
use crate::broker_runtime::broker::{self, Broker};
use crate::broker_runtime::error::BrokerError;
use crate::broker_runtime::channel::Parker;
use crate::broker_runtime::links::{ShardLinks, Shards};
use crate::broker_runtime::message::{
    CoordinationRequestModel, PartitionRequestModel, PartitionResultModel,
};
use crate::broker_runtime::partition::{CoordinationModel, ShardModel};

verus! {

/// Whether every log of a shard is well-formed.
pub open spec fn logs_wf(shard: ShardModel) -> bool {
    forall|place: (Seq<u8>, i32)| #[trigger]
        shard.logs.contains_key(place) ==> shard.logs[place].wf()
}

/// Every request keeps the logs of a shard well-formed, and a fresh shard has
/// none that is not.
pub proof fn law_logs_stay_wf(shard: ShardModel, request: PartitionRequestModel)
    requires
        logs_wf(shard),
        shard.has_room(request),
    ensures
        logs_wf(shard.handled(request).0),
        logs_wf(ShardModel::empty(shard.catalog, shard.partition_max_bytes)),
{
    let after = shard.handled(request).0;
    match request {
        PartitionRequestModel::Produce { topic, partition, records } => {
            lemma_append_wf(shard, topic, partition, records, None);
        },
        PartitionRequestModel::ProduceTransactional { topic, partition, records, producer_id } => {
            lemma_append_wf(shard, topic, partition, records, Some(producer_id));
        },
        PartitionRequestModel::ResolveTransaction { producer_id, commit } => {
            assert forall|place: (Seq<u8>, i32)| #[trigger] after.logs.contains_key(place) implies after.logs[place].wf() by {
                assert(shard.logs.contains_key(place));
                log::lemma_resolved_wf(shard.logs[place], producer_id, commit);
            }
        },
        _ => {},
    }
}

proof fn lemma_append_wf(
    shard: ShardModel,
    topic: Seq<u8>,
    partition: i32,
    records: Seq<DataModel>,
    transaction: Option<i64>,
)
    requires
        logs_wf(shard),
        shard.catalog.checked(topic, partition) is Ok ==> shard.log(topic, partition).has_room(
            records,
        ),
    ensures
        logs_wf(shard.appended(topic, partition, records, transaction).0),
{
    if shard.catalog.checked(topic, partition) is Ok {
        let before = shard.log(topic, partition);
        assert(before.wf());
        if 0 < records.len() <= MAX_APPEND_RECORDS {
            log_laws::law_append_is_contiguous(before, records, transaction);
        }
    }
}

/// What a shard stored is what it gives back: a fetch at the offset that an
/// accepted produce answered reads the same records, as far as the budget
/// allows.
pub proof fn law_produce_then_fetch(
    shard: ShardModel,
    topic: Seq<u8>,
    partition: i32,
    records: Seq<DataModel>,
    max_records: usize,
    max_bytes: usize,
    read_committed: bool,
)
    requires
        logs_wf(shard),
        shard.catalog.checked(topic, partition) is Ok,
        shard.log(topic, partition).has_room(records),
        0 < records.len() <= MAX_APPEND_RECORDS,
    ensures
        ({
            let (after, answer) = shard.handled(
                PartitionRequestModel::Produce { topic, partition, records },
            );
            answer matches PartitionResultModel::Produced { base_offset } && (after.handled(
                PartitionRequestModel::Fetch {
                    topic,
                    partition,
                    offset: base_offset,
                    max_records,
                    max_bytes,
                    read_committed,
                },
            ).1 matches PartitionResultModel::Fetched(window) && window.records == log::budgeted(
                log::stamped(base_offset as int, records),
                max_records as nat,
                max_bytes as nat,
            ) && window.high_watermark == base_offset + records.len())
        }),
{
    let before = shard.log(topic, partition);
    assert(before.wf());
    log_laws::law_append_is_contiguous(before, records, None);
    log_laws::law_append_reads_back(before, records, None, max_records, max_bytes, read_committed);
}

/// Records of a transaction are hidden from read-committed readers while it is
/// open, shown to them once it is committed, and never shown once it is
/// aborted; readers of everything see them throughout.
pub proof fn law_transaction_decides_what_is_read(
    shard: ShardModel,
    topic: Seq<u8>,
    partition: i32,
    records: Seq<DataModel>,
    producer_id: i64,
    commit: bool,
    max_records: usize,
    max_bytes: usize,
)
    requires
        logs_wf(shard),
        shard.catalog.checked(topic, partition) is Ok,
        shard.log(topic, partition).has_room(records),
        0 < records.len() <= MAX_APPEND_RECORDS,
    ensures
        ({
            let (open, answer) = shard.handled(
                PartitionRequestModel::ProduceTransactional { topic, partition, records, producer_id },
            );
            let settled = open.handled(
                PartitionRequestModel::ResolveTransaction { producer_id, commit },
            ).0;
            answer matches PartitionResultModel::Produced { base_offset } && ({
                let stored = log::budgeted(
                    log::stamped(base_offset as int, records),
                    max_records as nat,
                    max_bytes as nat,
                );
                let committed_read = PartitionRequestModel::Fetch {
                    topic,
                    partition,
                    offset: base_offset,
                    max_records,
                    max_bytes,
                    read_committed: true,
                };
                let plain_read = PartitionRequestModel::Fetch {
                    topic,
                    partition,
                    offset: base_offset,
                    max_records,
                    max_bytes,
                    read_committed: false,
                };
                &&& open.handled(committed_read).1 matches PartitionResultModel::Fetched(window)
                    && window.records.len() == 0
                &&& open.handled(plain_read).1 matches PartitionResultModel::Fetched(window)
                    && window.records == stored
                &&& settled.handled(committed_read).1 matches PartitionResultModel::Fetched(window)
                    && window.records == if commit {
                    stored
                } else {
                    seq![]
                }
                &&& settled.handled(plain_read).1 matches PartitionResultModel::Fetched(window)
                    && window.records == stored
            })
        }),
{
    let before = shard.log(topic, partition);
    assert(before.wf());
    let transaction = Some(producer_id);
    let (after, _) = before.appended(records, transaction);
    let base = before.next_offset;
    log_laws::law_append_is_contiguous(before, records, transaction);
    log_laws::law_append_reads_back(before, records, transaction, max_records, max_bytes, true);
    log_laws::law_append_reads_back(before, records, transaction, max_records, max_bytes, false);
    let open = shard.handled(
        PartitionRequestModel::ProduceTransactional { topic, partition, records, producer_id },
    ).0;
    assert(open.log(topic, partition) == after);
    let settled = open.handled(PartitionRequestModel::ResolveTransaction { producer_id, commit }).0;
    let resolved = after.resolved(producer_id, commit);
    assert(settled.log(topic, partition) == resolved);
    log::lemma_resolved_wf(after, producer_id, commit);
    let last = after.batches.len() - 1;
    let batch = resolved.batches[last];
    assert(batch == after.batches[last].resolved(producer_id, commit));
    log_laws::lemma_newest_reads(resolved, true);
    log_laws::lemma_newest_reads(resolved, false);
    assert(batch.base_offset == base);
    assert(batch.records == log::stamped(base as int, records));
    if !commit {
        assert(log::budgeted(seq![], max_records as nat, max_bytes as nat) =~= seq![]);
    }
}

/// The shard after the first `n` of these requests.
pub open spec fn state_after(shard: ShardModel, requests: Seq<PartitionRequestModel>, n: nat) -> ShardModel
    decreases n,
{
    if n == 0 {
        shard
    } else {
        state_after(shard, requests, (n - 1) as nat).handled(requests[n - 1]).0
    }
}

/// How many of these requests a shard takes: all up to the first that tells it
/// to stop.
pub open spec fn taken_requests(requests: Seq<PartitionRequestModel>) -> nat
    decreases requests.len(),
{
    if requests.len() == 0 {
        0
    } else if requests[0] is Shutdown {
        1
    } else {
        1 + taken_requests(requests.skip(1))
    }
}

/// What a shard does and replies when it takes requests from its mailbox one
/// after the other and stops when it is told to.
pub open spec fn served(shard: ShardModel, requests: Seq<PartitionRequestModel>) -> (
    ShardModel,
    Seq<PartitionResultModel>,
)
    decreases requests.len(),
{
    if requests.len() == 0 {
        (shard, seq![])
    } else {
        let (after, reply) = shard.handled(requests[0]);
        if requests[0] is Shutdown {
            (after, seq![reply])
        } else {
            let (end, replies) = served(after, requests.skip(1));
            (end, seq![reply] + replies)
        }
    }
}

proof fn lemma_state_after_first(shard: ShardModel, requests: Seq<PartitionRequestModel>, n: nat)
    requires
        n < requests.len(),
    ensures
        state_after(shard, requests, n + 1) == state_after(
            shard.handled(requests[0]).0,
            requests.skip(1),
            n,
        ),
    decreases n,
{
    if n > 0 {
        lemma_state_after_first(shard, requests, (n - 1) as nat);
        assert(requests.skip(1)[n - 1] == requests[n as int]);
    } else {
        assert(state_after(shard, requests, 1) == state_after(shard, requests, 0).handled(requests[0]).0);
    }
}

/// Each request up to the first stop gets one reply, in order, from the state
/// that the requests before it left. A stop is answered as such and is the last
/// request that is handled.
pub proof fn law_requests_are_answered_in_order(
    shard: ShardModel,
    requests: Seq<PartitionRequestModel>,
    i: int,
)
    ensures
        ({
            let n = taken_requests(requests);
            let (end, replies) = served(shard, requests);
            &&& n <= requests.len()
            &&& replies.len() == n
            &&& end == state_after(shard, requests, n)
            &&& n < requests.len() ==> n > 0 && requests[n - 1] is Shutdown
            &&& 0 <= i < n ==> {
                &&& replies[i] == state_after(shard, requests, i as nat).handled(requests[i]).1
                &&& requests[i] is Shutdown ==> i == n - 1 && replies[i] is Stopped
            }
        }),
    decreases requests.len(),
{
    if requests.len() > 0 && !(requests[0] is Shutdown) {
        let rest = requests.skip(1);
        let after = shard.handled(requests[0]).0;
        let n = taken_requests(rest);
        law_requests_are_answered_in_order(after, rest, i - 1);
        assert(n > 0 ==> rest[n - 1] == requests[n as int]);
        lemma_state_after_first(shard, requests, n);
        if 0 < i <= n {
            assert(rest[i - 1] == requests[i]);
            lemma_state_after_first(shard, requests, (i - 1) as nat);
        }
    } else if requests.len() > 0 {
        assert(state_after(shard, requests, 1) == state_after(shard, requests, 0).handled(requests[0]).0);
    }
}

/// Nothing after a stop is handled: what comes behind it changes neither the
/// shard nor a reply.
pub proof fn law_nothing_is_handled_after_a_stop(
    shard: ShardModel,
    requests: Seq<PartitionRequestModel>,
    more: Seq<PartitionRequestModel>,
)
    requires
        requests.len() > 0,
        requests.last() is Shutdown,
    ensures
        served(shard, requests + more) == served(shard, requests),
    decreases requests.len(),
{
    let longer = requests + more;
    assert(longer[0] == requests[0]);
    if !(requests[0] is Shutdown) {
        let rest = requests.skip(1);
        assert(rest.last() == requests.last());
        assert(longer.skip(1) =~= rest + more);
        law_nothing_is_handled_after_a_stop(shard.handled(requests[0]).0, rest, more);
    }
}

/// The partition that a request is about, if it is about one.
pub open spec fn place_of(request: PartitionRequestModel) -> Option<(Seq<u8>, i32)> {
    match request {
        PartitionRequestModel::Produce { topic, partition, .. } => Some((topic, partition)),
        PartitionRequestModel::ProduceTransactional { topic, partition, .. } => Some(
            (topic, partition),
        ),
        PartitionRequestModel::Fetch { topic, partition, .. } => Some((topic, partition)),
        PartitionRequestModel::ListOffset { topic, partition, .. } => Some((topic, partition)),
        _ => None,
    }
}

/// A request about a partition that the catalog refuses is answered with the
/// refusal and changes nothing. Any other leaves everything but the log of that
/// partition as it was; a log that is used for the first time is empty.
pub proof fn law_requests_touch_their_partition_only(shard: ShardModel, request: PartitionRequestModel)
    requires
        place_of(request) is Some,
    ensures
        ({
            let place = place_of(request)->Some_0;
            let (after, reply) = shard.handled(request);
            &&& shard.catalog.checked(place.0, place.1) matches Err(error) ==> after == shard && reply
                == PartitionResultModel::Failed(error)
            &&& after.logs.remove(place) == shard.logs.remove(place)
            &&& after.coordination == shard.coordination
            &&& after.catalog == shard.catalog
            &&& after.partition_max_bytes == shard.partition_max_bytes
            &&& !shard.logs.contains_key(place) ==> shard.log(place.0, place.1)
                == log::LogModel::empty(shard.partition_max_bytes)
        }),
{
    let place = place_of(request)->Some_0;
    assert(shard.handled(request).0.logs.remove(place) =~= shard.logs.remove(place));
}

/// The requests that append these batches to a partition, one after the other.
pub open spec fn produce_requests(
    topic: Seq<u8>,
    partition: i32,
    batches: Seq<Seq<DataModel>>,
) -> Seq<PartitionRequestModel> {
    Seq::new(
        batches.len(),
        |i: int| PartitionRequestModel::Produce { topic, partition, records: batches[i] },
    )
}

/// How many records batches hold together.
pub open spec fn total_len(batches: Seq<Seq<DataModel>>) -> nat
    decreases batches.len(),
{
    if batches.len() == 0 {
        0
    } else {
        total_len(batches.drop_last()) + batches.last().len()
    }
}

/// Whether each of these batches can be appended after those before it: it
/// holds records, not too many, and their offsets can be counted.
pub open spec fn appendable(
    shard: ShardModel,
    topic: Seq<u8>,
    partition: i32,
    batches: Seq<Seq<DataModel>>,
) -> bool {
    forall|i: int|
        0 <= i < batches.len() ==> 0 < (#[trigger] batches[i]).len() <= MAX_APPEND_RECORDS
            && state_after(shard, produce_requests(topic, partition, batches), i as nat).log(
            topic,
            partition,
        ).has_room(batches[i])
}

/// Batches that are appended one after the other lie one behind the other: each
/// gets the offsets right after the batch before it, and the high watermark
/// moves past all of them.
pub proof fn law_batches_are_appended_in_order(
    shard: ShardModel,
    topic: Seq<u8>,
    partition: i32,
    batches: Seq<Seq<DataModel>>,
    n: nat,
)
    requires
        logs_wf(shard),
        shard.catalog.checked(topic, partition) is Ok,
        appendable(shard, topic, partition, batches),
        n <= batches.len(),
    ensures
        ({
            let requests = produce_requests(topic, partition, batches);
            let before = shard.log(topic, partition);
            let after = state_after(shard, requests, n);
            &&& logs_wf(after)
            &&& after.catalog == shard.catalog
            &&& after.log(topic, partition).next_offset == before.next_offset + total_len(
                batches.take(n as int),
            )
            &&& n < batches.len() ==> after.handled(requests[n as int]).1
                == (PartitionResultModel::Produced {
                base_offset: after.log(topic, partition).next_offset,
            })
        }),
    decreases n,
{
    let requests = produce_requests(topic, partition, batches);
    if n > 0 {
        let m = (n - 1) as nat;
        law_batches_are_appended_in_order(shard, topic, partition, batches, m);
        let middle = state_after(shard, requests, m);
        let batch = batches[m as int];
        assert(requests[m as int] == (PartitionRequestModel::Produce { topic, partition, records: batch }));
        assert(middle.log(topic, partition).wf());
        assert(middle.log(topic, partition).has_room(batch));
        log_laws::law_append_is_contiguous(middle.log(topic, partition), batch, None);
        lemma_append_wf(middle, topic, partition, batch, None);
        assert(batches.take(n as int).drop_last() =~= batches.take(m as int));
        assert(batches.take(n as int).last() == batch);
    } else {
        assert(batches.take(0) =~= seq![]);
    }
    if n < batches.len() {
        let batch = batches[n as int];
        assert(0 < batch.len() <= MAX_APPEND_RECORDS);
        assert(requests[n as int] == (PartitionRequestModel::Produce { topic, partition, records: batch }));
    }
}

/// The records of batches, one batch after the other.
pub open spec fn joined_records(batches: Seq<Seq<DataModel>>) -> Seq<DataModel>
    decreases batches.len(),
{
    if batches.len() == 0 {
        seq![]
    } else {
        joined_records(batches.drop_last()) + batches.last()
    }
}

proof fn lemma_joined_len(batches: Seq<Seq<DataModel>>)
    ensures
        joined_records(batches).len() == total_len(batches),
    decreases batches.len(),
{
    if batches.len() > 0 {
        lemma_joined_len(batches.drop_last());
    }
}

proof fn lemma_stamped_join(base: int, a: Seq<DataModel>, b: Seq<DataModel>)
    ensures
        log::stamped(base, a) + log::stamped(base + a.len(), b) == log::stamped(base, a + b),
{
    assert(log::stamped(base, a) + log::stamped(base + a.len(), b) =~= log::stamped(base, a + b));
}

/// What one more of the batches does to the log.
proof fn lemma_one_more(
    shard: ShardModel,
    topic: Seq<u8>,
    partition: i32,
    batches: Seq<Seq<DataModel>>,
    m: nat,
)
    requires
        logs_wf(shard),
        shard.catalog.checked(topic, partition) is Ok,
        appendable(shard, topic, partition, batches),
        m < batches.len(),
    ensures
        ({
            let requests = produce_requests(topic, partition, batches);
            let before = state_after(shard, requests, m).log(topic, partition);
            &&& before.wf()
            &&& 0 < batches[m as int].len() <= MAX_APPEND_RECORDS
            &&& before.has_room(batches[m as int])
            &&& state_after(shard, requests, m + 1).log(topic, partition) == before.appended(
                batches[m as int],
                None,
            ).0
        }),
{
    let requests = produce_requests(topic, partition, batches);
    let batch = batches[m as int];
    law_batches_are_appended_in_order(shard, topic, partition, batches, m);
    assert(requests[m as int] == (PartitionRequestModel::Produce { topic, partition, records: batch }));
    assert(state_after(shard, requests, m).log(topic, partition).wf());
}

proof fn lemma_batches_readable(
    shard: ShardModel,
    topic: Seq<u8>,
    partition: i32,
    batches: Seq<Seq<DataModel>>,
    n: nat,
    read_committed: bool,
)
    requires
        logs_wf(shard),
        shard.catalog.checked(topic, partition) is Ok,
        shard.log(topic, partition).max_bytes is None,
        appendable(shard, topic, partition, batches),
        n <= batches.len(),
    ensures
        ({
            let base = shard.log(topic, partition).next_offset;
            let after = state_after(shard, produce_requests(topic, partition, batches), n).log(
                topic,
                partition,
            );
            log::readable(after.batches, base, read_committed) == log::stamped(
                base as int,
                joined_records(batches.take(n as int)),
            )
        }),
    decreases n,
{
    let requests = produce_requests(topic, partition, batches);
    let before = shard.log(topic, partition);
    let base = before.next_offset;
    if n == 0 {
        assert(before.wf());
        assert(batches.take(0) =~= seq![]);
        log_laws::lemma_nothing_at_the_end(before, read_committed);
        assert(log::readable(before.batches, base, read_committed) =~= log::stamped(
            base as int,
            joined_records(batches.take(0)),
        ));
    } else {
        let m = (n - 1) as nat;
        let middle = state_after(shard, requests, m).log(topic, partition);
        let batch = batches[m as int];
        let earlier = batches.take(m as int);
        lemma_batches_readable(shard, topic, partition, batches, m, read_committed);
        law_batches_are_appended_in_order(shard, topic, partition, batches, m);
        lemma_one_more(shard, topic, partition, batches, m);
        lemma_start_stays(shard, topic, partition, batches, m);
        log_laws::lemma_append_adds_to_what_is_read(middle, batch, base, read_committed);
        assert(batches.take(n as int).drop_last() =~= earlier);
        assert(batches.take(n as int).last() == batch);
        lemma_joined_len(earlier);
        lemma_stamped_join(base as int, joined_records(earlier), batch);
    }
}

/// What several batches stored is what a fetch from the first of them on gives
/// back, in order and as far as the budget allows, where nothing is dropped.
pub proof fn law_batches_read_back_in_order(
    shard: ShardModel,
    topic: Seq<u8>,
    partition: i32,
    batches: Seq<Seq<DataModel>>,
    max_records: usize,
    max_bytes: usize,
    read_committed: bool,
)
    requires
        logs_wf(shard),
        shard.catalog.checked(topic, partition) is Ok,
        shard.log(topic, partition).max_bytes is None,
        appendable(shard, topic, partition, batches),
    ensures
        ({
            let base = shard.log(topic, partition).next_offset;
            let after = state_after(
                shard,
                produce_requests(topic, partition, batches),
                batches.len(),
            ).log(topic, partition);
            after.fetched(base, max_records, max_bytes, read_committed) matches Ok(window)
                && window.records == log::budgeted(
                log::stamped(base as int, joined_records(batches)),
                max_records as nat,
                max_bytes as nat,
            )
        }),
{
    let n = batches.len();
    assert(batches.take(n as int) =~= batches);
    lemma_batches_readable(shard, topic, partition, batches, n, read_committed);
    lemma_start_stays(shard, topic, partition, batches, n);
    law_batches_are_appended_in_order(shard, topic, partition, batches, n);
}

/// Without a budget an append leaves the start of a log where it is.
proof fn lemma_start_stays(
    shard: ShardModel,
    topic: Seq<u8>,
    partition: i32,
    batches: Seq<Seq<DataModel>>,
    n: nat,
)
    requires
        logs_wf(shard),
        shard.catalog.checked(topic, partition) is Ok,
        shard.log(topic, partition).max_bytes is None,
        appendable(shard, topic, partition, batches),
        n <= batches.len(),
    ensures
        ({
            let after = state_after(shard, produce_requests(topic, partition, batches), n).log(
                topic,
                partition,
            );
            &&& after.max_bytes is None
            &&& after.start_offset() == shard.log(topic, partition).start_offset()
            &&& after.start_offset() <= shard.log(topic, partition).next_offset
        }),
    decreases n,
{
    let requests = produce_requests(topic, partition, batches);
    let before = shard.log(topic, partition);
    if n > 0 {
        let m = (n - 1) as nat;
        lemma_start_stays(shard, topic, partition, batches, m);
        lemma_one_more(shard, topic, partition, batches, m);
        let middle = state_after(shard, requests, m).log(topic, partition);
        let batch = batches[m as int];
        if middle.batches.len() > 0 {
            assert(middle.batches.push(log::new_batch(middle.next_offset, batch, None))[0]
                == middle.batches[0]);
        }
    } else {
        assert(before.wf());
        if before.batches.len() > 0 {
            let last = before.batches.len() - 1;
            log::lemma_batches_ordered_start(before, last);
            assert(before.batches[last].wf());
        }
    }
}

/// A request for a partition that the catalog does not know is refused and
/// changes nothing.
pub proof fn law_unknown_partition_is_refused(
    shard: ShardModel,
    topic: Seq<u8>,
    partition: i32,
    records: Seq<DataModel>,
    producer_id: i64,
    offset: i64,
    max_records: usize,
    max_bytes: usize,
    flag: bool,
)
    requires
        shard.catalog.checked(topic, partition) is Err,
    ensures
        ({
            let refusal = PartitionResultModel::Failed(
                shard.catalog.checked(topic, partition)->Err_0,
            );
            &&& shard.handled(PartitionRequestModel::Produce { topic, partition, records }) == (
                shard,
                refusal,
            )
            &&& shard.handled(
                PartitionRequestModel::ProduceTransactional { topic, partition, records, producer_id },
            ) == (shard, refusal)
            &&& shard.handled(
                PartitionRequestModel::Fetch {
                    topic,
                    partition,
                    offset,
                    max_records,
                    max_bytes,
                    read_committed: flag,
                },
            ) == (shard, refusal)
            &&& shard.handled(
                PartitionRequestModel::ListOffset { topic, partition, earliest: flag },
            ) == (shard, refusal)
        }),
{
}

/// Reading changes no log: after a fetch or a list-offset every partition
/// reads as before.
pub proof fn law_reading_changes_nothing(
    shard: ShardModel,
    request: PartitionRequestModel,
    other_topic: Seq<u8>,
    other_partition: i32,
)
    requires
        request is Fetch || request is ListOffset,
    ensures
        shard.handled(request).0.log(other_topic, other_partition) == shard.log(
            other_topic,
            other_partition,
        ),
        shard.handled(request).0.coordination == shard.coordination,
        shard.handled(request).0.catalog == shard.catalog,
{
}

/// Partitions are separate: an append to one leaves the log of every other
/// partition, and the coordination state, as it was.
pub proof fn law_partitions_are_separate(
    shard: ShardModel,
    topic: Seq<u8>,
    partition: i32,
    records: Seq<DataModel>,
    transaction: Option<i64>,
    other_topic: Seq<u8>,
    other_partition: i32,
)
    requires
        (other_topic, other_partition) != (topic, partition),
    ensures
        ({
            let after = shard.appended(topic, partition, records, transaction).0;
            &&& after.log(other_topic, other_partition) == shard.log(other_topic, other_partition)
            &&& after.coordination == shard.coordination
            &&& after.catalog == shard.catalog
        }),
{
}

/// Coordination touches no log.
pub proof fn law_coordination_touches_no_log(shard: ShardModel, request: CoordinationRequestModel)
    ensures
        shard.handled(PartitionRequestModel::Coordinate { request }).0.logs == shard.logs,
        shard.handled(PartitionRequestModel::Coordinate { request }).0.catalog == shard.catalog,
{
}

/// Shards are told to stop only where they were found running; where they were
/// found stopped, a stop answers at once that all is well.
pub proof fn law_stopping_again_does_nothing<P: Parker>(links: ShardLinks<P>, r: Result<(), BrokerError>)
    requires
        links.can_stop(r),
        !links.found_running(),
    ensures
        links.found_stopped(),
        r == Ok::<(), BrokerError>(()),
{
}

/// A partition always goes to the same one of the shards there are.
pub proof fn law_placement_is_bounded(topic: Seq<u8>, partition: i32, shard_count: nat)
    requires
        shard_count > 0,
    ensures
        broker::placement(topic, partition, shard_count) < shard_count,
{
    vstd::arithmetic::div_mod::lemma_mod_bound(
        broker::fnv1a_hash(topic) as int + partition as int,
        shard_count as int,
    );
}

/// The partitions of a topic go round the shards: the next partition belongs to
/// the next shard.
pub proof fn law_next_partition_goes_to_the_next_shard(
    topic: Seq<u8>,
    partition: i32,
    shard_count: nat,
)
    requires
        shard_count > 0,
        partition < i32::MAX,
    ensures
        broker::placement(topic, (partition + 1) as i32, shard_count) == (broker::placement(
            topic,
            partition,
            shard_count,
        ) + 1) % shard_count,
{
    let place = broker::fnv1a_hash(topic) as int + partition as int;
    vstd::arithmetic::div_mod::lemma_mod_bound(place, shard_count as int);
    vstd::arithmetic::div_mod::lemma_add_mod_noop(place, 1, shard_count as int);
    vstd::arithmetic::div_mod::lemma_add_mod_noop(
        place % (shard_count as int),
        1,
        shard_count as int,
    );
    vstd::arithmetic::div_mod::lemma_mod_twice(place, shard_count as int);
}

proof fn lemma_every_partition(topics: Seq<TopicMetadataModel>, place: (Seq<u8>, i32))
    ensures
        broker::every_partition(topics).contains(place) <==> exists|i: int|
            0 <= i < topics.len() && (#[trigger] topics[i]).name == place.0 && 0 <= place.1
                < topics[i].partitions,
    decreases topics.len(),
{
    if topics.len() > 0 {
        let shorter = topics.drop_last();
        lemma_every_partition(shorter, place);
        let earlier = broker::every_partition(shorter);
        let own = broker::partitions_of(topics.last().name, topics.last().partitions);
        let whole = broker::every_partition(topics);
        assert(whole == earlier + own);
        let last = topics.len() - 1;
        if whole.contains(place) {
            let k = choose|k: int| 0 <= k < whole.len() && whole[k] == place;
            if k < earlier.len() {
                assert(earlier[k] == place);
                let i = choose|i: int|
                    0 <= i < shorter.len() && (#[trigger] shorter[i]).name == place.0 && 0 <= place.1
                        < shorter[i].partitions;
                assert(topics[i] == shorter[i]);
            } else {
                assert(own[k - earlier.len()] == place);
                assert(topics[last].name == place.0);
            }
        }
        if exists|i: int|
            0 <= i < topics.len() && (#[trigger] topics[i]).name == place.0 && 0 <= place.1
                < topics[i].partitions {
            let i = choose|i: int|
                0 <= i < topics.len() && (#[trigger] topics[i]).name == place.0 && 0 <= place.1
                    < topics[i].partitions;
            if i < last {
                assert(shorter[i] == topics[i]);
                let k = choose|k: int| 0 <= k < earlier.len() && earlier[k] == place;
                assert(whole[k] == place);
            } else {
                assert(own[place.1 as int] == place);
                assert(whole[earlier.len() + place.1] == place);
            }
        }
    }
}

proof fn lemma_every_partition_once(topics: Seq<TopicMetadataModel>)
    requires
        forall|i: int, j: int|
            0 <= i < j < topics.len() ==> (#[trigger] topics[i]).name != (#[trigger] topics[j]).name,
    ensures
        broker::every_partition(topics).no_duplicates(),
    decreases topics.len(),
{
    if topics.len() > 0 {
        let shorter = topics.drop_last();
        assert forall|i: int, j: int| 0 <= i < j < shorter.len() implies (#[trigger] shorter[i]).name != (
        #[trigger] shorter[j]).name by {
            assert(topics[i].name != topics[j].name);
        }
        lemma_every_partition_once(shorter);
        let earlier = broker::every_partition(shorter);
        let own = broker::partitions_of(topics.last().name, topics.last().partitions);
        let whole = broker::every_partition(topics);
        assert forall|a: int, b: int| 0 <= a < b < whole.len() implies whole[a] != whole[b] by {
            if a < earlier.len() && b >= earlier.len() && whole[a] == whole[b] {
                assert(earlier[a] == whole[a]);
                lemma_every_partition(shorter, whole[a]);
                let i = choose|i: int|
                    0 <= i < shorter.len() && (#[trigger] shorter[i]).name == whole[a].0 && 0
                        <= whole[a].1 < shorter[i].partitions;
                assert(topics[i].name != topics[topics.len() - 1].name);
                assert(own[b - earlier.len()] == whole[b]);
            }
        }
    }
}

/// The partitions that a join hands out are those that the catalog knows, each
/// once.
pub proof fn law_join_covers_the_catalog(catalog: CatalogModel, place: (Seq<u8>, i32))
    requires
        catalog.wf(),
    ensures
        broker::every_partition(catalog.listed()).no_duplicates(),
        broker::every_partition(catalog.listed()).contains(place) <==> catalog.checked(
            place.0,
            place.1,
        ) is Ok,
{
    let listed = catalog.listed();
    topic::law_metadata_is_ordered(catalog);
    assert forall|i: int, j: int| 0 <= i < j < listed.len() implies (#[trigger] listed[i]).name != (
    #[trigger] listed[j]).name by {
        crate::byte_order::lemma_lex_irreflexive(listed[i].name);
    }
    lemma_every_partition_once(listed);
    lemma_every_partition(listed, place);
    assert forall|i: int| 0 <= i < listed.len() implies (#[trigger] listed[i]).partitions
        == catalog.topics[listed[i].name] by {}
    if catalog.checked(place.0, place.1) is Ok {
        let i = choose|i: int| 0 <= i < listed.len() && (#[trigger] listed[i]).name == place.0;
        assert(listed[i].partitions == catalog.topics[place.0]);
    }
}

/// Steps without a failure all succeeded.
proof fn lemma_no_failure(steps: Seq<Result<(), BrokerError>>, i: int)
    requires
        broker::first_failure(steps) is Ok,
        0 <= i < steps.len(),
    ensures
        steps[i] is Ok,
    decreases steps.len(),
{
    if i < steps.len() - 1 {
        lemma_no_failure(steps.drop_last(), i);
        assert(steps.drop_last()[i] == steps[i]);
    }
}

/// A transaction that ended well was resolved on the shard of every enlisted
/// partition and, on commit, every enlisted offset was committed.
pub proof fn law_ended_transactions_are_resolved_everywhere<S: Shards>(
    broker: Broker<S>,
    completion: CompletionModel,
    producer_id: i64,
    commit: bool,
    i: int,
)
    requires
        broker.can_complete(completion, producer_id, commit, Ok(())),
    ensures
        0 <= i < completion.partitions.len() ==> broker.can_resolve(
            completion.partitions[i],
            producer_id,
            commit,
            Ok(()),
        ),
        commit && 0 <= i < completion.offsets.len() ==> broker.can_commit(
            completion.offsets[i],
            Ok(()),
        ),
{
    let (resolves, commits) = choose|
        resolves: Seq<Result<(), BrokerError>>,
        commits: Seq<Result<(), BrokerError>>,
    | #[trigger]
        broker.completed_by(completion, producer_id, commit, resolves, commits, Ok(()));
    if 0 <= i < completion.partitions.len() {
        lemma_no_failure(resolves, i);
        assert(broker.can_resolve(completion.partitions[i], producer_id, commit, resolves[i]));
    }
    if commit && 0 <= i < completion.offsets.len() {
        lemma_no_failure(commits, i);
        assert(broker.can_commit(completion.offsets[i], commits[i]));
    }
}

/// An aborted transaction commits none of the offsets enlisted in it.
pub proof fn law_aborted_transactions_commit_no_offsets<S: Shards>(
    broker: Broker<S>,
    completion: CompletionModel,
    producer_id: i64,
    resolves: Seq<Result<(), BrokerError>>,
    commits: Seq<Result<(), BrokerError>>,
    r: Result<(), BrokerError>,
)
    requires
        broker.completed_by(completion, producer_id, false, resolves, commits, r),
    ensures
        broker::first_failure(resolves) is Ok ==> commits.len() == 0,
        r == broker::first_failure(resolves),
{
}

/// Whether every log of a shard has the limit that the shard was made with, and
/// keeps to it as far as its newest batch allows.
pub open spec fn keeps_to_its_limit(shard: ShardModel) -> bool {
    forall|place: (Seq<u8>, i32)| #[trigger]
        shard.logs.contains_key(place) ==> {
            let log = shard.logs[place];
            &&& log.max_bytes == shard.partition_max_bytes
            &&& shard.partition_max_bytes matches Some(limit) ==> log.batches.len() <= 1
                || log::batches_size(log.batches) <= limit
        }
}

/// The partitions of a shard keep to the byte limit that it was made with,
/// whatever is asked of it: beyond the limit a partition holds no more than its
/// newest batch.
pub proof fn law_partitions_keep_to_their_limit(shard: ShardModel, request: PartitionRequestModel)
    requires
        keeps_to_its_limit(shard),
    ensures
        keeps_to_its_limit(shard.handled(request).0),
        shard.handled(request).0.partition_max_bytes == shard.partition_max_bytes,
        keeps_to_its_limit(ShardModel::empty(shard.catalog, shard.partition_max_bytes)),
{
    let after = shard.handled(request).0;
    match request {
        PartitionRequestModel::Produce { topic, partition, records } => {
            lemma_append_keeps_to_limit(shard, topic, partition, records, None);
        },
        PartitionRequestModel::ProduceTransactional { topic, partition, records, producer_id } => {
            lemma_append_keeps_to_limit(shard, topic, partition, records, Some(producer_id));
        },
        PartitionRequestModel::ResolveTransaction { producer_id, commit } => {
            assert forall|place: (Seq<u8>, i32)| #[trigger] after.logs.contains_key(place) implies {
                let log = after.logs[place];
                &&& log.max_bytes == after.partition_max_bytes
                &&& after.partition_max_bytes matches Some(limit) ==> log.batches.len() <= 1
                    || log::batches_size(log.batches) <= limit
            } by {
                assert(shard.logs.contains_key(place));
                log::lemma_resolved_size(shard.logs[place].batches, producer_id, commit);
            }
        },
        _ => {
            assert(log::batches_size(seq![]) == 0);
        },
    }
}

proof fn lemma_append_keeps_to_limit(
    shard: ShardModel,
    topic: Seq<u8>,
    partition: i32,
    records: Seq<DataModel>,
    transaction: Option<i64>,
)
    requires
        keeps_to_its_limit(shard),
    ensures
        keeps_to_its_limit(shard.appended(topic, partition, records, transaction).0),
{
    let place = (topic, partition);
    let before = shard.log(topic, partition);
    if shard.logs.contains_key(place) {
        assert(shard.logs[place].max_bytes == shard.partition_max_bytes);
    }
    let full = before.with_batch(records, transaction);
    match full.max_bytes {
        Some(limit) => {
            log_laws::law_retention_keeps_the_newest(full.batches, limit as nat);
        },
        None => {},
    }
    let after = shard.appended(topic, partition, records, transaction).0;
    assert forall|other: (Seq<u8>, i32)| #[trigger] after.logs.contains_key(other) implies {
        let log = after.logs[other];
        &&& log.max_bytes == after.partition_max_bytes
        &&& after.partition_max_bytes matches Some(limit) ==> log.batches.len() <= 1
            || log::batches_size(log.batches) <= limit
    } by {
        if other != place {
            assert(shard.logs.contains_key(other));
        }
    }
}

/// A member that leaves with a generation must have the current one: the
/// coordinator lets it go exactly when it knows the group, the generation is its
/// current one and the member is in it. One that leaves without a generation need
/// only be in it.
pub proof fn law_leaving_needs_the_current_generation(
    coordinator: CoordinationModel,
    group_id: Seq<u8>,
    member_id: Seq<u8>,
    generation: i32,
)
    ensures
        ({
            let groups = coordinator.groups.groups;
            let leave = CoordinationRequestModel::LeaveGroup { group_id, member_id, generation };
            let leave_any = CoordinationRequestModel::LeaveGroupAny { group_id, member_id };
            let (after, reply) = coordinator.coordinated(leave);
            let (after_any, reply_any) = coordinator.coordinated(leave_any);
            &&& reply is Ok <==> groups.contains_key(group_id) && groups[group_id].generation
                == generation && groups[group_id].members.contains_key(member_id)
            &&& reply_any is Ok <==> groups.contains_key(group_id)
                && groups[group_id].members.contains_key(member_id)
            &&& reply is Ok ==> !after.groups.groups[group_id].members.contains_key(member_id)
            &&& reply_any is Ok ==> !after_any.groups.groups[group_id].members.contains_key(
                member_id,
            )
            &&& reply is Err ==> after.groups == coordinator.groups
            &&& after.transactions == coordinator.transactions
            &&& after_any.transactions == coordinator.transactions
        }),
{
}

} // verus!
