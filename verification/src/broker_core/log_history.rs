//! What holds of a partition log over its whole life.

use vstd::prelude::*;

use crate::broker_core::error::LogError;
use crate::broker_core::log::{self, BatchModel, DataModel, LogModel, MAX_APPEND_RECORDS};
use crate::broker_core::log_laws;

verus! {

/// One call that may change a log.
pub enum LogStep {
    /// An append, of a producer's transaction or outside of any.
    Append { data: Seq<DataModel>, transaction: Option<i64> },
    /// The end of a producer's transaction.
    Resolve { producer_id: i64, commit: bool },
}

/// A log after one call.
pub open spec fn stepped(log: LogModel, step: LogStep) -> LogModel {
    match step {
        LogStep::Append { data, transaction } => log.appended(data, transaction).0,
        LogStep::Resolve { producer_id, commit } => log.resolved(producer_id, commit),
    }
}

/// A log after several calls.
pub open spec fn after_steps(log: LogModel, steps: Seq<LogStep>) -> LogModel
    decreases steps.len(),
{
    if steps.len() == 0 {
        log
    } else {
        stepped(after_steps(log, steps.drop_last()), steps.last())
    }
}

/// Whether a log has offsets left for what a call appends.
pub open spec fn has_room(log: LogModel, step: LogStep) -> bool {
    step matches LogStep::Append { data, .. } ==> log.has_room(data)
}

/// Whether each of these calls finds offsets left.
pub open spec fn has_room_throughout(log: LogModel, steps: Seq<LogStep>) -> bool {
    forall|i: int|
        0 <= i < steps.len() ==> has_room(after_steps(log, steps.take(i)), #[trigger] steps[i])
}

/// Whether a call is an append that is accepted.
pub open spec fn accepted(step: LogStep) -> bool {
    step matches LogStep::Append { data, .. } && 0 < data.len() <= MAX_APPEND_RECORDS
}

proof fn lemma_room_before(log: LogModel, steps: Seq<LogStep>)
    requires
        has_room_throughout(log, steps),
        steps.len() > 0,
    ensures
        has_room_throughout(log, steps.drop_last()),
        has_room(after_steps(log, steps.drop_last()), steps.last()),
{
    let shorter = steps.drop_last();
    assert forall|i: int| 0 <= i < shorter.len() implies has_room(
        after_steps(log, shorter.take(i)),
        #[trigger] shorter[i],
    ) by {
        assert(shorter.take(i) =~= steps.take(i));
        assert(shorter[i] == steps[i]);
    }
    let last = steps.len() - 1;
    assert(steps.take(last) =~= shorter);
    assert(has_room(after_steps(log, steps.take(last)), steps[last]));
}

/// No call lowers the start of a log or its high watermark, and none but an
/// accepted append moves them. The high watermark moves by the number of
/// records that were appended.
pub proof fn law_only_appends_move_offsets(log: LogModel, step: LogStep)
    requires
        log.wf(),
        has_room(log, step),
    ensures
        ({
            let after = stepped(log, step);
            &&& after.wf()
            &&& after.next_offset >= log.next_offset
            &&& after.start_offset() >= log.start_offset()
            &&& !accepted(step) ==> after.next_offset == log.next_offset && after.start_offset()
                == log.start_offset()
            &&& accepted(step) ==> after.next_offset == log.next_offset
                + step->Append_data.len()
        }),
{
    match step {
        LogStep::Append { data, transaction } => {
            log_laws::law_offsets_never_move_back(log, data, transaction);
            if accepted(step) {
                log_laws::law_append_is_contiguous(log, data, transaction);
            }
        },
        LogStep::Resolve { producer_id, commit } => {
            log::lemma_resolved_wf(log, producer_id, commit);
        },
    }
}

/// In every state of a log its offsets are contiguous: it starts at or above
/// zero, ends at the high watermark, and holds one record for each offset in
/// between. Neither end is ever below where it was.
pub proof fn law_offsets_are_contiguous_for_life(
    max_bytes: Option<usize>,
    steps: Seq<LogStep>,
    n: int,
)
    requires
        has_room_throughout(LogModel::empty(max_bytes), steps),
        0 <= n <= steps.len(),
    ensures
        ({
            let earlier = after_steps(LogModel::empty(max_bytes), steps.take(n));
            let log = after_steps(LogModel::empty(max_bytes), steps);
            &&& log.wf()
            &&& 0 <= log.start_offset() <= log.next_offset
            &&& log::batches_count(log.batches) == log.next_offset - log.start_offset()
            &&& earlier.start_offset() <= log.start_offset()
            &&& earlier.next_offset <= log.next_offset
        }),
    decreases steps.len(),
{
    let empty = LogModel::empty(max_bytes);
    let log = after_steps(empty, steps);
    if steps.len() == 0 {
        assert(steps.take(n) =~= steps);
    } else {
        let shorter = steps.drop_last();
        lemma_room_before(empty, steps);
        if n < steps.len() {
            law_offsets_are_contiguous_for_life(max_bytes, shorter, n);
            assert(shorter.take(n) =~= steps.take(n));
        } else {
            law_offsets_are_contiguous_for_life(max_bytes, shorter, n - 1);
            assert(steps.take(n) =~= steps);
        }
        law_only_appends_move_offsets(after_steps(empty, shorter), steps.last());
    }
    log_laws::law_record_count(log);
    if log.batches.len() > 0 {
        let last = log.batches.len() - 1;
        log::lemma_batches_ordered_start(log, last);
        assert(log.batches[last].wf());
    }
}

proof fn lemma_size_push(batches: Seq<BatchModel>, batch: BatchModel)
    ensures
        log::batches_size(batches.push(batch)) >= log::batches_size(batches),
{
    assert(batches.push(batch).drop_last() =~= batches);
}

/// What is dropped once need not be looked at again.
proof fn lemma_retained_push(batches: Seq<BatchModel>, batch: BatchModel, limit: nat)
    ensures
        log::retained(log::retained(batches, limit).push(batch), limit) == log::retained(
            batches.push(batch),
            limit,
        ),
    decreases batches.len(),
{
    if batches.len() > 1 && log::batches_size(batches) > limit {
        lemma_size_push(batches, batch);
        lemma_retained_push(batches.skip(1), batch, limit);
        assert(batches.push(batch).skip(1) =~= batches.skip(1).push(batch));
    }
}

spec fn resolved_batches(batches: Seq<BatchModel>, producer_id: i64, commit: bool) -> Seq<BatchModel> {
    Seq::new(batches.len(), |i: int| batches[i].resolved(producer_id, commit))
}

proof fn lemma_retained_resolved(batches: Seq<BatchModel>, limit: nat, producer_id: i64, commit: bool)
    ensures
        resolved_batches(log::retained(batches, limit), producer_id, commit) == log::retained(
            resolved_batches(batches, producer_id, commit),
            limit,
        ),
    decreases batches.len(),
{
    log::lemma_resolved_size(batches, producer_id, commit);
    if batches.len() > 1 && log::batches_size(batches) > limit {
        lemma_retained_resolved(batches.skip(1), limit, producer_id, commit);
        assert(resolved_batches(batches, producer_id, commit).skip(1) =~= resolved_batches(
            batches.skip(1),
            producer_id,
            commit,
        ));
    }
}

/// A log with a budget holds the end of what it would hold without one: of all
/// batches that were ever appended, the oldest are gone as long as the rest is
/// over the budget, and the newest always stays. It hands out the same offsets.
pub proof fn law_bounded_log_is_the_end_of_the_whole(max_bytes: usize, steps: Seq<LogStep>)
    ensures
        ({
            let whole = after_steps(LogModel::empty(None), steps);
            let bounded = after_steps(LogModel::empty(Some(max_bytes)), steps);
            &&& bounded.batches == log::retained(whole.batches, max_bytes as nat)
            &&& bounded.next_offset == whole.next_offset
            &&& bounded.max_bytes == Some(max_bytes)
            &&& whole.max_bytes is None
        }),
    decreases steps.len(),
{
    if steps.len() > 0 {
        let shorter = steps.drop_last();
        law_bounded_log_is_the_end_of_the_whole(max_bytes, shorter);
        let whole = after_steps(LogModel::empty(None), shorter);
        match steps.last() {
            LogStep::Append { data, transaction } => {
                let batch = log::new_batch(whole.next_offset, data, transaction);
                lemma_retained_push(whole.batches, batch, max_bytes as nat);
            },
            LogStep::Resolve { producer_id, commit } => {
                lemma_retained_resolved(whole.batches, max_bytes as nat, producer_id, commit);
            },
        }
    }
}

/// An append in a transaction is an append like any other, but for the mark on
/// its batch: it is answered in the same way, takes the same offsets and lets
/// go of the same batches.
pub proof fn law_transactional_append_is_an_append(log: LogModel, data: Seq<DataModel>, producer_id: i64)
    requires
        log.wf(),
        log.has_room(data),
    ensures
        ({
            let (marked, answer) = log.appended(data, Some(producer_id));
            let (plain, plain_answer) = log.appended(data, None);
            &&& answer == plain_answer
            &&& answer is Err ==> marked == log && plain == log
            &&& marked.next_offset == plain.next_offset
            &&& marked.start_offset() == plain.start_offset()
            &&& marked.batches.len() == plain.batches.len()
            &&& forall|i: int|
                0 <= i < plain.batches.len() ==> (#[trigger] marked.batches[i]).records
                    == plain.batches[i].records
        }),
{
    if 0 < data.len() <= MAX_APPEND_RECORDS && log.max_bytes is Some {
        lemma_retained_alike(
            log.with_batch(data, Some(producer_id)).batches,
            log.with_batch(data, None).batches,
            log.max_bytes->Some_0 as nat,
        );
    }
}

/// Retention goes by the records alone.
proof fn lemma_retained_alike(a: Seq<BatchModel>, b: Seq<BatchModel>, limit: nat)
    requires
        a.len() == b.len(),
        forall|i: int|
            0 <= i < a.len() ==> (#[trigger] a[i]).records == b[i].records && a[i].base_offset
                == b[i].base_offset,
    ensures
        ({
            let (kept_a, kept_b) = (log::retained(a, limit), log::retained(b, limit));
            &&& kept_a.len() == kept_b.len()
            &&& a.len() > 0 ==> kept_a.len() > 0
            &&& forall|i: int|
                0 <= i < kept_a.len() ==> (#[trigger] kept_a[i]).records == kept_b[i].records
                    && kept_a[i].base_offset == kept_b[i].base_offset
        }),
    decreases a.len(),
{
    lemma_size_alike(a, b);
    if a.len() > 1 && log::batches_size(a) > limit {
        lemma_retained_alike(a.skip(1), b.skip(1), limit);
    }
}

proof fn lemma_size_alike(a: Seq<BatchModel>, b: Seq<BatchModel>)
    requires
        a.len() == b.len(),
        forall|i: int| 0 <= i < a.len() ==> (#[trigger] a[i]).records == b[i].records,
    ensures
        log::batches_size(a) == log::batches_size(b),
    decreases a.len(),
{
    if a.len() > 0 {
        lemma_size_alike(a.drop_last(), b.drop_last());
        assert(a[a.len() - 1].records == b[b.len() - 1].records);
    }
}

/// A call changes a stored batch only by resolving its producer.
proof fn lemma_batch_kept(log: LogModel, step: LogStep, batch: BatchModel)
    requires
        log.wf(),
        has_room(log, step),
        batch.base_offset < log.next_offset,
        batch.transaction is Some,
        forall|i: int|
            0 <= i < log.batches.len() && (#[trigger] log.batches[i]).base_offset
                == batch.base_offset ==> log.batches[i] == batch,
        step matches LogStep::Resolve { producer_id, .. } ==> batch.transaction != Some(producer_id),
    ensures
        ({
            let after = stepped(log, step);
            &&& batch.base_offset < after.next_offset
            &&& forall|i: int|
                0 <= i < after.batches.len() && (#[trigger] after.batches[i]).base_offset
                    == batch.base_offset ==> after.batches[i] == batch
        }),
{
    let after = stepped(log, step);
    law_only_appends_move_offsets(log, step);
    match step {
        LogStep::Append { data, transaction } => {
            if accepted(step) {
                let full = log.with_batch(data, transaction).batches;
                assert forall|i: int|
                    0 <= i < full.len() && (#[trigger] full[i]).base_offset == batch.base_offset implies full[i]
                    == batch by {
                    if i < log.batches.len() {
                        assert(full[i] == log.batches[i]);
                    }
                }
                match log.max_bytes {
                    Some(limit) => {
                        log_laws::law_retention_keeps_the_newest(full, limit as nat);
                        let kept = log::retained(full, limit as nat);
                        let dropped = full.len() - kept.len();
                        assert forall|i: int|
                            0 <= i < kept.len() && (#[trigger] kept[i]).base_offset
                                == batch.base_offset implies kept[i] == batch by {
                            assert(kept[i] == full[i + dropped]);
                        }
                    },
                    None => {},
                }
            }
        },
        LogStep::Resolve { producer_id, commit } => {
            assert forall|i: int|
                0 <= i < after.batches.len() && (#[trigger] after.batches[i]).base_offset
                    == batch.base_offset implies after.batches[i] == batch by {
                assert(after.batches[i] == log.batches[i].resolved(producer_id, commit));
            }
        },
    }
}

/// Whether none of these calls ends a transaction of this producer.
pub open spec fn leaves_open(steps: Seq<LogStep>, producer_id: i64) -> bool {
    forall|i: int|
        0 <= i < steps.len() ==> ((#[trigger] steps[i]) matches LogStep::Resolve {
            producer_id: other,
            ..
        } ==> other != producer_id)
}

proof fn lemma_stays_open(
    log: LogModel,
    data: Seq<DataModel>,
    producer_id: i64,
    steps: Seq<LogStep>,
)
    requires
        log.wf(),
        log.has_room(data),
        0 < data.len() <= MAX_APPEND_RECORDS,
        has_room_throughout(log.appended(data, Some(producer_id)).0, steps),
        leaves_open(steps, producer_id),
    ensures
        ({
            let after = after_steps(log.appended(data, Some(producer_id)).0, steps);
            let batch = log::new_batch(log.next_offset, data, Some(producer_id));
            &&& after.wf()
            &&& log.next_offset < after.next_offset
            &&& forall|i: int|
                0 <= i < after.batches.len() && (#[trigger] after.batches[i]).base_offset
                    == log.next_offset ==> after.batches[i] == batch
        }),
    decreases steps.len(),
{
    let first = log.appended(data, Some(producer_id)).0;
    let batch = log::new_batch(log.next_offset, data, Some(producer_id));
    if steps.len() == 0 {
        log_laws::law_append_is_contiguous(log, data, Some(producer_id));
        let last = first.batches.len() - 1;
        assert forall|i: int|
            0 <= i < first.batches.len() && (#[trigger] first.batches[i]).base_offset
                == log.next_offset implies first.batches[i] == batch by {
            assert(first.batches[i].wf());
            if i < last {
                log::lemma_batches_ordered(first, i, last);
            }
        }
    } else {
        let shorter = steps.drop_last();
        lemma_room_before(first, steps);
        assert forall|i: int| 0 <= i < shorter.len() implies ((#[trigger] shorter[i]) matches LogStep::Resolve {
            producer_id: other,
            ..
        } ==> other != producer_id) by {
            assert(shorter[i] == steps[i]);
        }
        lemma_stays_open(log, data, producer_id, shorter);
        assert(steps[steps.len() - 1] == steps.last());
        law_only_appends_move_offsets(after_steps(first, shorter), steps.last());
        lemma_batch_kept(after_steps(first, shorter), steps.last(), batch);
    }
}

/// What was appended in a transaction stays hidden until that transaction is
/// resolved, whatever else happens to the log: while the batch is kept, it is
/// pending, the last stable offset is at most where it begins, no
/// read-committed window holds any of its records, and a plain reader at the
/// offset of a record gets it.
pub proof fn law_transactional_append_stays_hidden(
    log: LogModel,
    data: Seq<DataModel>,
    producer_id: i64,
    steps: Seq<LogStep>,
    b: int,
    k: int,
    offset: i64,
    max_records: usize,
    max_bytes: usize,
)
    requires
        log.wf(),
        log.has_room(data),
        0 < data.len() <= MAX_APPEND_RECORDS,
        has_room_throughout(log.appended(data, Some(producer_id)).0, steps),
        leaves_open(steps, producer_id),
        max_records > 0,
        ({
            let after = after_steps(log.appended(data, Some(producer_id)).0, steps);
            &&& 0 <= b < after.batches.len()
            &&& after.batches[b].base_offset == log.next_offset
            &&& 0 <= k < data.len()
        }),
    ensures
        ({
            let after = after_steps(log.appended(data, Some(producer_id)).0, steps);
            let record = data[k].at(log.next_offset + k);
            &&& after.batches[b].pending()
            &&& after.batches[b].records == log::stamped(log.next_offset as int, data)
            &&& log::stable_end(after.batches, after.next_offset) <= log.next_offset
            &&& after.fetched(offset, max_records, max_bytes, true) matches Ok(window)
                ==> !window.records.contains(record)
            &&& after.fetched(record.offset, max_records, max_bytes, false) matches Ok(window)
                && window.records.len() > 0 && window.records[0] == record
        }),
{
    let after = after_steps(log.appended(data, Some(producer_id)).0, steps);
    lemma_stays_open(log, data, producer_id, steps);
    let batch = log::new_batch(log.next_offset, data, Some(producer_id));
    assert(after.batches[b] == batch);
    assert(batch.records[k] == data[k].at(log.next_offset + k));
    log_laws::law_last_stable_offset(after, b);
    log_laws::law_hidden_record_is_not_read(after, b, k, offset, max_records, max_bytes);
    log_laws::law_stored_record_is_read(after, b, k, max_records, max_bytes, false);
}

/// What an append is answered depends on the number of records alone, and a
/// refusal changes nothing.
pub proof fn law_append_is_refused_by_number(log: LogModel, data: Seq<DataModel>, transaction: Option<i64>)
    ensures
        ({
            let (after, answer) = log.appended(data, transaction);
            &&& answer == Err::<i64, LogError>(LogError::EmptyAppend) <==> data.len() == 0
            &&& answer == Err::<i64, LogError>(LogError::TooManyRecords) <==> data.len()
                > MAX_APPEND_RECORDS
            &&& answer is Err ==> after == log
            &&& answer is Ok ==> answer == Ok::<i64, LogError>(log.next_offset)
        }),
{
}

} // verus!
