//! What holds of a partition log over several calls.

use vstd::prelude::*;

use crate::broker_core::error::LogError;
use crate::broker_core::log::{
    self, BatchModel, DataModel, LogModel, RecordModel, MAX_APPEND_RECORDS, RECORD_OVERHEAD_BYTES,
};

verus! {

/// An accepted append lands at the high watermark: its records get the next
/// offsets in a row, form the newest batch and move the watermark past them.
pub proof fn law_append_is_contiguous(before: LogModel, data: Seq<DataModel>, transaction: Option<i64>)
    requires
        before.wf(),
        before.has_room(data),
        0 < data.len() <= MAX_APPEND_RECORDS,
    ensures
        ({
            let (after, answer) = before.appended(data, transaction);
            let batch = after.batches.last();
            &&& after.wf()
            &&& answer == Ok::<i64, LogError>(before.next_offset)
            &&& after.next_offset == before.next_offset + data.len()
            &&& after.batches.len() > 0
            &&& batch == log::new_batch(before.next_offset, data, transaction)
            &&& batch.records.len() == data.len()
            &&& forall|i: int|
                0 <= i < data.len() ==> (#[trigger] batch.records[i]).offset == before.next_offset + i
                    && batch.records[i].data() == data[i]
        }),
{
    let full = before.with_batch(data, transaction);
    log::lemma_with_batch_wf(before, data, transaction);
    lemma_trimmed_wf(full);
    match full.max_bytes {
        Some(limit) => lemma_retained_suffix(full.batches, limit as nat),
        None => {},
    }
    let batch = log::new_batch(before.next_offset, data, transaction);
    assert forall|i: int| 0 <= i < data.len() implies (#[trigger] batch.records[i]).offset
        == before.next_offset + i && batch.records[i].data() == data[i] by {
        assert(batch.records[i] == data[i].at(before.next_offset + i));
        assert(batch.records[i].data() =~= data[i]);
    }
}

/// Retention drops the oldest batches only: what is left is the tail of the
/// log, it always holds the newest batch, and it is within the limit unless
/// the newest batch alone is beyond it. Nothing is dropped needlessly.
pub proof fn law_retention_keeps_the_newest(batches: Seq<BatchModel>, limit: nat)
    requires
        batches.len() > 0,
    ensures
        ({
            let kept = log::retained(batches, limit);
            let dropped = batches.len() - kept.len();
            &&& 0 < kept.len() <= batches.len()
            &&& kept == batches.skip(dropped)
            &&& kept.last() == batches.last()
            &&& log::batches_size(kept) <= limit || kept.len() == 1
            &&& forall|n: int| 0 <= n < dropped ==> log::batches_size(#[trigger] batches.skip(n)) > limit
        }),
{
    lemma_retained_suffix(batches, limit);
    lemma_retained_minimal(batches, limit);
}

proof fn lemma_retained_suffix(batches: Seq<BatchModel>, limit: nat)
    requires
        batches.len() > 0,
    ensures
        ({
            let kept = log::retained(batches, limit);
            &&& 0 < kept.len() <= batches.len()
            &&& kept == batches.skip(batches.len() - kept.len())
            &&& kept.last() == batches.last()
            &&& log::batches_size(kept) <= limit || kept.len() == 1
        }),
    decreases batches.len(),
{
    let kept = log::retained(batches, limit);
    if batches.len() > 1 && log::batches_size(batches) > limit {
        lemma_retained_suffix(batches.skip(1), limit);
        assert(batches.skip(1).skip(batches.len() - 1 - kept.len()) =~= batches.skip(
            batches.len() - kept.len(),
        ));
    } else {
        assert(batches.skip(0) =~= batches);
    }
}

proof fn lemma_retained_minimal(batches: Seq<BatchModel>, limit: nat)
    requires
        batches.len() > 0,
    ensures
        forall|n: int|
            0 <= n < batches.len() - log::retained(batches, limit).len() ==> log::batches_size(
                #[trigger] batches.skip(n),
            ) > limit,
    decreases batches.len(),
{
    if batches.len() > 1 && log::batches_size(batches) > limit {
        lemma_retained_minimal(batches.skip(1), limit);
        lemma_retained_suffix(batches.skip(1), limit);
        assert forall|n: int| 0 <= n < batches.len() - log::retained(batches, limit).len() implies log::batches_size(
            #[trigger] batches.skip(n),
        ) > limit by {
            if n == 0 {
                assert(batches.skip(0) =~= batches);
            } else {
                assert(batches.skip(1).skip(n - 1) =~= batches.skip(n));
            }
        }
    }
}

proof fn lemma_trimmed_wf(before: LogModel)
    requires
        before.wf(),
    ensures
        before.trimmed().wf(),
        before.trimmed().start_offset() >= before.start_offset(),
    decreases before.batches.len(),
{
    match before.max_bytes {
        None => {
            assert(before.trimmed() =~= before);
        },
        Some(limit) => {
            if before.batches.len() > 1 && log::batches_size(before.batches) > limit {
                let shorter = LogModel { batches: before.batches.skip(1), ..before };
                log::lemma_drop_oldest_wf(before);
                lemma_trimmed_wf(shorter);
                assert(shorter.trimmed() =~= before.trimmed());
                log::lemma_batches_ordered(before, 0, 1);
                assert(before.batches[0].wf());
            } else {
                assert(before.trimmed() =~= before);
            }
        },
    }
}

/// Offsets never move backwards: an append moves neither the high watermark
/// nor the start of the log down.
pub proof fn law_offsets_never_move_back(before: LogModel, data: Seq<DataModel>, transaction: Option<i64>)
    requires
        before.wf(),
        before.has_room(data),
    ensures
        before.appended(data, transaction).0.next_offset >= before.next_offset,
        before.appended(data, transaction).0.start_offset() >= before.start_offset(),
{
    if 0 < data.len() <= MAX_APPEND_RECORDS {
        log::lemma_with_batch_wf(before, data, transaction);
        lemma_trimmed_wf(before.with_batch(data, transaction));
    }
}

/// The records of a batch at or above `offset` are its tail.
proof fn lemma_records_from_tail(batch: BatchModel, offset: i64)
    requires
        batch.wf(),
    ensures
        log::records_from(batch.records, offset) == batch.records.skip(
            if offset <= batch.base_offset {
                0
            } else if offset >= batch.end() {
                batch.records.len() as int
            } else {
                offset - batch.base_offset
            },
        ),
{
    lemma_records_from_tail_of(batch.records, batch.base_offset as int, offset);
}

proof fn lemma_records_from_tail_of(records: Seq<RecordModel>, base: int, offset: i64)
    requires
        forall|i: int| 0 <= i < records.len() ==> (#[trigger] records[i]).offset == base + i,
    ensures
        log::records_from(records, offset) == records.skip(
            if offset <= base {
                0
            } else if offset >= base + records.len() {
                records.len() as int
            } else {
                offset - base
            },
        ),
    decreases records.len(),
{
    let skip = if offset <= base {
        0
    } else if offset >= base + records.len() {
        records.len() as int
    } else {
        offset - base
    };
    if records.len() > 0 {
        lemma_records_from_tail_of(records.drop_last(), base, offset);
        assert(log::records_from(records, offset) =~= records.skip(skip));
    } else {
        assert(log::records_from(records, offset) =~= records.skip(skip));
    }
}

/// A reader at the high watermark sees nothing.
pub(crate) proof fn lemma_nothing_at_the_end(log: LogModel, read_committed: bool)
    requires
        log.wf(),
    ensures
        log::readable(log.batches, log.next_offset, read_committed).len() == 0,
{
    let batches = log.batches;
    assert forall|i: int| 0 <= i < batches.len() implies (#[trigger] batches[i]).wf()
        && batches[i].end() <= log.next_offset by {
        if i < batches.len() - 1 {
            log::lemma_batches_ordered(log, i, batches.len() - 1);
            assert(batches[batches.len() - 1].wf());
        }
    }
    log::lemma_readable_none(batches, log.next_offset, read_committed);
}

/// A reader from before the end of a log sees all that is appended to it.
pub(crate) proof fn lemma_append_adds_to_what_is_read(
    log: LogModel,
    data: Seq<DataModel>,
    offset: i64,
    read_committed: bool,
)
    requires
        log.wf(),
        log.has_room(data),
        0 < data.len() <= MAX_APPEND_RECORDS,
        log.max_bytes is None,
        offset <= log.next_offset,
    ensures
        log::readable(log.appended(data, None).0.batches, offset, read_committed) == log::readable(
            log.batches,
            offset,
            read_committed,
        ) + log::stamped(log.next_offset as int, data),
{
    let batch = log::new_batch(log.next_offset, data, None);
    let after = log.appended(data, None).0.batches;
    law_append_is_contiguous(log, data, None);
    assert(after =~= log.batches.push(batch));
    assert(after.drop_last() =~= log.batches);
    assert(after[after.len() - 1] == batch);
    assert(batch.wf());
    lemma_records_from_tail(batch, offset);
    assert(batch.records.skip(0) =~= batch.records);
}

/// A reader of everything sees every offset from the requested one up to the
/// high watermark, once and in order.
pub proof fn law_reading_is_gapless(log: LogModel, offset: i64)
    requires
        log.wf(),
        log.start_offset() <= offset <= log.next_offset,
    ensures
        ({
            let seen = log::readable(log.batches, offset, false);
            &&& seen.len() == log.next_offset - offset
            &&& forall|i: int| 0 <= i < seen.len() ==> (#[trigger] seen[i]).offset == offset + i
        }),
{
    lemma_gapless(log, log.batches.len() as int, offset);
    assert(log.batches.take(log.batches.len() as int) =~= log.batches);
}

proof fn lemma_gapless(log: LogModel, n: int, offset: i64)
    requires
        log.wf(),
        log.start_offset() <= offset <= log.next_offset,
        0 <= n <= log.batches.len(),
    ensures
        ({
            let seen = log::readable(log.batches.take(n), offset, false);
            let end = if n == 0 {
                log.start_offset() as int
            } else {
                log.batches[n - 1].end()
            };
            &&& seen.len() == if end > offset {
                end - offset
            } else {
                0
            }
            &&& forall|i: int| 0 <= i < seen.len() ==> (#[trigger] seen[i]).offset == offset + i
        }),
    decreases n,
{
    if n > 0 {
        lemma_gapless(log, n - 1, offset);
        let batch = log.batches[n - 1];
        assert(batch.wf());
        assert(log.batches.take(n).drop_last() =~= log.batches.take(n - 1));
        assert(log.batches.take(n).last() == batch);
        if n > 1 {
            assert(log.batches[n - 2].end() == log.batches[n - 1].base_offset);
        }
        lemma_records_from_tail(batch, offset);
    }
}

/// A fetch window is a run from the front of what the reader sees.
proof fn lemma_budgeted_prefix(records: Seq<RecordModel>, max_records: nat, max_bytes: nat)
    ensures
        ({
            let kept = log::budgeted(records, max_records, max_bytes);
            &&& kept.len() <= records.len()
            &&& kept == records.take(kept.len() as int)
            &&& kept.len() <= max_records
            &&& kept.len() <= 1 || log::records_size(kept) <= max_bytes
            &&& max_records > 0 && records.len() > 0 ==> kept.len() > 0
        }),
    decreases records.len(),
{
    if records.len() == 0 || log::within_budget(records, max_records, max_bytes) {
        assert(records.take(records.len() as int) =~= records);
    } else {
        lemma_budgeted_prefix(records.drop_last(), max_records, max_bytes);
        let kept = log::budgeted(records, max_records, max_bytes);
        assert(records.drop_last().take(kept.len() as int) =~= records.take(kept.len() as int));
    }
}

/// A reader makes progress: below the high watermark a fetch with any record
/// budget answers the record at the requested offset first, whatever the byte
/// budget, and then the records that follow it without a gap.
pub proof fn law_reader_makes_progress(log: LogModel, offset: i64, max_records: usize, max_bytes: usize)
    requires
        log.wf(),
        log.start_offset() <= offset < log.next_offset,
        max_records > 0,
    ensures
        log.fetched(offset, max_records, max_bytes, false) matches Ok(window) && {
            &&& 0 < window.records.len() <= max_records
            &&& window.records.len() <= 1 || log::records_size(window.records) <= max_bytes
            &&& window.high_watermark == log.next_offset
            &&& forall|i: int|
                0 <= i < window.records.len() ==> (#[trigger] window.records[i]).offset == offset + i
        },
{
    let seen = log::readable(log.batches, offset, false);
    law_reading_is_gapless(log, offset);
    lemma_budgeted_prefix(seen, max_records as nat, max_bytes as nat);
}

/// A fetch is refused exactly below the start of the log and beyond the high
/// watermark; at the high watermark it answers no records.
pub proof fn law_fetch_range(log: LogModel, offset: i64, max_records: usize, max_bytes: usize, read_committed: bool)
    requires
        log.wf(),
    ensures
        log.fetched(offset, max_records, max_bytes, read_committed) is Err <==> (offset
            < log.start_offset() || offset > log.next_offset),
        log.fetched(offset, max_records, max_bytes, read_committed) matches Err(error)
            ==> error == LogError::OffsetOutOfRange,
        offset == log.next_offset ==> (log.fetched(offset, max_records, max_bytes, read_committed) matches Ok(
            window,
        ) && window.records.len() == 0),
{
    if offset == log.next_offset {
        let batches = log.batches;
        assert forall|i: int| 0 <= i < batches.len() implies (#[trigger] batches[i]).wf()
            && batches[i].end() <= offset by {
            if i < batches.len() - 1 {
                log::lemma_batches_ordered(log, i, batches.len() - 1);
                assert(batches[batches.len() - 1].wf());
            }
        }
        log::lemma_readable_none(batches, offset, read_committed);
        if batches.len() > 0 {
            log::lemma_batches_ordered_start(log, batches.len() - 1);
            assert(batches[batches.len() - 1].wf());
        }
    }
}

/// What a reader at the start of the newest batch sees is that batch.
pub(crate) proof fn lemma_newest_reads(log: LogModel, read_committed: bool)
    requires
        log.wf(),
        log.batches.len() > 0,
    ensures
        ({
            let batch = log.batches.last();
            &&& log::readable(log.batches, batch.base_offset, read_committed)
                == if batch.hidden(read_committed) {
                seq![]
            } else {
                batch.records
            }
            &&& log.start_offset() <= batch.base_offset <= log.next_offset
        }),
{
    let last = log.batches.len() - 1;
    let batch = log.batches[last];
    let base = batch.base_offset;
    let earlier = log.batches.drop_last();
    assert forall|i: int| 0 <= i < earlier.len() implies (#[trigger] earlier[i]).wf()
        && earlier[i].end() <= base by {
        assert(log.batches[i].wf());
        log::lemma_batches_ordered(log, i, last);
    }
    log::lemma_readable_none(earlier, base, read_committed);
    assert(batch.wf());
    lemma_records_from_tail(batch, base);
    assert(batch.records.skip(0) =~= batch.records);
    assert(log::readable(log.batches, base, read_committed) =~= batch.readable(
        base,
        read_committed,
    ));
    log::lemma_batches_ordered_start(log, last);
}

/// What was appended is what a fetch at the returned offset gives back: the
/// same keys, values and timestamps, in order, as far as the budget allows. A
/// read-committed reader sees none of it while its transaction is open.
pub proof fn law_append_reads_back(
    before: LogModel,
    data: Seq<DataModel>,
    transaction: Option<i64>,
    max_records: usize,
    max_bytes: usize,
    read_committed: bool,
)
    requires
        before.wf(),
        before.has_room(data),
        0 < data.len() <= MAX_APPEND_RECORDS,
    ensures
        ({
            let (after, answer) = before.appended(data, transaction);
            let stored = log::stamped(before.next_offset as int, data);
            answer matches Ok(base) && (after.fetched(base, max_records, max_bytes, read_committed) matches Ok(
                window,
            ) && window.records == if read_committed && transaction is Some {
                seq![]
            } else {
                log::budgeted(stored, max_records as nat, max_bytes as nat)
            } && (data.len() <= max_records && log::data_size(data) <= max_bytes && !(read_committed
                && transaction is Some) ==> window.records == stored))
        }),
{
    let (after, answer) = before.appended(data, transaction);
    let base = before.next_offset;
    let stored = log::stamped(base as int, data);
    let batch = log::new_batch(base, data, transaction);
    law_append_is_contiguous(before, data, transaction);
    lemma_newest_reads(after, read_committed);
    log::lemma_stamped_size(base as int, data);
    if read_committed && transaction is Some {
        assert(log::budgeted(seq![], max_records as nat, max_bytes as nat) =~= seq![]);
    }
}

/// A read-committed window holds records of resolved, committed batches only:
/// each of its records stands in a batch that is outside any transaction or
/// whose transaction was committed.
pub proof fn law_read_committed_hides_open_and_aborted(
    log: LogModel,
    offset: i64,
    max_records: usize,
    max_bytes: usize,
    i: int,
)
    requires
        log.wf(),
        log.fetched(offset, max_records, max_bytes, true) matches Ok(window) && 0 <= i
            < window.records.len(),
    ensures
        exists|b: int| 0 <= b < log.batches.len() && (#[trigger] log.batches[b]).records.contains(
            log.fetched(offset, max_records, max_bytes, true)->Ok_0.records[i],
        ) && log.batches[b].state is Committed,
{
    let seen = log::readable(log.batches, offset, true);
    lemma_budgeted_prefix(seen, max_records as nat, max_bytes as nat);
    lemma_seen_is_stored(log.batches, offset, true, i);
    let b = choose|b: int| 0 <= b < log.batches.len() && (#[trigger] log.batches[b]).records.contains(
        seen[i],
    ) && !log.batches[b].hidden(true);
    assert(log.batches[b].wf());
}

proof fn lemma_seen_is_stored(batches: Seq<BatchModel>, offset: i64, read_committed: bool, i: int)
    requires
        0 <= i < log::readable(batches, offset, read_committed).len(),
    ensures
        exists|b: int| 0 <= b < batches.len() && (#[trigger] batches[b]).records.contains(
            log::readable(batches, offset, read_committed)[i],
        ) && !batches[b].hidden(read_committed),
    decreases batches.len(),
{
    let earlier = log::readable(batches.drop_last(), offset, read_committed);
    let record = log::readable(batches, offset, read_committed)[i];
    if i < earlier.len() {
        lemma_seen_is_stored(batches.drop_last(), offset, read_committed, i);
        let b = choose|b: int| 0 <= b < batches.drop_last().len() && (#[trigger] batches.drop_last()[b]).records.contains(
            record,
        ) && !batches.drop_last()[b].hidden(read_committed);
        assert(batches[b] == batches.drop_last()[b]);
    } else {
        let last = batches[batches.len() - 1];
        lemma_from_is_stored(last.records, offset, i - earlier.len());
        assert(last.records.contains(record));
    }
}

proof fn lemma_from_is_stored(records: Seq<RecordModel>, offset: i64, i: int)
    requires
        0 <= i < log::records_from(records, offset).len(),
    ensures
        records.contains(log::records_from(records, offset)[i]),
    decreases records.len(),
{
    let shorter = log::records_from(records.drop_last(), offset);
    if i < shorter.len() {
        lemma_from_is_stored(records.drop_last(), offset, i);
        let k = choose|k: int| 0 <= k < records.drop_last().len() && records.drop_last()[k] == shorter[i];
        assert(records[k] == shorter[i]);
    } else {
        assert(records[records.len() - 1] == log::records_from(records, offset)[i]);
    }
}

/// What a reader sees of the first batches is the front of what it sees.
proof fn lemma_readable_front(batches: Seq<BatchModel>, n: int, offset: i64, read_committed: bool)
    requires
        0 <= n <= batches.len(),
    ensures
        ({
            let front = log::readable(batches.take(n), offset, read_committed);
            let whole = log::readable(batches, offset, read_committed);
            front.len() <= whole.len() && whole.take(front.len() as int) == front
        }),
    decreases batches.len(),
{
    let front = log::readable(batches.take(n), offset, read_committed);
    let whole = log::readable(batches, offset, read_committed);
    if n == batches.len() {
        assert(batches.take(n) =~= batches);
        assert(whole.take(whole.len() as int) =~= whole);
    } else {
        let shorter = batches.drop_last();
        lemma_readable_front(shorter, n, offset, read_committed);
        assert(shorter.take(n) =~= batches.take(n));
        let seen = log::readable(shorter, offset, read_committed);
        assert(whole.take(front.len() as int) =~= seen.take(front.len() as int));
    }
}

/// A stored record that a reader may see is the first thing that it gets at
/// the offset of that record.
pub proof fn law_stored_record_is_read(
    log: LogModel,
    b: int,
    k: int,
    max_records: usize,
    max_bytes: usize,
    read_committed: bool,
)
    requires
        log.wf(),
        0 <= b < log.batches.len(),
        0 <= k < log.batches[b].records.len(),
        !log.batches[b].hidden(read_committed),
        max_records > 0,
    ensures
        ({
            let record = log.batches[b].records[k];
            log.fetched(record.offset, max_records, max_bytes, read_committed) matches Ok(window)
                && window.records.len() > 0 && window.records[0] == record
        }),
{
    let batches = log.batches;
    let batch = batches[b];
    let record = batch.records[k];
    let offset = record.offset;
    assert(batch.wf());
    let earlier = batches.take(b);
    assert forall|i: int| 0 <= i < earlier.len() implies (#[trigger] earlier[i]).wf()
        && earlier[i].end() <= offset by {
        assert(batches[i].wf());
        log::lemma_batches_ordered(log, i, b);
    }
    log::lemma_readable_none(earlier, offset, read_committed);
    lemma_records_from_tail(batch, offset);
    let upto = batches.take(b + 1);
    assert(upto.drop_last() =~= earlier);
    assert(upto.last() == batch);
    let front = log::readable(upto, offset, read_committed);
    let whole = log::readable(batches, offset, read_committed);
    assert(front =~= batch.records.skip(k));
    assert(front[0] == record);
    lemma_readable_front(batches, b + 1, offset, read_committed);
    assert(whole.take(front.len() as int)[0] == whole[0]);
    lemma_budgeted_prefix(whole, max_records as nat, max_bytes as nat);
    let kept = log::budgeted(whole, max_records as nat, max_bytes as nat);
    assert(whole.take(kept.len() as int)[0] == whole[0]);
    log::lemma_batches_ordered_start(log, b);
    let last = batches.len() - 1;
    assert(batches[last].wf());
    if b < last {
        log::lemma_batches_ordered(log, b, last);
    }
}

/// A record of a batch that is hidden from read-committed readers is in none of
/// their windows.
pub proof fn law_hidden_record_is_not_read(
    log: LogModel,
    b: int,
    k: int,
    offset: i64,
    max_records: usize,
    max_bytes: usize,
)
    requires
        log.wf(),
        0 <= b < log.batches.len(),
        0 <= k < log.batches[b].records.len(),
        log.batches[b].hidden(true),
    ensures
        log.fetched(offset, max_records, max_bytes, true) matches Ok(window)
            ==> !window.records.contains(log.batches[b].records[k]),
{
    let record = log.batches[b].records[k];
    if log.fetched(offset, max_records, max_bytes, true) is Ok {
        let records = log.fetched(offset, max_records, max_bytes, true)->Ok_0.records;
        if records.contains(record) {
            let i = choose|i: int| 0 <= i < records.len() && records[i] == record;
            law_read_committed_hides_open_and_aborted(log, offset, max_records, max_bytes, i);
            let c = choose|c: int|
                0 <= c < log.batches.len() && (#[trigger] log.batches[c]).records.contains(record)
                    && log.batches[c].state is Committed;
            let j = choose|j: int| 0 <= j < log.batches[c].records.len() && log.batches[c].records[j] == record;
            assert(log.batches[b].wf() && log.batches[c].wf());
            assert(log.batches[c].records[j].offset == log.batches[c].base_offset + j);
            assert(log.batches[b].records[k].offset == log.batches[b].base_offset + k);
            if b < c {
                log::lemma_batches_ordered(log, b, c);
            } else if c < b {
                log::lemma_batches_ordered(log, c, b);
            }
            assert(false);
        }
    }
}

/// Resolving a transaction moves no offset and no record. It makes the
/// batches of that producer visible to read-committed readers on commit and
/// hides them on abort; every other batch stays as it was.
pub proof fn law_resolving_settles_the_producer(log: LogModel, producer_id: i64, commit: bool, b: int)
    requires
        log.wf(),
        0 <= b < log.batches.len(),
    ensures
        ({
            let after = log.resolved(producer_id, commit);
            &&& after.wf()
            &&& after.next_offset == log.next_offset
            &&& after.start_offset() == log.start_offset()
            &&& after.batches.len() == log.batches.len()
            &&& after.batches[b].records == log.batches[b].records
            &&& log.batches[b].transaction == Some(producer_id) ==> after.batches[b].hidden(true)
                == !commit
            &&& log.batches[b].transaction != Some(producer_id) ==> after.batches[b] == log.batches[b]
        }),
{
    log::lemma_resolved_wf(log, producer_id, commit);
}

/// Below the last stable offset no batch is pending, and the last stable
/// offset is at most the high watermark.
pub proof fn law_last_stable_offset(log: LogModel, b: int)
    requires
        log.wf(),
        0 <= b < log.batches.len(),
    ensures
        log::stable_end(log.batches, log.next_offset) <= log.next_offset,
        log.batches[b].end() <= log::stable_end(log.batches, log.next_offset)
            ==> !log.batches[b].pending(),
        log.batches[b].pending() ==> log::stable_end(log.batches, log.next_offset)
            <= log.batches[b].base_offset,
{
    lemma_stable_end(log, 0, b);
    assert(log.batches.skip(0) =~= log.batches);
    assert(log.batches[b].wf());
}

proof fn lemma_stable_end(log: LogModel, n: int, b: int)
    requires
        log.wf(),
        0 <= n <= log.batches.len(),
        0 <= b < log.batches.len(),
    ensures
        log::stable_end(log.batches.skip(n), log.next_offset) <= log.next_offset,
        n <= b && log.batches[b].pending() ==> log::stable_end(log.batches.skip(n), log.next_offset)
            <= log.batches[b].base_offset,
    decreases log.batches.len() - n,
{
    let rest = log.batches.skip(n);
    if n < log.batches.len() {
        assert(rest[0] == log.batches[n]);
        assert(rest.skip(1) =~= log.batches.skip(n + 1));
        lemma_stable_end(log, n + 1, b);
        assert(log.batches[n].wf());
        if n < b {
            log::lemma_batches_ordered(log, n, b);
        }
        let last = log.batches.len() - 1;
        assert(log.batches[last].wf());
        if n < last {
            log::lemma_batches_ordered(log, n, last);
        }
    }
}

/// The number of stored records is the width of the retained offset range.
pub proof fn law_record_count(log: LogModel)
    requires
        log.wf(),
    ensures
        log::batches_count(log.batches) == log.next_offset - log.start_offset(),
{
    lemma_count(log, log.batches.len() as int);
    assert(log.batches.take(log.batches.len() as int) =~= log.batches);
}

proof fn lemma_count(log: LogModel, n: int)
    requires
        log.wf(),
        0 <= n <= log.batches.len(),
    ensures
        n > 0 ==> log::batches_count(log.batches.take(n)) == log.batches[n - 1].end()
            - log.start_offset(),
        n == 0 ==> log::batches_count(log.batches.take(n)) == 0,
    decreases n,
{
    if n > 0 {
        lemma_count(log, n - 1);
        assert(log.batches.take(n).drop_last() =~= log.batches.take(n - 1));
        if n > 1 {
            assert(log.batches[n - 2].end() == log.batches[n - 1].base_offset);
        }
    }
}

// ---------------------------------------------------------------------------
// How far a fetch goes
// ---------------------------------------------------------------------------

proof fn lemma_budgeted_longest(records: Seq<RecordModel>, max_records: nat, max_bytes: nat)
    ensures
        ({
            let kept = log::budgeted(records, max_records, max_bytes);
            kept.len() < records.len() ==> !log::within_budget(
                records.take(kept.len() as int + 1),
                max_records,
                max_bytes,
            )
        }),
    decreases records.len(),
{
    if records.len() > 0 && !log::within_budget(records, max_records, max_bytes) {
        let shorter = records.drop_last();
        let kept = log::budgeted(shorter, max_records, max_bytes);
        lemma_budgeted_longest(shorter, max_records, max_bytes);
        lemma_budgeted_prefix(shorter, max_records, max_bytes);
        if kept.len() < shorter.len() {
            assert(shorter.take(kept.len() as int + 1) =~= records.take(kept.len() as int + 1));
        } else {
            assert(records.take(kept.len() as int + 1) =~= records);
        }
    }
}

/// A fetch goes as far as it may. It keeps to the number of records and, behind
/// the first one, to the number of bytes. When a fetch at the same offset with
/// other bounds gets more, it gets the same records first, and one more of them
/// would have been too many or too large.
pub proof fn law_fetch_goes_as_far_as_it_may(
    log: LogModel,
    offset: i64,
    read_committed: bool,
    max_records: usize,
    max_bytes: usize,
    other_records: usize,
    other_bytes: usize,
)
    requires
        log.fetched(offset, max_records, max_bytes, read_committed) is Ok,
    ensures
        ({
            let window = log.fetched(offset, max_records, max_bytes, read_committed)->Ok_0.records;
            let other = log.fetched(offset, other_records, other_bytes, read_committed)->Ok_0.records;
            let n = window.len() as int;
            &&& n <= max_records
            &&& n > 1 ==> log::records_size(window) <= max_bytes
            &&& other.len() > n ==> {
                &&& other.take(n) == window
                &&& n == max_records || n > 0 && log::records_size(other.take(n + 1)) > max_bytes
            }
        }),
{
    let seen = log::readable(log.batches, offset, read_committed);
    let window = log.fetched(offset, max_records, max_bytes, read_committed)->Ok_0.records;
    let other = log.fetched(offset, other_records, other_bytes, read_committed)->Ok_0.records;
    let n = window.len() as int;
    lemma_budgeted_prefix(seen, max_records as nat, max_bytes as nat);
    lemma_budgeted_prefix(seen, other_records as nat, other_bytes as nat);
    lemma_budgeted_longest(seen, max_records as nat, max_bytes as nat);
    if other.len() > n {
        assert(other.take(n) =~= window);
        assert(other.take(n + 1) =~= seen.take(n + 1));
    }
}

/// The bytes of a window are those of its records: a fixed overhead for each,
/// its key and its value.
pub proof fn law_size_of_a_window(records: Seq<RecordModel>, record: RecordModel)
    ensures
        log::records_size(records.push(record)) == log::records_size(records) + RECORD_OVERHEAD_BYTES
            + (match record.key {
            Some(key) => key.len(),
            None => 0,
        }) + (match record.value {
            Some(value) => value.len(),
            None => 0,
        }),
        log::records_size(seq![]) == 0,
{
    assert(records.push(record).drop_last() =~= records);
}

proof fn lemma_seen(log: LogModel, n: int, offset: i64, read_committed: bool)
    requires
        log.wf(),
        0 <= n <= log.batches.len(),
    ensures
        ({
            let seen = log::readable(log.batches.take(n), offset, read_committed);
            &&& forall|i: int|
                0 <= i < seen.len() ==> offset <= (#[trigger] seen[i]).offset && n > 0
                    && seen[i].offset < log.batches[n - 1].end()
            &&& forall|i: int, j: int|
                0 <= i < j < seen.len() ==> (#[trigger] seen[i]).offset < (#[trigger] seen[j]).offset
            &&& forall|b: int, k: int|
                0 <= b < n && 0 <= k < log.batches[b].records.len() && !log.batches[b].hidden(
                    read_committed,
                ) && log.batches[b].records[k].offset >= offset ==> seen.contains(
                    #[trigger] log.batches[b].records[k],
                )
        }),
    decreases n,
{
    if n > 0 {
        lemma_seen(log, n - 1, offset, read_committed);
        let batch = log.batches[n - 1];
        let earlier = log::readable(log.batches.take(n - 1), offset, read_committed);
        let seen = log::readable(log.batches.take(n), offset, read_committed);
        let own = batch.readable(offset, read_committed);
        assert(batch.wf());
        assert(log.batches.take(n).drop_last() =~= log.batches.take(n - 1));
        assert(log.batches.take(n).last() == batch);
        assert(seen == earlier + own);
        if n > 1 {
            assert(log.batches[n - 2].end() == log.batches[n - 1].base_offset);
        }
        lemma_records_from_tail(batch, offset);
        assert forall|b: int, k: int|
            0 <= b < n && 0 <= k < log.batches[b].records.len() && !log.batches[b].hidden(
                read_committed,
            ) && log.batches[b].records[k].offset >= offset implies seen.contains(
            #[trigger] log.batches[b].records[k],
        ) by {
            let record = log.batches[b].records[k];
            if b < n - 1 {
                assert(earlier.contains(record));
                let i = choose|i: int| 0 <= i < earlier.len() && earlier[i] == record;
                assert(seen[i] == record);
            } else {
                let from = batch.records.len() - own.len();
                assert(own[k - from] == record);
                assert(seen[earlier.len() + k - from] == record);
            }
        }
    }
}

/// A fetch passes over nothing: its records stand in order of their offsets, none
/// is below the asked offset, and every stored record that the reader may see,
/// from the asked offset to the last record of the window, is in the window.
pub proof fn law_fetch_passes_over_nothing(
    log: LogModel,
    offset: i64,
    max_records: usize,
    max_bytes: usize,
    read_committed: bool,
    b: int,
    k: int,
)
    requires
        log.wf(),
        log.fetched(offset, max_records, max_bytes, read_committed) is Ok,
    ensures
        ({
            let window = log.fetched(offset, max_records, max_bytes, read_committed)->Ok_0.records;
            &&& forall|i: int| 0 <= i < window.len() ==> (#[trigger] window[i]).offset >= offset
            &&& forall|i: int, j: int|
                0 <= i < j < window.len() ==> (#[trigger] window[i]).offset < (
                #[trigger] window[j]).offset
            &&& 0 <= b < log.batches.len() && 0 <= k < log.batches[b].records.len()
                && !log.batches[b].hidden(read_committed) && window.len() > 0 && offset
                <= log.batches[b].records[k].offset <= window.last().offset ==> window.contains(
                log.batches[b].records[k],
            )
        }),
{
    let seen = log::readable(log.batches, offset, read_committed);
    let window = log.fetched(offset, max_records, max_bytes, read_committed)->Ok_0.records;
    lemma_budgeted_prefix(seen, max_records as nat, max_bytes as nat);
    assert(log.batches.take(log.batches.len() as int) =~= log.batches);
    lemma_seen(log, log.batches.len() as int, offset, read_committed);
    assert forall|i: int| 0 <= i < window.len() implies #[trigger] window[i] == seen[i] by {}
    if 0 <= b < log.batches.len() && 0 <= k < log.batches[b].records.len()
        && !log.batches[b].hidden(read_committed) && window.len() > 0 && offset
        <= log.batches[b].records[k].offset <= window.last().offset {
        let record = log.batches[b].records[k];
        assert(seen.contains(record));
        let i = choose|i: int| 0 <= i < seen.len() && seen[i] == record;
        let last = window.len() - 1;
        assert(window[last] == seen[last]);
        if i > last {
            assert(seen[last].offset < seen[i].offset);
        }
        assert(window[i] == record);
    }
}

proof fn lemma_stable_end_tight(batches: Seq<BatchModel>, end: i64)
    ensures
        ({
            let stable = log::stable_end(batches, end);
            ||| stable == end && forall|b: int|
                0 <= b < batches.len() ==> !(#[trigger] batches[b]).pending()
            ||| exists|b: int|
                0 <= b < batches.len() && (#[trigger] batches[b]).pending() && stable
                    == batches[b].base_offset
        }),
    decreases batches.len(),
{
    if batches.len() > 0 {
        if batches[0].pending() {
            assert(log::stable_end(batches, end) == batches[0].base_offset);
        } else {
            let tail = batches.skip(1);
            lemma_stable_end_tight(tail, end);
            if exists|b: int|
                0 <= b < tail.len() && (#[trigger] tail[b]).pending() && log::stable_end(tail, end)
                    == tail[b].base_offset {
                let b = choose|b: int|
                    0 <= b < tail.len() && (#[trigger] tail[b]).pending() && log::stable_end(tail, end)
                        == tail[b].base_offset;
                assert(batches[b + 1] == tail[b]);
            } else {
                assert forall|b: int| 0 <= b < batches.len() implies !(
                #[trigger] batches[b]).pending() by {
                    if b > 0 {
                        assert(tail[b - 1] == batches[b]);
                    }
                }
            }
        }
    }
}

/// Every window tells how far the log goes and how far it is settled: the offset
/// that the next record will get, and where the first batch of an open
/// transaction starts or, when none is open, again the end of the log.
pub proof fn law_window_tells_the_end_of_the_log(
    log: LogModel,
    offset: i64,
    max_records: usize,
    max_bytes: usize,
    read_committed: bool,
)
    requires
        log.wf(),
        log.fetched(offset, max_records, max_bytes, read_committed) is Ok,
    ensures
        ({
            let window = log.fetched(offset, max_records, max_bytes, read_committed)->Ok_0;
            &&& window.high_watermark == log.next_offset
            &&& forall|b: int|
                0 <= b < log.batches.len() && (#[trigger] log.batches[b]).pending()
                    ==> window.last_stable_offset <= log.batches[b].base_offset
            &&& window.last_stable_offset == log.next_offset || exists|b: int|
                0 <= b < log.batches.len() && (#[trigger] log.batches[b]).pending()
                    && window.last_stable_offset == log.batches[b].base_offset
        }),
{
    lemma_stable_end_tight(log.batches, log.next_offset);
    assert forall|b: int|
        0 <= b < log.batches.len() && (#[trigger] log.batches[b]).pending() implies log::stable_end(
        log.batches,
        log.next_offset,
    ) <= log.batches[b].base_offset by {
        law_last_stable_offset(log, b);
    }
}

/// What batches count for against a limit is what their records count for.
pub proof fn law_size_of_batches(batches: Seq<BatchModel>, batch: BatchModel)
    ensures
        log::batches_size(batches.push(batch)) == log::batches_size(batches) + log::records_size(
            batch.records,
        ),
        log::batches_size(seq![]) == 0,
{
    assert(batches.push(batch).drop_last() =~= batches);
}

} // verus!
