//! Append-only partition log with Kafka offset semantics.
//!
//! A [`PartitionLog`] is an ordered sequence of batches. Each append is
//! atomic: either every record of the batch lands with a contiguous offset
//! range, or none does. Offsets start at zero, never move backwards, and are
//! assigned by the log itself.

use vstd::prelude::*;

use crate::broker_core::error::LogError;
use crate::bytes::{copy_bytes, copy_optional};

verus! {

broadcast use crate::bytes::lemma_bytes_deep_view, crate::bytes::lemma_slice_deep_view;

/// Maximum records accepted in one atomic append.
pub const MAX_APPEND_RECORDS: usize = 1024;

/// Per-record byte overhead charged against a fetch window's byte budget.
pub const RECORD_OVERHEAD_BYTES: usize = 32;

/// No record is larger than this.
const RECORD_SIZE_BOUND: u128 = 0x4_0000_0000_0000_0000;

/// No batch that one append stores is larger than this.
const BATCH_SIZE_BOUND: u128 = 0x1000_0000_0000_0000_0000;

/// What a record holds apart from its offset.
#[verifier::ext_equal]
pub struct DataModel {
    /// Producer timestamp in milliseconds.
    pub timestamp_ms: i64,
    /// Optional record key.
    pub key: Option<Seq<u8>>,
    /// Optional record value.
    pub value: Option<Seq<u8>>,
}

/// What a stored record holds.
#[verifier::ext_equal]
pub struct RecordModel {
    /// Log-assigned offset.
    pub offset: i64,
    /// Producer timestamp in milliseconds.
    pub timestamp_ms: i64,
    /// Optional record key.
    pub key: Option<Seq<u8>>,
    /// Optional record value.
    pub value: Option<Seq<u8>>,
}

impl RecordModel {
    /// The record without its offset.
    pub open spec fn data(self) -> DataModel {
        DataModel { timestamp_ms: self.timestamp_ms, key: self.key, value: self.value }
    }

    /// The size charged for the record.
    pub open spec fn size(self) -> nat {
        self.data().size()
    }
}

/// Length of an optional byte string; an absent one takes no room.
pub open spec fn optional_len(bytes: Option<Seq<u8>>) -> nat {
    match bytes {
        Some(bytes) => bytes.len(),
        None => 0,
    }
}

impl DataModel {
    /// The size charged for a record with this content.
    pub open spec fn size(self) -> nat {
        (RECORD_OVERHEAD_BYTES + optional_len(self.key) + optional_len(self.value)) as nat
    }

    /// The stored record with this content.
    pub open spec fn at(self, offset: int) -> RecordModel {
        RecordModel {
            offset: offset as i64,
            timestamp_ms: self.timestamp_ms,
            key: self.key,
            value: self.value,
        }
    }
}

/// Borrowed record input for an append.
#[derive(Clone, Copy, Debug, Eq, PartialEq)]
pub struct RecordInput<'a> {
    /// Producer timestamp in milliseconds.
    pub timestamp_ms: i64,
    /// Optional record key.
    pub key: Option<&'a [u8]>,
    /// Optional record value.
    pub value: Option<&'a [u8]>,
}

impl<'a> DeepView for RecordInput<'a> {
    type V = DataModel;

    open spec fn deep_view(&self) -> DataModel {
        DataModel {
            timestamp_ms: self.timestamp_ms,
            key: self.key.deep_view(),
            value: self.value.deep_view(),
        }
    }
}

/// Owned record input that can cross a shard boundary.
#[derive(Debug, Eq, PartialEq)]
pub struct RecordData {
    /// Producer timestamp in milliseconds.
    pub timestamp_ms: i64,
    /// Optional record key.
    pub key: Option<Vec<u8>>,
    /// Optional record value.
    pub value: Option<Vec<u8>>,
}

impl DeepView for RecordData {
    type V = DataModel;

    open spec fn deep_view(&self) -> DataModel {
        DataModel {
            timestamp_ms: self.timestamp_ms,
            key: self.key.deep_view(),
            value: self.value.deep_view(),
        }
    }
}

/// A stored record with its assigned offset.
#[derive(Debug, Eq, PartialEq)]
pub struct Record {
    /// Log-assigned offset.
    pub offset: i64,
    /// Producer timestamp in milliseconds.
    pub timestamp_ms: i64,
    /// Optional record key.
    pub key: Option<Vec<u8>>,
    /// Optional record value.
    pub value: Option<Vec<u8>>,
}

impl DeepView for Record {
    type V = RecordModel;

    open spec fn deep_view(&self) -> RecordModel {
        RecordModel {
            offset: self.offset,
            timestamp_ms: self.timestamp_ms,
            key: self.key.deep_view(),
            value: self.value.deep_view(),
        }
    }
}

impl Clone for RecordData {
    fn clone(&self) -> (r: Self)
        ensures
            r.deep_view() == self.deep_view(),
    {
        RecordData {
            timestamp_ms: self.timestamp_ms,
            key: copy_optional(&self.key),
            value: copy_optional(&self.value),
        }
    }
}

impl Clone for Record {
    fn clone(&self) -> (r: Self)
        ensures
            r.deep_view() == self.deep_view(),
    {
        Record {
            offset: self.offset,
            timestamp_ms: self.timestamp_ms,
            key: copy_optional(&self.key),
            value: copy_optional(&self.value),
        }
    }
}

/// Borrows an optional byte vector.
fn borrow_optional(bytes: &Option<Vec<u8>>) -> (r: Option<&[u8]>)
    ensures
        r.deep_view() == bytes.deep_view(),
{
    match bytes {
        Some(bytes) => Some(bytes.as_slice()),
        None => None,
    }
}

/// Copies an optional byte slice.
fn own_optional(bytes: Option<&[u8]>) -> (r: Option<Vec<u8>>)
    ensures
        r.deep_view() == bytes.deep_view(),
{
    match bytes {
        Some(bytes) => Some(copy_bytes(bytes)),
        None => None,
    }
}

impl RecordData {
    /// Borrows this record as append input.
    pub fn as_input(&self) -> (r: RecordInput<'_>)
        ensures
            r.deep_view() == self.deep_view(),
    {
        RecordInput {
            timestamp_ms: self.timestamp_ms,
            key: borrow_optional(&self.key),
            value: borrow_optional(&self.value),
        }
    }
}

impl<'a> From<RecordInput<'a>> for RecordData {
    fn from(input: RecordInput<'a>) -> (r: Self)
        ensures
            r.deep_view() == input.deep_view(),
    {
        RecordData {
            timestamp_ms: input.timestamp_ms,
            key: own_optional(input.key),
            value: own_optional(input.value),
        }
    }
}

impl<'a> vstd::std_specs::convert::FromSpecImpl<RecordInput<'a>> for RecordData {
    open spec fn obeys_from_spec() -> bool {
        false
    }

    open spec fn from_spec(input: RecordInput<'a>) -> Self {
        arbitrary()
    }
}

impl From<Record> for RecordData {
    fn from(record: Record) -> (r: Self)
        ensures
            r.deep_view() == record.deep_view().data(),
    {
        RecordData { timestamp_ms: record.timestamp_ms, key: record.key, value: record.value }
    }
}

impl vstd::std_specs::convert::FromSpecImpl<Record> for RecordData {
    open spec fn obeys_from_spec() -> bool {
        true
    }

    open spec fn from_spec(record: Record) -> Self {
        RecordData { timestamp_ms: record.timestamp_ms, key: record.key, value: record.value }
    }
}

/// Result of a fetch: owned records plus the partition high watermark.
#[derive(Clone, Debug, Eq, PartialEq)]
pub struct FetchWindow {
    /// Next offset to be assigned; readers at this offset see no records.
    pub high_watermark: i64,
    /// Last offset that is safe for read-committed consumers.
    pub last_stable_offset: i64,
    /// Owned records beginning at the requested offset.
    pub records: Vec<Record>,
}

/// What a fetch window holds.
#[verifier::ext_equal]
pub struct WindowModel {
    /// Next offset to be assigned.
    pub high_watermark: i64,
    /// Last offset that is safe for read-committed consumers.
    pub last_stable_offset: i64,
    /// The records, in offset order.
    pub records: Seq<RecordModel>,
}

impl DeepView for FetchWindow {
    type V = WindowModel;

    open spec fn deep_view(&self) -> WindowModel {
        WindowModel {
            high_watermark: self.high_watermark,
            last_stable_offset: self.last_stable_offset,
            records: self.records.deep_view(),
        }
    }
}

/// How far the transaction of a batch has come.
#[derive(Clone, Copy, Debug, Eq, PartialEq, Structural)]
pub enum BatchState {
    /// The transaction is open.
    Pending,
    /// The batch counts.
    Committed,
    /// The batch was given up.
    Aborted,
}

/// One appended batch.
#[verifier::ext_equal]
pub struct BatchModel {
    /// Offset of the first record.
    pub base_offset: i64,
    /// The records, in offset order.
    pub records: Seq<RecordModel>,
    /// The producer whose transaction the batch belongs to.
    pub transaction: Option<i64>,
    /// How far that transaction has come.
    pub state: BatchState,
}

/// The size charged for a run of records.
pub open spec fn records_size(records: Seq<RecordModel>) -> nat
    decreases records.len(),
{
    if records.len() == 0 {
        0
    } else {
        records_size(records.drop_last()) + records.last().size()
    }
}

/// The size charged for records that are yet to be stored.
pub open spec fn data_size(data: Seq<DataModel>) -> nat
    decreases data.len(),
{
    if data.len() == 0 {
        0
    } else {
        data_size(data.drop_last()) + data.last().size()
    }
}

/// The size charged for a run of batches.
pub open spec fn batches_size(batches: Seq<BatchModel>) -> nat
    decreases batches.len(),
{
    if batches.len() == 0 {
        0
    } else {
        batches_size(batches.drop_last()) + records_size(batches.last().records)
    }
}

/// The number of records in a run of batches.
pub open spec fn batches_count(batches: Seq<BatchModel>) -> nat
    decreases batches.len(),
{
    if batches.len() == 0 {
        0
    } else {
        batches_count(batches.drop_last()) + batches.last().records.len()
    }
}

/// The records at or above an offset.
pub open spec fn records_from(records: Seq<RecordModel>, offset: i64) -> Seq<RecordModel>
    decreases records.len(),
{
    if records.len() == 0 {
        seq![]
    } else if records.last().offset >= offset {
        records_from(records.drop_last(), offset).push(records.last())
    } else {
        records_from(records.drop_last(), offset)
    }
}

impl BatchModel {
    /// The first offset after the batch.
    pub open spec fn end(self) -> int {
        self.base_offset + self.records.len()
    }

    /// Records are numbered from the base offset on, and a batch outside any
    /// transaction is committed.
    pub open spec fn wf(self) -> bool {
        &&& self.records.len() > 0
        &&& forall|i: int|
            0 <= i < self.records.len() ==> (#[trigger] self.records[i]).offset == self.base_offset + i
        &&& self.transaction is None ==> self.state is Committed
    }

    /// Whether the batch belongs to an open transaction.
    pub open spec fn pending(self) -> bool {
        self.transaction is Some && self.state is Pending
    }

    /// Whether read-committed readers do not see the batch.
    pub open spec fn hidden(self, read_committed: bool) -> bool {
        read_committed && self.transaction is Some && !(self.state is Committed)
    }

    /// What a reader at `offset` sees of the batch.
    pub open spec fn readable(self, offset: i64, read_committed: bool) -> Seq<RecordModel> {
        if self.hidden(read_committed) {
            seq![]
        } else {
            records_from(self.records, offset)
        }
    }

    /// The batch once the transaction of `producer_id` is resolved.
    pub open spec fn resolved(self, producer_id: i64, commit: bool) -> BatchModel {
        if self.transaction == Some(producer_id) {
            BatchModel {
                state: if commit {
                    BatchState::Committed
                } else {
                    BatchState::Aborted
                },
                ..self
            }
        } else {
            self
        }
    }
}

/// The records that a reader at `offset` sees, in offset order.
pub open spec fn readable(
    batches: Seq<BatchModel>,
    offset: i64,
    read_committed: bool,
) -> Seq<RecordModel>
    decreases batches.len(),
{
    if batches.len() == 0 {
        seq![]
    } else {
        readable(batches.drop_last(), offset, read_committed) + batches.last().readable(
            offset,
            read_committed,
        )
    }
}

/// Whether a run of records is within a fetch budget. A single record is
/// within any byte budget.
pub open spec fn within_budget(records: Seq<RecordModel>, max_records: nat, max_bytes: nat) -> bool {
    &&& records.len() <= max_records
    &&& records.len() <= 1 || records_size(records) <= max_bytes
}

/// The longest run from the front that is within a fetch budget.
pub open spec fn budgeted(records: Seq<RecordModel>, max_records: nat, max_bytes: nat) -> Seq<RecordModel>
    decreases records.len(),
{
    if records.len() == 0 || within_budget(records, max_records, max_bytes) {
        records
    } else {
        budgeted(records.drop_last(), max_records, max_bytes)
    }
}

/// The offset of the first batch of an open transaction, or `end`.
pub open spec fn stable_end(batches: Seq<BatchModel>, end: i64) -> i64
    decreases batches.len(),
{
    if batches.len() == 0 {
        end
    } else if batches[0].pending() {
        batches[0].base_offset
    } else {
        stable_end(batches.skip(1), end)
    }
}

/// The batches that retention keeps: the oldest go while the limit is
/// exceeded, but never the newest.
pub open spec fn retained(batches: Seq<BatchModel>, limit: nat) -> Seq<BatchModel>
    decreases batches.len(),
{
    if batches.len() > 1 && batches_size(batches) > limit {
        retained(batches.skip(1), limit)
    } else {
        batches
    }
}

/// The records that an append at `base` stores.
pub open spec fn stamped(base: int, data: Seq<DataModel>) -> Seq<RecordModel> {
    Seq::new(data.len(), |i: int| data[i].at(base + i))
}

/// The batch that an append at `base` stores. A transactional batch starts out
/// pending.
pub open spec fn new_batch(base: i64, data: Seq<DataModel>, transaction: Option<i64>) -> BatchModel {
    BatchModel {
        base_offset: base,
        records: stamped(base as int, data),
        transaction,
        state: if transaction is Some {
            BatchState::Pending
        } else {
            BatchState::Committed
        },
    }
}

/// What a partition log holds.
#[verifier::ext_equal]
pub struct LogModel {
    /// The retained batches, oldest first.
    pub batches: Seq<BatchModel>,
    /// The next offset that will be assigned.
    pub next_offset: i64,
    /// The retained-byte budget.
    pub max_bytes: Option<usize>,
}

impl LogModel {
    /// A log that has never been appended to.
    pub open spec fn empty(max_bytes: Option<usize>) -> LogModel {
        LogModel { batches: seq![], next_offset: 0, max_bytes }
    }

    /// Batches follow each other without a gap up to the next offset.
    pub open spec fn wf(self) -> bool {
        &&& self.next_offset >= 0
        &&& forall|i: int| 0 <= i < self.batches.len() ==> (#[trigger] self.batches[i]).wf()
        &&& forall|i: int, j: int|
            0 <= i && j == i + 1 && j < self.batches.len() ==> (#[trigger] self.batches[i]).end()
                == (#[trigger] self.batches[j]).base_offset
        &&& self.batches.len() > 0 ==> self.batches.last().end() == self.next_offset
        &&& self.start_offset() >= 0
    }

    /// The earliest retained offset.
    pub open spec fn start_offset(self) -> i64 {
        if self.batches.len() > 0 {
            self.batches[0].base_offset
        } else {
            self.next_offset
        }
    }

    /// Whether there are offsets left for one more batch, or it is not one that
    /// would be stored.
    pub open spec fn has_room(self, data: Seq<DataModel>) -> bool {
        0 < data.len() <= MAX_APPEND_RECORDS ==> self.next_offset + data.len() <= i64::MAX
    }

    /// The log with one more batch, before retention.
    pub open spec fn with_batch(self, data: Seq<DataModel>, transaction: Option<i64>) -> LogModel {
        LogModel {
            batches: self.batches.push(new_batch(self.next_offset, data, transaction)),
            next_offset: (self.next_offset + data.len()) as i64,
            max_bytes: self.max_bytes,
        }
    }

    /// The log after retention.
    pub open spec fn trimmed(self) -> LogModel {
        LogModel {
            batches: match self.max_bytes {
                Some(limit) => retained(self.batches, limit as nat),
                None => self.batches,
            },
            ..self
        }
    }

    /// What an append does and answers.
    pub open spec fn appended(self, data: Seq<DataModel>, transaction: Option<i64>) -> (
        LogModel,
        Result<i64, LogError>,
    ) {
        if data.len() == 0 {
            (self, Err(LogError::EmptyAppend))
        } else if data.len() > MAX_APPEND_RECORDS {
            (self, Err(LogError::TooManyRecords))
        } else {
            (self.with_batch(data, transaction).trimmed(), Ok(self.next_offset))
        }
    }

    /// The log once the transaction of `producer_id` is resolved.
    pub open spec fn resolved(self, producer_id: i64, commit: bool) -> LogModel {
        LogModel {
            batches: Seq::new(
                self.batches.len(),
                |i: int| self.batches[i].resolved(producer_id, commit),
            ),
            ..self
        }
    }

    /// What a fetch answers.
    pub open spec fn fetched(
        self,
        offset: i64,
        max_records: usize,
        max_bytes: usize,
        read_committed: bool,
    ) -> Result<WindowModel, LogError> {
        if offset < self.start_offset() || offset > self.next_offset {
            Err(LogError::OffsetOutOfRange)
        } else {
            Ok(
                WindowModel {
                    high_watermark: self.next_offset,
                    last_stable_offset: stable_end(self.batches, self.next_offset),
                    records: budgeted(
                        readable(self.batches, offset, read_committed),
                        max_records as nat,
                        max_bytes as nat,
                    ),
                },
            )
        }
    }
}

#[derive(Debug, Eq, PartialEq)]
struct StoredBatch {
    base_offset: i64,
    records: Vec<Record>,
    transaction: Option<i64>,
    state: BatchState,
}

impl DeepView for StoredBatch {
    type V = BatchModel;

    closed spec fn deep_view(&self) -> BatchModel {
        BatchModel {
            base_offset: self.base_offset,
            records: self.records.deep_view(),
            transaction: self.transaction,
            state: self.state,
        }
    }
}

/// One partition's ordered record history.
///
/// A log may be bounded by an approximate retained-byte budget. When the
/// budget is exceeded, the oldest batches are dropped and the start offset
/// advances; readers below the retained start receive
/// [`LogError::OffsetOutOfRange`] and must resynchronize.
#[derive(Debug, Eq, PartialEq)]
pub struct PartitionLog {
    batches: Vec<StoredBatch>,
    next_offset: i64,
    max_bytes: Option<usize>,
    /// What the batches are charged; counted where there is a budget.
    retained_bytes: u128,
}

impl View for PartitionLog {
    type V = LogModel;

    closed spec fn view(&self) -> LogModel {
        LogModel {
            batches: self.batches.deep_view(),
            next_offset: self.next_offset,
            max_bytes: self.max_bytes,
        }
    }
}

pub(crate) proof fn lemma_records_size_take(records: Seq<RecordModel>, n: int)
    requires
        0 <= n <= records.len(),
    ensures
        records_size(records.take(n)) <= records_size(records),
    decreases records.len(),
{
    if n < records.len() {
        lemma_records_size_take(records.drop_last(), n);
        assert(records.drop_last().take(n) =~= records.take(n));
    } else {
        assert(records.take(n) =~= records);
    }
}

pub(crate) proof fn lemma_stamped_size(base: int, data: Seq<DataModel>)
    ensures
        records_size(stamped(base, data)) == data_size(data),
    decreases data.len(),
{
    if data.len() > 0 {
        lemma_stamped_size(base, data.drop_last());
        assert(stamped(base, data).drop_last() =~= stamped(base, data.drop_last()));
        assert(stamped(base, data).last().data() == data.last());
    }
}

pub(crate) proof fn lemma_count_take(batches: Seq<BatchModel>, n: int)
    requires
        0 <= n <= batches.len(),
    ensures
        batches_count(batches.take(n)) <= batches_count(batches),
    decreases batches.len(),
{
    if n < batches.len() {
        lemma_count_take(batches.drop_last(), n);
        assert(batches.drop_last().take(n) =~= batches.take(n));
    } else {
        assert(batches.take(n) =~= batches);
    }
}

pub(crate) proof fn lemma_batches_size_front(batches: Seq<BatchModel>)
    requires
        batches.len() > 0,
    ensures
        batches_size(batches) == records_size(batches[0].records) + batches_size(batches.skip(1)),
    decreases batches.len(),
{
    if batches.len() == 1 {
        assert(batches.drop_last() =~= seq![]);
        assert(batches.skip(1) =~= seq![]);
    } else {
        lemma_batches_size_front(batches.drop_last());
        assert(batches.drop_last().skip(1) =~= batches.skip(1).drop_last());
    }
}

/// Earlier batches end at or before later ones begin.
pub(crate) proof fn lemma_batches_ordered(log: LogModel, i: int, j: int)
    requires
        log.wf(),
        0 <= i < j < log.batches.len(),
    ensures
        log.batches[i].end() <= log.batches[j].base_offset,
    decreases j - i,
{
    assert(log.batches[i].end() == log.batches[i + 1].base_offset);
    if i + 1 < j {
        lemma_batches_ordered(log, i + 1, j);
        assert(log.batches[i + 1].wf());
    }
}

/// No batch begins before the start of the log.
pub(crate) proof fn lemma_batches_ordered_start(log: LogModel, j: int)
    requires
        log.wf(),
        0 <= j < log.batches.len(),
    ensures
        log.start_offset() <= log.batches[j].base_offset,
{
    if j > 0 {
        lemma_batches_ordered(log, 0, j);
        assert(log.batches[0].wf());
    }
}

/// A prefix that breaks the budget makes every extension break it.
pub(crate) proof fn lemma_budget_prefix(a: Seq<RecordModel>, b: Seq<RecordModel>, max_records: nat, max_bytes: nat)
    requires
        a.len() > 0,
        !within_budget(a, max_records, max_bytes),
    ensures
        !within_budget(a + b, max_records, max_bytes),
    decreases b.len(),
{
    if b.len() == 0 {
        assert(a + b =~= a);
    } else {
        lemma_budget_prefix(a, b.drop_last(), max_records, max_bytes);
        assert((a + b).drop_last() =~= a + b.drop_last());
    }
}

/// The window ends where the budget is first exceeded.
pub(crate) proof fn lemma_budget_stop(
    kept: Seq<RecordModel>,
    next: RecordModel,
    rest: Seq<RecordModel>,
    max_records: nat,
    max_bytes: nat,
)
    requires
        within_budget(kept, max_records, max_bytes),
        !within_budget(kept.push(next), max_records, max_bytes),
    ensures
        budgeted(kept.push(next) + rest, max_records, max_bytes) == kept,
    decreases rest.len(),
{
    let whole = kept.push(next) + rest;
    lemma_budget_prefix(kept.push(next), rest, max_records, max_bytes);
    if rest.len() == 0 {
        assert(whole.drop_last() =~= kept);
        assert(budgeted(kept, max_records, max_bytes) == kept);
    } else {
        lemma_budget_stop(kept, next, rest.drop_last(), max_records, max_bytes);
        assert(whole.drop_last() =~= kept.push(next) + rest.drop_last());
    }
}

pub(crate) proof fn lemma_records_from_none(records: Seq<RecordModel>, offset: i64)
    requires
        forall|i: int| 0 <= i < records.len() ==> (#[trigger] records[i]).offset < offset,
    ensures
        records_from(records, offset) == Seq::<RecordModel>::empty(),
    decreases records.len(),
{
    if records.len() > 0 {
        lemma_records_from_none(records.drop_last(), offset);
    }
}

/// Batches that end before the requested offset contribute nothing.
pub(crate) proof fn lemma_readable_none(batches: Seq<BatchModel>, offset: i64, read_committed: bool)
    requires
        forall|i: int| 0 <= i < batches.len() ==> (#[trigger] batches[i]).wf() && batches[i].end() <= offset,
    ensures
        readable(batches, offset, read_committed) == Seq::<RecordModel>::empty(),
    decreases batches.len(),
{
    if batches.len() > 0 {
        assert(batches[batches.len() - 1].wf());
        lemma_readable_none(batches.drop_last(), offset, read_committed);
        lemma_records_from_none(batches.last().records, offset);
        assert(readable(batches, offset, read_committed) =~= seq![]);
    }
}

/// What is read of a prefix comes first in what is read of the whole.
pub(crate) proof fn lemma_readable_prefix(batches: Seq<BatchModel>, n: int, offset: i64, read_committed: bool) -> (rest: Seq<RecordModel>)
    requires
        0 <= n <= batches.len(),
    ensures
        readable(batches, offset, read_committed) == readable(batches.take(n), offset, read_committed) + rest,
    decreases batches.len(),
{
    if n == batches.len() {
        assert(batches.take(n) =~= batches);
        let rest = Seq::<RecordModel>::empty();
        assert(readable(batches, offset, read_committed) =~= readable(batches, offset, read_committed) + rest);
        rest
    } else {
        let inner = lemma_readable_prefix(batches.drop_last(), n, offset, read_committed);
        assert(batches.drop_last().take(n) =~= batches.take(n));
        let rest = inner + batches.last().readable(offset, read_committed);
        assert(readable(batches, offset, read_committed) =~= readable(batches.take(n), offset, read_committed) + rest);
        rest
    }
}

pub(crate) proof fn lemma_records_from_prefix(records: Seq<RecordModel>, n: int, offset: i64) -> (rest: Seq<RecordModel>)
    requires
        0 <= n <= records.len(),
    ensures
        records_from(records, offset) == records_from(records.take(n), offset) + rest,
    decreases records.len(),
{
    if n == records.len() {
        assert(records.take(n) =~= records);
        let rest = Seq::<RecordModel>::empty();
        assert(records_from(records, offset) =~= records_from(records, offset) + rest);
        rest
    } else {
        let inner = lemma_records_from_prefix(records.drop_last(), n, offset);
        assert(records.drop_last().take(n) =~= records.take(n));
        let rest = if records.last().offset >= offset {
            inner.push(records.last())
        } else {
            inner
        };
        assert(records_from(records, offset) =~= records_from(records.take(n), offset) + rest);
        rest
    }
}

/// Appending and trimming keep the batches contiguous.
pub(crate) proof fn lemma_with_batch_wf(log: LogModel, data: Seq<DataModel>, transaction: Option<i64>)
    requires
        log.wf(),
        data.len() > 0,
        log.next_offset + data.len() <= i64::MAX,
    ensures
        log.with_batch(data, transaction).wf(),
{
    let after = log.with_batch(data, transaction);
    let batch = new_batch(log.next_offset, data, transaction);
    assert(batch.wf());
    assert forall|i: int| 0 <= i < after.batches.len() implies (#[trigger] after.batches[i]).wf() by {
        if i < log.batches.len() {
            assert(log.batches[i].wf());
        }
    }
    if log.batches.len() > 0 {
        assert(after.batches[0] == log.batches[0]);
    }
}

pub(crate) proof fn lemma_drop_oldest_wf(log: LogModel)
    requires
        log.wf(),
        log.batches.len() > 1,
    ensures
        (LogModel { batches: log.batches.skip(1), ..log }).wf(),
{
    let after = LogModel { batches: log.batches.skip(1), ..log };
    assert forall|i: int| 0 <= i < after.batches.len() implies (#[trigger] after.batches[i]).wf() by {
        assert(log.batches[i + 1].wf());
    }
    assert forall|i: int, j: int| 0 <= i && j == i + 1 && j < after.batches.len() implies (
    #[trigger] after.batches[i]).end() == (#[trigger] after.batches[j]).base_offset by {
        assert(log.batches[i + 1].end() == log.batches[j + 1].base_offset);
    }
    assert(log.batches[0].end() == log.batches[1].base_offset);
    assert(log.batches[0].wf());
}

impl PartitionLog {
    /// The batches are contiguous and their total size is kept up to date.
    pub closed spec fn wf(&self) -> bool {
        &&& self@.wf()
        &&& self.max_bytes is Some ==> self.retained_bytes == batches_size(self@.batches)
            && self.retained_bytes <= BATCH_SIZE_BOUND
    }

    /// What a well-formed log stands for is well-formed.
    pub proof fn lemma_model_wf(&self)
        requires
            self.wf(),
        ensures
            self@.wf(),
    {
    }

    /// Creates an unbounded log whose first assigned offset is zero.
    pub fn new() -> (r: Self)
        ensures
            r.wf(),
            r@ == LogModel::empty(None),
    {
        PartitionLog { batches: Vec::new(), next_offset: 0, max_bytes: None, retained_bytes: 0 }
    }

    /// Creates a log that drops the oldest batches above `max_bytes`.
    pub fn with_max_bytes(max_bytes: usize) -> (r: Self)
        ensures
            r.wf(),
            r@ == LogModel::empty(Some(max_bytes)),
    {
        PartitionLog {
            batches: Vec::new(),
            next_offset: 0,
            max_bytes: Some(max_bytes),
            retained_bytes: 0,
        }
    }

    /// The next offset that will be assigned.
    pub fn high_watermark(&self) -> (r: i64)
        ensures
            r == self@.next_offset,
    {
        self.next_offset
    }

    /// The earliest offset retained by this log.
    pub fn start_offset(&self) -> (r: i64)
        ensures
            r == self@.start_offset(),
    {
        if self.batches.len() > 0 {
            self.batches[0].base_offset
        } else {
            self.next_offset
        }
    }

    /// Total number of stored records, where a `usize` holds it.
    pub fn record_count(&self) -> (r: usize)
        requires
            batches_count(self@.batches) <= usize::MAX,
        ensures
            r == batches_count(self@.batches),
    {
        let ghost batches = self@.batches;
        let mut count: usize = 0;
        let mut i: usize = 0;
        while i < self.batches.len()
            invariant
                batches == self@.batches,
                batches_count(batches) <= usize::MAX,
                i <= self.batches.len(),
                count == batches_count(batches.take(i as int)),
            decreases self.batches.len() - i,
        {
            proof {
                lemma_count_take(batches, i + 1);
                assert(batches.take(i + 1).drop_last() =~= batches.take(i as int));
                assert(batches[i as int] == self.batches@[i as int].deep_view());
            }
            count += self.batches[i].records.len();
            i += 1;
        }
        proof {
            assert(batches.take(i as int) =~= batches);
        }
        count
    }

    /// Reads the earliest or latest offset of this partition.
    pub fn list_offset(&self, earliest: bool) -> (r: i64)
        ensures
            r == if earliest {
                self@.start_offset()
            } else {
                self@.next_offset
            },
    {
        if earliest {
            self.start_offset()
        } else {
            self.next_offset
        }
    }
}

/// Length of an optional byte vector.
fn optional_bytes_len(bytes: &Option<Vec<u8>>) -> (r: usize)
    ensures
        r == optional_len(bytes.deep_view()),
{
    match bytes {
        Some(bytes) => bytes.len(),
        None => 0,
    }
}

/// Approximate stored size of one record.
fn record_size(record: &Record) -> (r: u128)
    ensures
        r == record.deep_view().size(),
        r <= RECORD_SIZE_BOUND,
{
    let key: usize = optional_bytes_len(&record.key);
    let value: usize = optional_bytes_len(&record.value);
    RECORD_OVERHEAD_BYTES as u128 + key as u128 + value as u128
}

/// Approximate stored size of one batch.
fn batch_size(batch: &StoredBatch) -> (r: u128)
    requires
        batch.deep_view().records.len() <= MAX_APPEND_RECORDS || records_size(
            batch.deep_view().records,
        ) <= u128::MAX,
    ensures
        r == records_size(batch.deep_view().records),
        batch.deep_view().records.len() <= MAX_APPEND_RECORDS ==> r <= BATCH_SIZE_BOUND,
{
    let ghost records = batch.deep_view().records;
    let mut total: u128 = 0;
    let mut i: usize = 0;
    while i < batch.records.len()
        invariant
            records == batch.deep_view().records,
            records.len() == batch.records.len(),
            records.len() <= MAX_APPEND_RECORDS || records_size(records) <= u128::MAX,
            i <= batch.records.len(),
            total == records_size(records.take(i as int)),
            total <= i * RECORD_SIZE_BOUND,
        decreases batch.records.len() - i,
    {
        proof {
            lemma_records_size_take(records, i + 1);
            assert(records.take(i + 1).drop_last() =~= records.take(i as int));
            assert(records[i as int] == batch.records@[i as int].deep_view());
        }
        total += record_size(&batch.records[i]);
        i += 1;
    }
    proof {
        assert(records.take(i as int) =~= records);
    }
    total
}

impl PartitionLog {
    /// Drops the oldest batches while the retained-byte budget is exceeded.
    ///
    /// The newest batch is always retained, so an append larger than the
    /// budget is still readable instead of immediately discarded.
    fn enforce_retention(&mut self)
        requires
            old(self)@.wf(),
            old(self)@.batches.len() > 0,
            old(self).max_bytes is Some ==> {
                &&& old(self).retained_bytes == batches_size(old(self)@.batches)
                &&& records_size(old(self)@.batches.last().records) <= BATCH_SIZE_BOUND
            },
        ensures
            final(self).wf(),
            final(self)@ == old(self)@.trimmed(),
    {
        let limit: usize = match self.max_bytes {
            Some(limit) => limit,
            None => {
                return;
            },
        };
        let ghost wanted = self@.trimmed();
        while self.batches.len() > 1 && self.retained_bytes > limit as u128
            invariant
                self@.wf(),
                self@.batches.len() > 0,
                self.retained_bytes == batches_size(self@.batches),
                records_size(self@.batches.last().records) <= BATCH_SIZE_BOUND,
                self@.trimmed() == wanted,
                self.max_bytes == Some(limit),
            decreases self.batches.len(),
        {
            let ghost before = self@;
            proof {
                lemma_batches_size_front(before.batches);
                lemma_drop_oldest_wf(before);
            }
            let removed = self.batches.remove(0);
            proof {
                assert(removed.deep_view() == before.batches[0]);
                assert(self@.batches =~= before.batches.skip(1));
            }
            self.retained_bytes = self.retained_bytes - batch_size(&removed);
        }
        proof {
            assert(self@.batches.drop_last().len() == 0 ==> batches_size(self@.batches.drop_last()) == 0);
        }
    }

    /// Stores one batch at the end of the log.
    fn store(&mut self, records: Vec<Record>, transaction: Option<i64>, Ghost(data): Ghost<Seq<DataModel>>)
        requires
            old(self).wf(),
            0 < data.len() <= MAX_APPEND_RECORDS,
            records.deep_view() == stamped(old(self)@.next_offset as int, data),
            old(self)@.has_room(data),
        ensures
            final(self).wf(),
            final(self)@ == old(self)@.with_batch(data, transaction).trimmed(),
    {
        let ghost before = self@;
        let base_offset: i64 = self.next_offset;
        proof {
            assert(records.deep_view().len() == records@.len());
            lemma_with_batch_wf(before, data, transaction);
            lemma_stamped_size(base_offset as int, data);
        }
        self.next_offset = base_offset + records.len() as i64;
        let state = if transaction.is_some() {
            BatchState::Pending
        } else {
            BatchState::Committed
        };
        let batch = StoredBatch { base_offset, records, transaction, state };
        let ghost stored = batch.deep_view();
        if self.max_bytes.is_some() {
            self.retained_bytes = self.retained_bytes + batch_size(&batch);
        }
        self.batches.push(batch);
        proof {
            assert(stored =~= new_batch(base_offset, data, transaction));
            assert(self@.batches =~= before.batches.push(stored));
            assert(self@ =~= before.with_batch(data, transaction));
            assert(before.batches.push(stored).drop_last() =~= before.batches);
        }
        self.enforce_retention();
    }

    /// Appends one batch of borrowed records atomically and returns its base
    /// offset.
    ///
    /// # Errors
    ///
    /// Returns [`LogError::EmptyAppend`] for an empty batch and
    /// [`LogError::TooManyRecords`] beyond [`MAX_APPEND_RECORDS`].
    pub fn append(&mut self, inputs: &[RecordInput<'_>]) -> (r: Result<i64, LogError>)
        requires
            old(self).wf(),
            old(self)@.has_room(inputs.deep_view()),
        ensures
            final(self).wf(),
            (final(self)@, r) == old(self)@.appended(inputs.deep_view(), None),
    {
        if inputs.len() == 0 {
            return Err(LogError::EmptyAppend);
        }
        if inputs.len() > MAX_APPEND_RECORDS {
            return Err(LogError::TooManyRecords);
        }
        let ghost data = inputs.deep_view();
        let base_offset: i64 = self.next_offset;
        let mut records: Vec<Record> = Vec::with_capacity(inputs.len());
        let mut index: usize = 0;
        while index < inputs.len()
            invariant
                data == inputs.deep_view(),
                index <= inputs.len() <= MAX_APPEND_RECORDS,
                base_offset + data.len() <= i64::MAX,
                records.deep_view() =~= stamped(base_offset as int, data).take(index as int),
            decreases inputs.len() - index,
        {
            let input = inputs[index];
            proof {
                assert(input.deep_view() == data[index as int]);
            }
            let record = Record {
                offset: base_offset + index as i64,
                timestamp_ms: input.timestamp_ms,
                key: own_optional(input.key),
                value: own_optional(input.value),
            };
            let ghost before = records.deep_view();
            proof {
                assert(record.deep_view() =~= data[index as int].at(base_offset + index));
                assert(record.deep_view() == stamped(base_offset as int, data)[index as int]);
            }
            let ghost model = record.deep_view();
            records.push(record);
            proof {
                assert(records.deep_view() =~= before.push(model));
            }
            index += 1;
        }
        proof {
            assert(stamped(base_offset as int, data).take(index as int) =~= stamped(base_offset as int, data));
        }
        self.store(records, None, Ghost(data));
        Ok(base_offset)
    }

    /// Appends owned records atomically and returns the base offset.
    pub fn append_data(&mut self, records: &[RecordData]) -> (r: Result<i64, LogError>)
        requires
            old(self).wf(),
            old(self)@.has_room(records.deep_view()),
        ensures
            final(self).wf(),
            (final(self)@, r) == old(self)@.appended(records.deep_view(), None),
    {
        let ghost data = records.deep_view();
        let mut inputs: Vec<RecordInput<'_>> = Vec::new();
        let mut index: usize = 0;
        while index < records.len()
            invariant
                data == records.deep_view(),
                index <= records.len(),
                inputs.deep_view() =~= data.take(index as int),
            decreases records.len() - index,
        {
            let input = records[index].as_input();
            let ghost before = inputs.deep_view();
            let ghost model = input.deep_view();
            inputs.push(input);
            proof {
                assert(model == data[index as int]);
                assert(inputs.deep_view() =~= before.push(model));
            }
            index += 1;
        }
        let slice = inputs.as_slice();
        proof {
            assert(data.take(index as int) =~= data);
            assert(slice.deep_view() =~= inputs.deep_view());
        }
        self.append(slice)
    }

    /// Appends a batch belonging to a producer transaction. It is hidden from
    /// read-committed readers until the transaction is resolved.
    pub fn append_transactional(&mut self, records: &[RecordData], producer_id: i64) -> (r: Result<
        i64,
        LogError,
    >)
        requires
            old(self).wf(),
            old(self)@.has_room(records.deep_view()),
        ensures
            final(self).wf(),
            (final(self)@, r) == old(self)@.appended(records.deep_view(), Some(producer_id)),
    {
        if records.len() == 0 {
            return Err(LogError::EmptyAppend);
        }
        if records.len() > MAX_APPEND_RECORDS {
            return Err(LogError::TooManyRecords);
        }
        let ghost data = records.deep_view();
        let base_offset: i64 = self.next_offset;
        let mut stored: Vec<Record> = Vec::with_capacity(records.len());
        let mut index: usize = 0;
        while index < records.len()
            invariant
                data == records.deep_view(),
                index <= records.len() <= MAX_APPEND_RECORDS,
                base_offset + data.len() <= i64::MAX,
                stored.deep_view() =~= stamped(base_offset as int, data).take(index as int),
            decreases records.len() - index,
        {
            let input = &records[index];
            proof {
                assert(input.deep_view() == data[index as int]);
            }
            let record = Record {
                offset: base_offset + index as i64,
                timestamp_ms: input.timestamp_ms,
                key: copy_optional(&input.key),
                value: copy_optional(&input.value),
            };
            let ghost before = stored.deep_view();
            proof {
                assert(record.deep_view() =~= data[index as int].at(base_offset + index));
                assert(record.deep_view() == stamped(base_offset as int, data)[index as int]);
            }
            let ghost model = record.deep_view();
            stored.push(record);
            proof {
                assert(stored.deep_view() =~= before.push(model));
            }
            index += 1;
        }
        proof {
            assert(stamped(base_offset as int, data).take(index as int) =~= stamped(base_offset as int, data));
        }
        self.store(stored, Some(producer_id), Ghost(data));
        Ok(base_offset)
    }

    /// Commits or aborts all batches belonging to a producer in this log.
    pub fn commit_transaction(&mut self, producer_id: i64, commit: bool)
        requires
            old(self).wf(),
        ensures
            final(self).wf(),
            final(self)@ == old(self)@.resolved(producer_id, commit),
    {
        let ghost before = self@;
        let state = if commit {
            BatchState::Committed
        } else {
            BatchState::Aborted
        };
        let mut i: usize = 0;
        while i < self.batches.len()
            invariant
                i <= self.batches.len(),
                self.batches.len() == before.batches.len(),
                self.next_offset == before.next_offset,
                self.max_bytes == before.max_bytes,
                self.retained_bytes == old(self).retained_bytes,
                state == if commit {
                    BatchState::Committed
                } else {
                    BatchState::Aborted
                },
                forall|k: int|
                    0 <= k < i ==> (#[trigger] self.batches@[k]).deep_view() == before.batches[k].resolved(
                        producer_id,
                        commit,
                    ),
                forall|k: int|
                    i <= k < self.batches.len() ==> (#[trigger] self.batches@[k]).deep_view()
                        == before.batches[k],
            decreases self.batches.len() - i,
        {
            proof {
                assert(self.batches@[i as int].deep_view() == before.batches[i as int]);
            }
            if self.batches[i].transaction == Some(producer_id) {
                self.batches[i].state = state;
            }
            i += 1;
        }
        proof {
            assert(self@ =~= before.resolved(producer_id, commit));
            lemma_resolved_wf(before, producer_id, commit);
        }
    }

    /// Index of the last batch whose base offset is at or below `offset`.
    fn batch_index_for(&self, offset: i64) -> (r: usize)
        requires
            self.wf(),
            self@.start_offset() <= offset < self@.next_offset,
        ensures
            r < self@.batches.len(),
            self@.batches[r as int].base_offset <= offset,
            r + 1 < self@.batches.len() ==> self@.batches[r + 1].base_offset > offset,
    {
        let mut low: usize = 0;
        let mut high: usize = self.batches.len();
        while low < high
            invariant
                self.wf(),
                self@.start_offset() <= offset < self@.next_offset,
                low <= high <= self.batches.len(),
                low > 0 ==> self@.batches[low - 1].base_offset <= offset,
                high < self.batches.len() ==> self@.batches[high as int].base_offset > offset,
            decreases high - low,
        {
            let middle: usize = low + (high - low) / 2;
            if self.batches[middle].base_offset <= offset {
                low = middle + 1;
            } else {
                high = middle;
            }
        }
        proof {
            if low == 0 {
                assert(self@.batches.len() > 0);
                assert(self@.batches[0].base_offset <= offset);
            }
        }
        low.saturating_sub(1)
    }
}

/// Resolving a transaction keeps the batches contiguous and their sizes.
pub(crate) proof fn lemma_resolved_wf(log: LogModel, producer_id: i64, commit: bool)
    requires
        log.wf(),
    ensures
        log.resolved(producer_id, commit).wf(),
        batches_size(log.resolved(producer_id, commit).batches) == batches_size(log.batches),
{
    let after = log.resolved(producer_id, commit);
    assert forall|i: int| 0 <= i < after.batches.len() implies (#[trigger] after.batches[i]).wf() by {
        assert(log.batches[i].wf());
    }
    assert forall|i: int, j: int| 0 <= i && j == i + 1 && j < after.batches.len() implies (
    #[trigger] after.batches[i]).end() == (#[trigger] after.batches[j]).base_offset by {
        assert(log.batches[i].end() == log.batches[j].base_offset);
    }
    if log.batches.len() > 0 {
        assert(after.batches.last() == log.batches.last().resolved(producer_id, commit));
    }
    lemma_resolved_size(log.batches, producer_id, commit);
}

pub(crate) proof fn lemma_resolved_size(batches: Seq<BatchModel>, producer_id: i64, commit: bool)
    ensures
        batches_size(Seq::new(batches.len(), |i: int| batches[i].resolved(producer_id, commit)))
            == batches_size(batches),
    decreases batches.len(),
{
    let after = Seq::new(batches.len(), |i: int| batches[i].resolved(producer_id, commit));
    if batches.len() > 0 {
        let shorter = batches.drop_last();
        lemma_resolved_size(shorter, producer_id, commit);
        assert(after.drop_last() =~= Seq::new(
            shorter.len(),
            |i: int| shorter[i].resolved(producer_id, commit),
        ));
    }
}

pub(crate) proof fn lemma_budget_zero(records: Seq<RecordModel>, max_bytes: nat)
    ensures
        budgeted(records, 0, max_bytes) == Seq::<RecordModel>::empty(),
    decreases records.len(),
{
    if records.len() > 0 {
        lemma_budget_zero(records.drop_last(), max_bytes);
    } else {
        assert(records =~= seq![]);
    }
}

/// Where the next record that a reader sees stands among all of them.
pub(crate) proof fn lemma_readable_split(
    log: LogModel,
    b: int,
    k: int,
    offset: i64,
    read_committed: bool,
) -> (rest: Seq<RecordModel>)
    requires
        0 <= b < log.batches.len(),
        0 <= k < log.batches[b].records.len(),
        !log.batches[b].hidden(read_committed),
        log.batches[b].records[k].offset >= offset,
    ensures
        readable(log.batches, offset, read_committed) == (readable(
            log.batches.take(b),
            offset,
            read_committed,
        ) + records_from(log.batches[b].records.take(k), offset)).push(log.batches[b].records[k])
            + rest,
{
    let records = log.batches[b].records;
    let before = readable(log.batches.take(b), offset, read_committed);
    let inside = lemma_records_from_prefix(records, k + 1, offset);
    let after = lemma_readable_prefix(log.batches, b + 1, offset, read_committed);
    assert(log.batches.take(b + 1).drop_last() =~= log.batches.take(b));
    assert(log.batches.take(b + 1).last() == log.batches[b]);
    assert(records.take(k + 1).drop_last() =~= records.take(k));
    assert(records.take(k + 1).last() == records[k]);
    let rest = inside + after;
    assert(readable(log.batches, offset, read_committed) =~= (before + records_from(
        records.take(k),
        offset,
    )).push(records[k]) + rest);
    rest
}

impl PartitionLog {
    /// Reads records beginning at `offset`, bounded by `max_records` and an
    /// approximate byte budget.
    ///
    /// The first available record is returned even when it exceeds
    /// `max_bytes`, so a reader always makes progress. A fetch at the high
    /// watermark returns an empty window rather than an error.
    ///
    /// # Errors
    ///
    /// Returns [`LogError::OffsetOutOfRange`] for an offset below the retained
    /// start or beyond the high watermark.
    pub fn fetch(&self, offset: i64, max_records: usize, max_bytes: usize) -> (r: Result<
        FetchWindow,
        LogError,
    >)
        requires
            self.wf(),
        ensures
            window_view(r) == self@.fetched(offset, max_records, max_bytes, false),
    {
        self.fetch_inner(offset, max_records, max_bytes, false)
    }

    /// Reads only committed transactional batches when requested.
    pub fn fetch_with_isolation(
        &self,
        offset: i64,
        max_records: usize,
        max_bytes: usize,
        read_committed: bool,
    ) -> (r: Result<FetchWindow, LogError>)
        requires
            self.wf(),
        ensures
            window_view(r) == self@.fetched(offset, max_records, max_bytes, read_committed),
    {
        self.fetch_inner(offset, max_records, max_bytes, read_committed)
    }

    /// Collects the records of a fetch.
    fn collect(&self, offset: i64, max_records: usize, max_bytes: usize, read_committed: bool) -> (r: Vec<Record>)
        requires
            self.wf(),
            max_records > 0,
            self@.start_offset() <= offset < self@.next_offset,
        ensures
            r.deep_view() == budgeted(
                readable(self@.batches, offset, read_committed),
                max_records as nat,
                max_bytes as nat,
            ),
    {
        let ghost batches = self@.batches;
        let ghost whole = readable(batches, offset, read_committed);
        let ghost limit = max_records as nat;
        let ghost room = max_bytes as nat;
        let start_batch: usize = self.batch_index_for(offset);
        let mut records: Vec<Record> = Vec::new();
        let mut bytes: u128 = 0;
        let mut open = true;
        let mut b: usize = start_batch;
        proof {
            let first = batches.take(start_batch as int);
            assert forall|i: int| 0 <= i < first.len() implies (#[trigger] first[i]).wf()
                && first[i].end() <= offset by {
                assert(batches[i].wf());
                lemma_batches_ordered(self@, i, start_batch as int);
            }
            lemma_readable_none(first, offset, read_committed);
            assert(records.deep_view() =~= seq![]);
        }
        while open && b < self.batches.len()
            invariant
                self.wf(),
                batches == self@.batches,
                whole == readable(batches, offset, read_committed),
                limit == max_records,
                limit > 0,
                room == max_bytes,
                b <= self.batches.len(),
                open ==> {
                    &&& records.deep_view() == readable(batches.take(b as int), offset, read_committed)
                    &&& within_budget(records.deep_view(), limit, room)
                    &&& bytes == records_size(records.deep_view()) <= RECORD_SIZE_BOUND
                },
                !open ==> records.deep_view() == budgeted(whole, limit, room),
            decreases self.batches.len() - b,
        {
            let batch = &self.batches[b];
            let ghost model = batches[b as int];
            let ghost earlier = readable(batches.take(b as int), offset, read_committed);
            let visible = !read_committed || batch.transaction.is_none() || batch.state
                == BatchState::Committed;
            let mut k: usize = 0;
            proof {
                assert(model == batch.deep_view());
                assert(visible == !model.hidden(read_committed));
                assert(earlier + records_from(model.records.take(0), offset) =~= earlier);
            }
            while open && k < batch.records.len()
                invariant
                    self.wf(),
                    batches == self@.batches,
                    whole == readable(batches, offset, read_committed),
                    limit == max_records,
                    limit > 0,
                    room == max_bytes,
                    b < self.batches.len(),
                    model == batches[b as int],
                    model == batch.deep_view(),
                    visible == !model.hidden(read_committed),
                    earlier == readable(batches.take(b as int), offset, read_committed),
                    k <= batch.records.len(),
                    open ==> {
                        &&& records.deep_view() == earlier + if visible {
                            records_from(model.records.take(k as int), offset)
                        } else {
                            seq![]
                        }
                        &&& within_budget(records.deep_view(), limit, room)
                        &&& bytes == records_size(records.deep_view()) <= RECORD_SIZE_BOUND
                    },
                    !open ==> records.deep_view() == budgeted(whole, limit, room),
                decreases batch.records.len() - k,
            {
                let record = &batch.records[k];
                let ghost kept = records.deep_view();
                let ghost next = record.deep_view();
                proof {
                    assert(next == model.records[k as int]);
                    assert(model.records.take(k + 1).drop_last() =~= model.records.take(k as int));
                }
                if record.offset >= offset && visible {
                    let ghost rest = lemma_readable_split(
                        self@,
                        b as int,
                        k as int,
                        offset,
                        read_committed,
                    );
                    proof {
                        assert(whole == kept.push(next) + rest);
                        assert(kept.push(next).drop_last() =~= kept);
                    }
                    let size: u128 = record_size(record);
                    if records.len() == max_records || (records.len() > 0 && bytes + size
                        > max_bytes as u128) {
                        proof {
                            lemma_budget_stop(kept, next, rest, limit, room);
                        }
                        open = false;
                    } else {
                        bytes += size;
                        records.push(record.clone());
                        proof {
                            assert(records.deep_view() =~= kept.push(next));
                            assert(earlier + records_from(model.records.take(k + 1), offset)
                                =~= kept.push(next));
                        }
                    }
                }
                k += 1;
            }
            proof {
                assert(model.records.take(model.records.len() as int) =~= model.records);
                assert(batches.take(b + 1).drop_last() =~= batches.take(b as int));
                assert(batches.take(b + 1).last() == model);
            }
            b += 1;
        }
        proof {
            assert(batches.take(batches.len() as int) =~= batches);
        }
        records
    }

    /// The offset of the first batch of an open transaction, or the high
    /// watermark.
    fn last_stable_offset(&self) -> (r: i64)
        ensures
            r == stable_end(self@.batches, self@.next_offset),
    {
        let ghost batches = self@.batches;
        let mut i: usize = 0;
        proof {
            assert(batches.skip(0) =~= batches);
        }
        while i < self.batches.len()
            invariant
                batches == self@.batches,
                i <= self.batches.len(),
                stable_end(batches, self@.next_offset) == stable_end(
                    batches.skip(i as int),
                    self@.next_offset,
                ),
            decreases self.batches.len() - i,
        {
            let batch = &self.batches[i];
            proof {
                assert(batches.skip(i as int)[0] == batches[i as int]);
                assert(batches[i as int] == batch.deep_view());
                assert(batches.skip(i as int).skip(1) =~= batches.skip(i + 1));
            }
            if batch.transaction.is_some() && batch.state == BatchState::Pending {
                return batch.base_offset;
            }
            i += 1;
        }
        self.next_offset
    }

    fn fetch_inner(
        &self,
        offset: i64,
        max_records: usize,
        max_bytes: usize,
        read_committed: bool,
    ) -> (r: Result<FetchWindow, LogError>)
        requires
            self.wf(),
        ensures
            window_view(r) == self@.fetched(offset, max_records, max_bytes, read_committed),
    {
        if offset < self.start_offset() || offset > self.next_offset {
            return Err(LogError::OffsetOutOfRange);
        }
        let records = if max_records > 0 && offset < self.next_offset {
            self.collect(offset, max_records, max_bytes, read_committed)
        } else {
            let none: Vec<Record> = Vec::new();
            proof {
                let batches = self@.batches;
                assert(none.deep_view() =~= seq![]);
                lemma_budget_zero(readable(batches, offset, read_committed), max_bytes as nat);
                if offset == self@.next_offset {
                    assert forall|i: int| 0 <= i < batches.len() implies (#[trigger] batches[i]).wf()
                        && batches[i].end() <= offset by {
                        if i < batches.len() - 1 {
                            lemma_batches_ordered(self@, i, batches.len() - 1);
                            assert(batches[batches.len() - 1].wf());
                        }
                    }
                    lemma_readable_none(batches, offset, read_committed);
                }
            }
            none
        };
        Ok(
            FetchWindow {
                high_watermark: self.next_offset,
                last_stable_offset: self.last_stable_offset(),
                records,
            },
        )
    }

    /// Whether there are offsets left for one more batch, or it is not one that
    /// would be stored.
    pub fn has_room(&self, records: &[RecordData]) -> (r: bool)
        requires
            self.wf(),
        ensures
            r == self@.has_room(records.deep_view()),
    {
        if records.len() == 0 || records.len() > MAX_APPEND_RECORDS {
            return true;
        }
        let left: i64 = i64::MAX - self.next_offset;
        records.len() as u64 <= left as u64
    }
}

/// What the answer to a fetch stands for.
pub open spec fn window_view(r: Result<FetchWindow, LogError>) -> Result<WindowModel, LogError> {
    match r {
        Ok(window) => Ok(window.deep_view()),
        Err(error) => Err(error),
    }
}

impl Default for PartitionLog {
    fn default() -> (r: Self)
        ensures
            r.wf(),
            r@ == LogModel::empty(None),
    {
        PartitionLog::new()
    }
}

} // verus!
