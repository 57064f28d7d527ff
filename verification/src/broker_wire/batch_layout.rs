//! What a consumer reads out of an encoded record batch.

use vstd::prelude::*;

use crate::broker_core::log::RecordModel;
use crate::broker_wire::codec;
use crate::broker_wire::protocol::MAX_FRAME_LEN;
use crate::broker_wire::record_batch::{self, CRC32C_POLYNOMIAL};
use crate::saturating;

verus! {

/// Whether a key or value stands between two places: its length and its bytes,
/// or a length of minus one for none.
pub open spec fn holds_field(s: Seq<u8>, start: nat, field: Option<Seq<u8>>, end: nat) -> bool {
    let len = codec::parse_varint(s, start);
    match field {
        None => len == codec::parsed((-1) as i32, end),
        Some(bytes) => {
            &&& len.result is Ok
            &&& len.result->Ok_0 == bytes.len()
            &&& len.end + bytes.len() == end
            &&& end <= s.len()
            &&& s.subrange(len.end as int, end as int) == bytes
        },
    }
}

/// Whether no 64-bit number is nearer to a value than this one.
pub open spec fn is_nearest(number: i64, value: int) -> bool {
    &&& i64::MIN <= value <= i64::MAX ==> number == value
    &&& value > i64::MAX ==> number == i64::MAX
    &&& value < i64::MIN ==> number == i64::MIN
}

/// Whether a record stands between two places of a batch with this base offset
/// and first timestamp: its length, no attributes, the distance of its timestamp
/// from the first one, as far as that can be written, the distance of its offset from the base offset, its key,
/// its value and no headers.
pub open spec fn holds_record(
    s: Seq<u8>,
    start: nat,
    base_offset: i64,
    first_timestamp: i64,
    record: RecordModel,
    end: nat,
) -> bool {
    let len = codec::parse_varint(s, start);
    let body = s.subrange(len.end as int, end as int);
    let time = codec::parse_varlong(body, 1);
    let delta = codec::parse_varint(body, time.end);
    &&& len.result is Ok
    &&& len.end <= end <= s.len()
    &&& len.result->Ok_0 == end - len.end
    &&& body.len() > 0
    &&& body[0] == 0
    &&& time.result is Ok
    &&& is_nearest(time.result->Ok_0, record.timestamp_ms - first_timestamp)
    &&& delta.result is Ok
    &&& base_offset + delta.result->Ok_0 == record.offset
    &&& exists|value: nat, headers: nat| #[trigger]
        holds_field(body, value, record.value, headers) && holds_field(
            body,
            delta.end,
            record.key,
            value,
        ) && codec::parse_varint(body, headers) == codec::parsed(0i32, body.len())
}

/// Whether every offset has a 32-bit distance from the base offset.
pub open spec fn offsets_in_range(base_offset: i64, records: Seq<RecordModel>) -> bool {
    forall|i: int|
        0 <= i < records.len() ==> i32::MIN <= (#[trigger] records[i]).offset - base_offset
            <= i32::MAX
}

proof fn lemma_field(s: Seq<u8>, start: nat, field: Option<Seq<u8>>)
    requires
        s.len() <= MAX_FRAME_LEN,
        start + record_batch::optional_field(field).len() <= s.len(),
        s.subrange(start as int, (start + record_batch::optional_field(field).len()) as int)
            == record_batch::optional_field(field),
    ensures
        holds_field(s, start, field, start + record_batch::optional_field(field).len()),
{
    let whole = record_batch::optional_field(field);
    match field {
        None => {
            codec::law_varint_round_trip(s, start, -1);
        },
        Some(bytes) => {
            let len = codec::varint_bytes(bytes.len() as int);
            let here = s.subrange(start as int, (start + whole.len()) as int);
            assert(s.subrange(start as int, (start + len.len()) as int) =~= here.take(
                len.len() as int,
            ));
            assert(here.take(len.len() as int) =~= len);
            codec::law_varint_round_trip(s, start, bytes.len() as int);
            assert(s.subrange((start + len.len()) as int, (start + whole.len()) as int)
                =~= here.skip(len.len() as int));
            assert(here.skip(len.len() as int) =~= bytes);
        },
    }
}

#[verifier::spinoff_prover]
#[verifier::rlimit(40)]
proof fn lemma_record_held(
    s: Seq<u8>,
    start: nat,
    record: RecordModel,
    base_offset: i64,
    first_timestamp: i64,
)
    requires
        s.len() <= MAX_FRAME_LEN,
        i32::MIN <= record.offset - base_offset <= i32::MAX,
        ({
            let entry = record_batch::record_entry(record, base_offset, first_timestamp);
            &&& start + entry.len() <= s.len()
            &&& s.subrange(start as int, (start + entry.len()) as int) == entry
        }),
    ensures
        holds_record(
            s,
            start,
            base_offset,
            first_timestamp,
            record,
            start + record_batch::record_entry(record, base_offset, first_timestamp).len(),
        ),
{
    let body = record_batch::record_body(record, base_offset, first_timestamp);
    let entry = record_batch::record_entry(record, base_offset, first_timestamp);
    let len = codec::varint_bytes(body.len() as int);
    let here = s.subrange(start as int, (start + entry.len()) as int);
    assert(here.take(len.len() as int) =~= len);
    assert(s.subrange(start as int, (start + len.len()) as int) =~= here.take(len.len() as int));
    codec::law_varint_round_trip(s, start, body.len() as int);
    assert(here.skip(len.len() as int) =~= body);
    assert(s.subrange((start + len.len()) as int, (start + entry.len()) as int) =~= here.skip(
        len.len() as int,
    ));
    let time = saturating::clamped(record.timestamp_ms - first_timestamp) as int;
    let distance = record.offset - base_offset;
    let b = codec::varint_bytes(time);
    let c = codec::varint_bytes(distance);
    let d = record_batch::optional_field(record.key);
    let e = record_batch::optional_field(record.value);
    let f = codec::varint_bytes(0);
    let p1 = 1nat;
    let p2 = p1 + b.len();
    let p3 = p2 + c.len();
    let p4 = p3 + d.len();
    let p5 = p4 + e.len();
    let p6 = p5 + f.len();
    assert(body.len() == p6);
    assert(body.subrange(p1 as int, p2 as int) =~= b);
    assert(body.subrange(p2 as int, p3 as int) =~= c);
    assert(body.subrange(p3 as int, p4 as int) =~= d);
    assert(body.subrange(p4 as int, p5 as int) =~= e);
    assert(body.subrange(p5 as int, p6 as int) =~= f);
    codec::law_varint_round_trip(body, p1, time);
    codec::law_varint_round_trip(body, p2, distance);
    lemma_field(body, p3, record.key);
    lemma_field(body, p4, record.value);
    codec::law_varint_round_trip(body, p5, 0);
    assert(holds_field(body, p4, record.value, p5));
}

proof fn lemma_entries_start(
    records: Seq<RecordModel>,
    n: int,
    base_offset: i64,
    first_timestamp: i64,
)
    requires
        0 <= n < records.len(),
    ensures
        ({
            let all = record_batch::record_entries(records, base_offset, first_timestamp);
            let front = record_batch::record_entries(records.take(n), base_offset, first_timestamp);
            let entry = record_batch::record_entry(records[n], base_offset, first_timestamp);
            &&& front.len() + entry.len() <= all.len()
            &&& all.subrange(front.len() as int, (front.len() + entry.len()) as int) == entry
            &&& record_batch::record_entries(records.take(n + 1), base_offset, first_timestamp).len()
                == front.len() + entry.len()
        }),
    decreases records.len(),
{
    let all = record_batch::record_entries(records, base_offset, first_timestamp);
    let front = record_batch::record_entries(records.take(n), base_offset, first_timestamp);
    let entry = record_batch::record_entry(records[n], base_offset, first_timestamp);
    let shorter = records.drop_last();
    if n == records.len() - 1 {
        assert(records.take(n) =~= shorter);
        assert(records.take(n + 1) =~= records);
        assert(all.subrange(front.len() as int, (front.len() + entry.len()) as int) =~= entry);
    } else {
        lemma_entries_start(shorter, n, base_offset, first_timestamp);
        assert(shorter.take(n) =~= records.take(n));
        assert(shorter.take(n + 1) =~= records.take(n + 1));
        let most = record_batch::record_entries(shorter, base_offset, first_timestamp);
        assert(all.subrange(front.len() as int, (front.len() + entry.len()) as int)
            =~= most.subrange(front.len() as int, (front.len() + entry.len()) as int));
    }
}

proof fn lemma_max_timestamp(records: Seq<RecordModel>)
    requires
        records.len() > 0,
    ensures
        forall|i: int|
            0 <= i < records.len() ==> (#[trigger] records[i]).timestamp_ms
                <= record_batch::max_timestamp(records),
        exists|i: int|
            0 <= i < records.len() && (#[trigger] records[i]).timestamp_ms
                == record_batch::max_timestamp(records),
    decreases records.len(),
{
    if records.len() > 1 {
        let shorter = records.drop_last();
        lemma_max_timestamp(shorter);
        let i = choose|i: int|
            0 <= i < shorter.len() && (#[trigger] shorter[i]).timestamp_ms
                == record_batch::max_timestamp(shorter);
        assert(records[i] == shorter[i]);
        assert(records[records.len() - 1] == records.last());
        assert forall|k: int| 0 <= k < records.len() implies (#[trigger] records[k]).timestamp_ms
            <= record_batch::max_timestamp(records) by {
            if k < shorter.len() {
                assert(shorter[k] == records[k]);
            }
        }
    } else {
        assert(records[0].timestamp_ms == record_batch::max_timestamp(records));
    }
}

/// The fields in front of the records of an encoded batch, each at its place:
/// the base offset, the length of the rest, no leader epoch, the format, the
/// checksum of all that follows it, no attributes, the distance of the last
/// offset, the first and the latest timestamp, no producer and the number of
/// records.
pub proof fn law_batch_starts_with_its_fields(base_offset: i64, records: Seq<RecordModel>)
    requires
        record_batch::encoded_batch(base_offset, records) is Ok,
    ensures
        ({
            let bytes = record_batch::encoded_batch(base_offset, records)->Ok_0;
            let latest = codec::i64_of(bytes.subrange(35, 43));
            &&& bytes.len() >= 61
            &&& codec::i64_of(bytes.subrange(0, 8)) == base_offset
            &&& codec::i32_of(bytes.subrange(8, 12)) == bytes.len() - 12
            &&& codec::i32_of(bytes.subrange(12, 16)) == -1
            &&& bytes[16] == 2
            &&& codec::u32_of(bytes.subrange(17, 21)) == record_batch::crc32(
                bytes.skip(21),
                CRC32C_POLYNOMIAL,
            )
            &&& codec::i16_of(bytes.subrange(21, 23)) == 0
            &&& codec::i32_of(bytes.subrange(23, 27)) == records.len() - 1
            &&& codec::i64_of(bytes.subrange(27, 35)) == records[0].timestamp_ms
            &&& forall|i: int|
                0 <= i < records.len() ==> (#[trigger] records[i]).timestamp_ms <= latest
            &&& exists|i: int| 0 <= i < records.len() && (#[trigger] records[i]).timestamp_ms == latest
            &&& codec::i64_of(bytes.subrange(43, 51)) == -1
            &&& codec::i16_of(bytes.subrange(51, 53)) == -1
            &&& codec::i32_of(bytes.subrange(53, 57)) == -1
            &&& codec::i32_of(bytes.subrange(57, 61)) == records.len()
        }),
{
    let bytes = record_batch::batch_bytes(base_offset, records);
    let body = record_batch::batch_body(records, base_offset);
    let content = record_batch::batch_content(records, base_offset);
    let n = records.len();
    let first = records[0].timestamp_ms;
    let latest = record_batch::max_timestamp(records);
    let crc = record_batch::crc32(content, CRC32C_POLYNOMIAL);
    lemma_max_timestamp(records);
    record_batch::lemma_batch_lens(base_offset, records);
    record_batch::lemma_widths(0, (n - 1) as i32, first, crc);
    record_batch::lemma_widths((-1) as i16, (-1) as i32, (-1) as i64, crc);
    record_batch::lemma_widths(0, n as i32, latest, crc);
    record_batch::lemma_widths(0, body.len() as i32, base_offset, crc);
    codec::law_integers_round_trip(0, 0, body.len() as i32, base_offset, crc);
    codec::law_integers_round_trip(0, (-1) as i16, (-1) as i32, (-1) as i64, crc);
    codec::law_integers_round_trip(0, 0, (n - 1) as i32, first, crc);
    codec::law_integers_round_trip(0, 0, n as i32, latest, crc);
    assert(bytes.subrange(0, 8) =~= codec::i64_bytes(base_offset));
    assert(bytes.subrange(8, 12) =~= codec::i32_bytes(body.len() as i32));
    assert(bytes.subrange(12, 16) =~= codec::i32_bytes((-1) as i32));
    assert(bytes.subrange(17, 21) =~= codec::u32_bytes(crc));
    assert(bytes.skip(21) =~= content);
    assert(bytes.subrange(21, 23) =~= codec::i16_bytes(0));
    assert(bytes.subrange(23, 27) =~= codec::i32_bytes((n - 1) as i32));
    assert(bytes.subrange(27, 35) =~= codec::i64_bytes(first));
    assert(bytes.subrange(35, 43) =~= codec::i64_bytes(latest));
    assert(bytes.subrange(43, 51) =~= codec::i64_bytes((-1) as i64));
    assert(bytes.subrange(51, 53) =~= codec::i16_bytes((-1) as i16));
    assert(bytes.subrange(53, 57) =~= codec::i32_bytes((-1) as i32));
    assert(bytes.subrange(57, 61) =~= codec::i32_bytes(n as i32));
}

/// An encoded batch holds every record in order, from the end of its fields to
/// its own end: a consumer that adds the offset distance of a record to the base
/// offset gets the offset of that record, and so with the timestamp, unless that
/// is too far from the first one to be written; key and value are those of the record. The answer is where each record starts.
pub proof fn law_batch_holds_every_record(base_offset: i64, records: Seq<RecordModel>) -> (starts:
    Seq<nat>)
    requires
        record_batch::encoded_batch(base_offset, records) is Ok,
        offsets_in_range(base_offset, records),
    ensures
        ({
            let bytes = record_batch::encoded_batch(base_offset, records)->Ok_0;
            &&& starts.len() == records.len() + 1
            &&& starts[0] == 61
            &&& starts[records.len() as int] == bytes.len()
            &&& forall|i: int|
                0 <= i < records.len() ==> holds_record(
                    bytes,
                    starts[i],
                    base_offset,
                    records[0].timestamp_ms,
                    #[trigger] records[i],
                    starts[i + 1],
                )
        }),
{
    let bytes = record_batch::batch_bytes(base_offset, records);
    let first = records[0].timestamp_ms;
    let entries = record_batch::record_entries(records, base_offset, first);
    let n = records.len();
    let crc = record_batch::crc32(
        record_batch::batch_content(records, base_offset),
        CRC32C_POLYNOMIAL,
    );
    record_batch::lemma_batch_lens(base_offset, records);
    record_batch::lemma_widths(0, (n - 1) as i32, first, crc);
    record_batch::lemma_widths((-1) as i16, (-1) as i32, (-1) as i64, crc);
    record_batch::lemma_widths(0, n as i32, record_batch::max_timestamp(records), crc);
    record_batch::lemma_widths(
        0,
        record_batch::batch_body(records, base_offset).len() as i32,
        base_offset,
        crc,
    );
    assert(bytes.skip(61) =~= entries);
    let starts = Seq::new(
        n + 1,
        |i: int| 61 + record_batch::record_entries(records.take(i), base_offset, first).len(),
    );
    assert(records.take(0) =~= seq![]);
    assert(records.take(n as int) =~= records);
    assert forall|i: int| 0 <= i < records.len() implies holds_record(
        bytes,
        starts[i],
        base_offset,
        first,
        #[trigger] records[i],
        starts[i + 1],
    ) by {
        lemma_entries_start(records, i, base_offset, first);
        let entry = record_batch::record_entry(records[i], base_offset, first);
        let at = starts[i];
        assert(bytes.subrange(at as int, (at + entry.len()) as int) =~= entries.subrange(
            at - 61,
            at - 61 + entry.len(),
        ));
        lemma_record_held(bytes, at, records[i], base_offset, first);
    }
    starts
}

} // verus!
