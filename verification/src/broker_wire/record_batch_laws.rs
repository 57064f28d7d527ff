//! What decoding gives back of what was encoded.

use vstd::prelude::*;

use crate::broker_core::log::{DataModel, RecordModel};
use crate::broker_wire::codec;
use crate::broker_wire::protocol::{Error, MAX_FRAME_LEN, MAX_RECORDS};
use crate::broker_wire::record_batch::{
    self, RecordSet, CRC32C_POLYNOMIAL, CRC32_IEEE_POLYNOMIAL,
};
use crate::saturating;

verus! {

/// The records without their offsets.
pub open spec fn contents(records: Seq<RecordModel>) -> Seq<DataModel> {
    records.map_values(|record: RecordModel| record.data())
}

/// Whether every timestamp has a 64-bit distance from the first one.
pub open spec fn timestamps_in_range(records: Seq<RecordModel>) -> bool {
    forall|i: int|
        0 <= i < records.len() ==> i64::MIN <= (#[trigger] records[i]).timestamp_ms
            - records[0].timestamp_ms <= i64::MAX
}

proof fn lemma_optional_field(s: Seq<u8>, pos: nat, field: Option<Seq<u8>>)
    requires
        s.len() <= usize::MAX,
        s.len() <= MAX_FRAME_LEN,
        pos + record_batch::optional_field(field).len() <= s.len(),
        s.subrange(pos as int, (pos + record_batch::optional_field(field).len()) as int)
            == record_batch::optional_field(field),
    ensures
        record_batch::parse_optional_field(s, pos) == codec::parsed(
            field,
            pos + record_batch::optional_field(field).len(),
        ),
{
    let bytes = record_batch::optional_field(field);
    let here = s.subrange(pos as int, (pos + bytes.len()) as int);
    match field {
        None => {
            codec::law_varint_round_trip(s, pos, -1);
        },
        Some(value) => {
            let len = codec::varint_bytes(value.len() as int);
            assert(bytes.len() == len.len() + value.len());
            assert(s.subrange(pos as int, (pos + len.len()) as int) =~= here.take(len.len() as int));
            assert(here.take(len.len() as int) =~= len);
            codec::law_varint_round_trip(s, pos, value.len() as int);
            assert(s.subrange((pos + len.len()) as int, (pos + bytes.len()) as int) =~= here.skip(
                len.len() as int,
            ));
            assert(here.skip(len.len() as int) =~= value);
        },
    }
}

#[verifier::spinoff_prover]
#[verifier::rlimit(40)]
proof fn lemma_record(record: RecordModel, base_offset: i64, first_timestamp: i64)
    requires
        i64::MIN <= record.timestamp_ms - first_timestamp <= i64::MAX,
        record_batch::record_body(record, base_offset, first_timestamp).len() <= MAX_FRAME_LEN,
    ensures
        record_batch::parse_record(
            record_batch::record_body(record, base_offset, first_timestamp),
            first_timestamp,
        ).result == Ok::<DataModel, Error>(record.data()),
{
    reveal(record_batch::parse_record);
    let body = record_batch::record_body(record, base_offset, first_timestamp);
    let delta = saturating::clamped(record.timestamp_ms - first_timestamp);
    let distance = (record.offset - base_offset) as i32;
    let a = seq![0u8];
    let b = codec::varint_bytes(delta as int);
    let c = codec::varint_bytes(distance as int);
    let d = record_batch::optional_field(record.key);
    let e = record_batch::optional_field(record.value);
    let f = codec::varint_bytes(0);
    let p1 = 1nat;
    let p2 = p1 + b.len();
    let p3 = p2 + c.len();
    let p4 = p3 + d.len();
    let p5 = p4 + e.len();
    let p6 = p5 + f.len();
    assert(body.len() == p6);
    assert(body.subrange(p1 as int, p2 as int) =~= b);
    assert(body.subrange(p2 as int, p3 as int) =~= c);
    assert(body.subrange(p3 as int, p4 as int) =~= d);
    assert(body.subrange(p4 as int, p5 as int) =~= e);
    assert(body.subrange(p5 as int, p6 as int) =~= f);
    codec::law_varint_round_trip(body, p1, delta as int);
    codec::law_varint_round_trip(body, p2, distance as int);
    lemma_optional_field(body, p3, record.key);
    lemma_optional_field(body, p4, record.value);
    codec::law_varint_round_trip(body, p5, 0);
    let none = codec::parse_many(body, p6, 0, record_batch::header_item());
    assert(none == codec::parsed(Seq::<()>::empty(), p6));
    assert(record_batch::parse_headers(body, p5) == codec::parsed((), p6));
    assert(codec::parse_i8(body, 0).result is Ok && codec::parse_i8(body, 0).end == p1);
}

proof fn lemma_entry(s: Seq<u8>, pos: nat, record: RecordModel, base_offset: i64, first_timestamp: i64)
    requires
        s.len() <= MAX_FRAME_LEN,
        i64::MIN <= record.timestamp_ms - first_timestamp <= i64::MAX,
        pos + record_batch::record_entry(record, base_offset, first_timestamp).len() <= s.len(),
        s.subrange(
            pos as int,
            (pos + record_batch::record_entry(record, base_offset, first_timestamp).len()) as int,
        ) == record_batch::record_entry(record, base_offset, first_timestamp),
    ensures
        record_batch::parse_entry(s, pos, first_timestamp) == codec::parsed(
            record.data(),
            pos + record_batch::record_entry(record, base_offset, first_timestamp).len(),
        ),
{
    reveal(record_batch::parse_entry);
    let body = record_batch::record_body(record, base_offset, first_timestamp);
    let entry = record_batch::record_entry(record, base_offset, first_timestamp);
    let len = codec::varint_bytes(body.len() as int);
    let here = s.subrange(pos as int, (pos + entry.len()) as int);
    assert(here.take(len.len() as int) =~= len);
    assert(s.subrange(pos as int, (pos + len.len()) as int) =~= here.take(len.len() as int));
    codec::law_varint_round_trip(s, pos, body.len() as int);
    assert(here.skip(len.len() as int) =~= body);
    assert(s.subrange((pos + len.len()) as int, (pos + entry.len()) as int) =~= here.skip(
        len.len() as int,
    ));
    lemma_record(record, base_offset, first_timestamp);
}

pub(crate) proof fn lemma_entries(
    s: Seq<u8>,
    pos: nat,
    records: Seq<RecordModel>,
    base_offset: i64,
    first_timestamp: i64,
)
    requires
        s.len() <= MAX_FRAME_LEN,
        forall|i: int|
            0 <= i < records.len() ==> i64::MIN <= (#[trigger] records[i]).timestamp_ms
                - first_timestamp <= i64::MAX,
        pos + record_batch::record_entries(records, base_offset, first_timestamp).len() <= s.len(),
        s.subrange(
            pos as int,
            (pos + record_batch::record_entries(records, base_offset, first_timestamp).len()) as int,
        ) == record_batch::record_entries(records, base_offset, first_timestamp),
    ensures
        codec::parse_many(s, pos, records.len(), record_batch::entry_item(first_timestamp))
            == codec::parsed(
            contents(records),
            pos + record_batch::record_entries(records, base_offset, first_timestamp).len(),
        ),
    decreases records.len(),
{
    if records.len() == 0 {
        assert(contents(records) =~= seq![]);
    } else {
        let shorter = records.drop_last();
        let front = record_batch::record_entries(shorter, base_offset, first_timestamp);
        let entry = record_batch::record_entry(records.last(), base_offset, first_timestamp);
        let whole = record_batch::record_entries(records, base_offset, first_timestamp);
        let here = s.subrange(pos as int, (pos + whole.len()) as int);
        assert(s.subrange(pos as int, (pos + front.len()) as int) =~= here.take(front.len() as int));
        assert(here.take(front.len() as int) =~= front);
        lemma_entries(s, pos, shorter, base_offset, first_timestamp);
        let next = pos + front.len();
        assert(s.subrange(next as int, (next + entry.len()) as int) =~= here.skip(
            front.len() as int,
        ));
        assert(here.skip(front.len() as int) =~= entry);
        assert(records[records.len() - 1] == records.last());
        lemma_entry(s, next, records.last(), base_offset, first_timestamp);
        codec::lemma_many_step(
            s,
            pos,
            shorter.len(),
            record_batch::entry_item(first_timestamp),
            contents(shorter),
            next,
        );
        assert(contents(shorter).push(records.last().data()) =~= contents(records));
    }
}

proof fn lemma_batch(records: Seq<RecordModel>, base_offset: i64, identity: Option<(i64, i16)>)
    requires
        0 < records.len() <= MAX_RECORDS,
        timestamps_in_range(records),
        record_batch::batch_body(records, base_offset).len() <= MAX_FRAME_LEN,
    ensures
        record_batch::decoded_v2_batch(record_batch::batch_body(records, base_offset), identity) == Ok::<
            RecordSet,
            Error,
        >(
            RecordSet {
                records: contents(records),
                batches: seq![contents(records)],
                producer: identity,
            },
        ),
{
    let body = record_batch::batch_body(records, base_offset);
    let content = record_batch::batch_content(records, base_offset);
    let first = records[0].timestamp_ms;
    let entries = record_batch::record_entries(records, base_offset, first);
    let crc = record_batch::crc32(content, CRC32C_POLYNOMIAL);
    let n = records.len();
    record_batch::lemma_batch_lens(base_offset, records);
    record_batch::lemma_widths(0, (n - 1) as i32, first, crc);
    record_batch::lemma_widths((-1) as i16, (-1) as i32, (-1) as i64, crc);
    record_batch::lemma_widths(0, n as i32, record_batch::max_timestamp(records), crc);
    assert(body.skip(9) =~= content);
    assert(body.subrange(5, 9) =~= codec::u32_bytes(crc));
    assert(codec::u32_bytes(crc) == codec::i32_bytes(crc as i32)) by {
        assert((crc as i32) as u32 == crc) by (bit_vector);
    }
    codec::law_integers_round_trip(2, 0, crc as i32, first, crc);
    codec::law_integers_round_trip(2, 0, n as i32, first, crc);
    assert((crc as i32) as u32 == crc) by (bit_vector);
    assert(body.subrange(4, 5)[0] == 2u8);
    assert(2u8 as i8 == 2i8) by (bit_vector);
    assert(body.subrange(9, 11) =~= codec::i16_bytes(0));
    assert(body.subrange(15, 23) =~= codec::i64_bytes(first));
    assert(body.subrange(45, 49) =~= codec::i32_bytes(n as i32));
    assert(body.subrange(49, body.len() as int) =~= entries);
    assert(0i16 & 0x07 == 0i16 && 0i16 & 0x20 == 0i16 && 0i16 & 0x10 == 0i16) by (bit_vector);
    lemma_entries(body, 49, records, base_offset, first);
}

/// A batch set: batches one after the other.
pub open spec fn batch_set(batches: Seq<(i64, Seq<RecordModel>)>) -> Seq<u8>
    decreases batches.len(),
{
    if batches.len() == 0 {
        seq![]
    } else {
        batch_set(batches.drop_last()) + record_batch::batch_bytes(
            batches.last().0,
            batches.last().1,
        )
    }
}

/// The records of the batches, one batch after the other.
pub open spec fn batch_set_contents(batches: Seq<(i64, Seq<RecordModel>)>) -> Seq<DataModel>
    decreases batches.len(),
{
    if batches.len() == 0 {
        seq![]
    } else {
        batch_set_contents(batches.drop_last()) + contents(batches.last().1)
    }
}

/// The records of each batch.
pub open spec fn batches_contents(batches: Seq<(i64, Seq<RecordModel>)>) -> Seq<Seq<DataModel>> {
    Seq::new(batches.len(), |i: int| contents(batches[i].1))
}

/// Whether a batch can be encoded and its timestamps keep their distance.
pub open spec fn encodable(base_offset: i64, records: Seq<RecordModel>) -> bool {
    &&& record_batch::encoded_batch(base_offset, records) is Ok
    &&& timestamps_in_range(records)
}

#[verifier::spinoff_prover]
#[verifier::rlimit(40)]
proof fn lemma_set_step(
    s: Seq<u8>,
    pos: nat,
    base_offset: i64,
    records: Seq<RecordModel>,
    identity: Option<(i64, i16)>,
)
    requires
        encodable(base_offset, records),
        s.len() <= usize::MAX,
        pos + record_batch::batch_bytes(base_offset, records).len() <= s.len(),
        s.subrange(
            pos as int,
            (pos + record_batch::batch_bytes(base_offset, records).len()) as int,
        ) == record_batch::batch_bytes(base_offset, records),
    ensures
        record_batch::decoded_v2_set(s, pos, identity) == record_batch::prepend(
            contents(records),
            seq![contents(records)],
            record_batch::decoded_v2_set(
                s,
                pos + record_batch::batch_bytes(base_offset, records).len(),
                identity,
            ),
        ),
{
    let batch = record_batch::batch_bytes(base_offset, records);
    let body = record_batch::batch_body(records, base_offset);
    let here = s.subrange(pos as int, (pos + batch.len()) as int);
    record_batch::lemma_batch_lens(base_offset, records);
    record_batch::lemma_widths(0, body.len() as i32, base_offset, 0);
    assert(batch.subrange(8, 12) =~= codec::i32_bytes(body.len() as i32));
    assert(s.subrange((pos + 8) as int, (pos + 12) as int) =~= here.subrange(8, 12));
    codec::law_integers_round_trip(0, 0, body.len() as i32, 0, 0);
    assert(batch.subrange(12, batch.len() as int) =~= body);
    assert(s.subrange((pos + 12) as int, (pos + batch.len()) as int) =~= here.subrange(
        12,
        batch.len() as int,
    ));
    lemma_batch(records, base_offset, identity);
}

#[verifier::spinoff_prover]
#[verifier::rlimit(40)]
proof fn lemma_set(s: Seq<u8>, batches: Seq<(i64, Seq<RecordModel>)>, n: int)
    requires
        s == batch_set(batches),
        s.len() <= usize::MAX,
        0 <= n <= batches.len(),
        forall|i: int| 0 <= i < batches.len() ==> encodable((#[trigger] batches[i]).0, batches[i].1),
    ensures
        batch_set(batches.take(n)).len() <= s.len(),
        s.take(batch_set(batches.take(n)).len() as int) == batch_set(batches.take(n)),
        record_batch::decoded_v2_set(s, 0, None) == record_batch::prepend(
            batch_set_contents(batches.take(n)),
            batches_contents(batches.take(n)),
            record_batch::decoded_v2_set(s, batch_set(batches.take(n)).len(), None),
        ),
    decreases n,
{
    lemma_set_prefix(batches, n);
    if n == 0 {
        assert(batches.take(0) =~= seq![]);
        assert(batches_contents(batches.take(0)) =~= seq![]);
        record_batch::lemma_prepend_none(record_batch::decoded_v2_set(s, 0, None));
        assert(s.take(0) =~= seq![]);
    } else {
        lemma_set(s, batches, n - 1);
        lemma_set_prefix(batches, n - 1);
        let before = batch_set(batches.take(n - 1));
        let (base_offset, records) = batches[n - 1];
        let batch = record_batch::batch_bytes(base_offset, records);
        assert(batches.take(n).drop_last() =~= batches.take(n - 1));
        assert(batches.take(n).last() == batches[n - 1]);
        let upto = batch_set(batches.take(n));
        assert(upto == before + batch);
        assert(s.subrange(before.len() as int, upto.len() as int) =~= s.take(upto.len() as int).skip(
            before.len() as int,
        ));
        assert((before + batch).skip(before.len() as int) =~= batch);
        lemma_set_step(s, before.len(), base_offset, records, None);
        record_batch::lemma_prepend_twice(
            batch_set_contents(batches.take(n - 1)),
            batches_contents(batches.take(n - 1)),
            contents(records),
            seq![contents(records)],
            record_batch::decoded_v2_set(s, upto.len(), None),
        );
        assert(batches_contents(batches.take(n)) =~= batches_contents(batches.take(n - 1)) + seq![
            contents(records),
        ]);
    }
}

proof fn lemma_set_prefix(batches: Seq<(i64, Seq<RecordModel>)>, n: int)
    requires
        0 <= n <= batches.len(),
    ensures
        batch_set(batches.take(n)).len() <= batch_set(batches).len(),
        batch_set(batches).take(batch_set(batches.take(n)).len() as int) == batch_set(
            batches.take(n),
        ),
    decreases batches.len(),
{
    if n == batches.len() {
        assert(batches.take(n) =~= batches);
        assert(batch_set(batches).take(batch_set(batches).len() as int) =~= batch_set(batches));
    } else {
        lemma_set_prefix(batches.drop_last(), n);
        assert(batches.drop_last().take(n) =~= batches.take(n));
        let shorter = batch_set(batches.take(n));
        assert(batch_set(batches).take(shorter.len() as int) =~= batch_set(
            batches.drop_last(),
        ).take(shorter.len() as int));
    }
}

/// Batches that were encoded and put one after the other decode, in order, to
/// the records they were made from, batch by batch: every timestamp, key and
/// value, and no producer identity.
pub proof fn law_batches_decode_in_order(batches: Seq<(i64, Seq<RecordModel>)>)
    requires
        batches.len() > 0,
        batch_set(batches).len() <= usize::MAX,
        forall|i: int| 0 <= i < batches.len() ==> encodable((#[trigger] batches[i]).0, batches[i].1),
    ensures
        record_batch::decoded_set(batch_set(batches)) == Ok::<RecordSet, Error>(
            RecordSet {
                records: batch_set_contents(batches),
                batches: batches_contents(batches),
                producer: None,
            },
        ),
        record_batch::decoded_plain_set(batch_set(batches)) == Ok::<Seq<DataModel>, Error>(
            batch_set_contents(batches),
        ),
{
    let s = batch_set(batches);
    let n = batches.len() as int;
    assert(batches.take(n) =~= batches);
    lemma_set(s, batches, n);
    let end = record_batch::decoded_v2_set(s, s.len(), None);
    assert(batch_set_contents(batches) + end->Ok_0.records =~= batch_set_contents(batches));
    assert(batches_contents(batches) + end->Ok_0.batches =~= batches_contents(batches));
    lemma_magic(batches);
}

/// The records of batches, one batch after the other.
pub open spec fn joined(batches: Seq<Seq<DataModel>>) -> Seq<DataModel>
    decreases batches.len(),
{
    if batches.len() == 0 {
        seq![]
    } else {
        batches[0] + joined(batches.skip(1))
    }
}

/// Whether a record set keeps its records in batches, none of them empty.
pub open spec fn in_batches(set: RecordSet) -> bool {
    &&& joined(set.batches) == set.records
    &&& forall|i: int| 0 <= i < set.batches.len() ==> (#[trigger] set.batches[i]).len() > 0
}

proof fn lemma_one_batch(records: Seq<DataModel>, producer: Option<(i64, i16)>)
    ensures
        in_batches(
            RecordSet { records, batches: record_batch::batch_of(records), producer },
        ),
{
    let batches = record_batch::batch_of(records);
    if records.len() > 0 {
        assert(batches.skip(1) =~= seq![]);
        assert(joined(batches.skip(1)) =~= seq![]);
        assert(joined(batches) =~= records);
    } else {
        assert(joined(batches) =~= records);
    }
}

proof fn lemma_v2_in_batches(s: Seq<u8>, pos: nat, identity: Option<(i64, i16)>)
    ensures
        record_batch::decoded_v2_set(s, pos, identity) matches Ok(set) ==> in_batches(set),
    decreases s.len() - pos,
{
    if pos < s.len() && record_batch::decoded_v2_set(s, pos, identity) is Ok {
        let set = record_batch::decoded_v2_set(s, pos, identity)->Ok_0;
        let batch_len = codec::i32_of(s.subrange((pos + 8) as int, (pos + 12) as int));
        let bytes = codec::parse_take(s, pos + 12, batch_len as nat).result->Ok_0;
        let first = record_batch::decoded_v2_batch(bytes, identity)->Ok_0;
        lemma_v2_in_batches(s, pos + 12 + batch_len as nat, first.producer);
        let rest = record_batch::decoded_v2_set(
            s,
            pos + 12 + batch_len as nat,
            first.producer,
        )->Ok_0;
        assert(set.batches == first.batches + rest.batches);
        if first.records.len() > 0 {
            assert(set.batches.skip(1) =~= rest.batches);
            assert(joined(set.batches) =~= set.records);
            assert forall|i: int| 0 <= i < set.batches.len() implies (#[trigger] set.batches[i]).len()
                > 0 by {
                if i > 0 {
                    assert(set.batches[i] == rest.batches[i - 1]);
                }
            }
        } else {
            assert(set.batches =~= rest.batches);
            assert(set.records =~= rest.records);
        }
    } else if pos >= s.len() {
        assert(joined(seq![]) =~= Seq::<DataModel>::empty());
    }
}

/// Decoding loses no record and no boundary: the batches of a record set, one
/// after the other, are its records, and none of them is empty.
pub proof fn law_batches_hold_the_records(bytes: Seq<u8>)
    requires
        record_batch::decoded_set(bytes) is Ok,
    ensures
        in_batches(record_batch::decoded_set(bytes)->Ok_0),
{
    let set = record_batch::decoded_set(bytes)->Ok_0;
    if bytes[16] == 2 {
        lemma_v2_in_batches(bytes, 0, None);
    } else {
        lemma_one_batch(set.records, None);
    }
}

proof fn lemma_joined_add(a: Seq<Seq<DataModel>>, b: Seq<Seq<DataModel>>)
    ensures
        joined(a + b) == joined(a) + joined(b),
    decreases a.len(),
{
    if a.len() == 0 {
        assert(a + b =~= b);
        assert(joined(a) + joined(b) =~= joined(b));
    } else {
        lemma_joined_add(a.skip(1), b);
        assert((a + b).skip(1) =~= a.skip(1) + b);
        assert(joined(a + b) =~= joined(a) + joined(b));
    }
}

/// Cutting records into batches loses none, whatever the lengths: the batches,
/// one after the other, are the records, and none of them is empty.
pub proof fn law_splitting_loses_nothing(records: Seq<DataModel>, lens: Seq<usize>)
    ensures
        in_batches(
            RecordSet { records, batches: record_batch::split(records, lens), producer: None },
        ),
    decreases lens.len(),
{
    if lens.len() == 0 {
        lemma_one_batch(records, None);
    } else {
        let n = record_batch::piece(records.len(), lens[0]);
        let first = record_batch::batch_of(records.take(n));
        let rest = record_batch::split(records.skip(n), lens.skip(1));
        lemma_one_batch(records.take(n), None);
        law_splitting_loses_nothing(records.skip(n), lens.skip(1));
        lemma_joined_add(first, rest);
        assert(records.take(n) + records.skip(n) =~= records);
        let batches = first + rest;
        assert forall|i: int| 0 <= i < batches.len() implies (#[trigger] batches[i]).len() > 0 by {
            if i < first.len() {
                assert(batches[i] == first[i]);
            } else {
                assert(batches[i] == rest[i - first.len()]);
            }
        }
    }
}

/// The one of two producer identities that is there.
pub open spec fn either(a: Option<(i64, i16)>, b: Option<(i64, i16)>) -> Option<(i64, i16)> {
    match a {
        Some(_) => a,
        None => b,
    }
}

/// Whether two producer identities are not two different ones.
pub open spec fn agree(a: Option<(i64, i16)>, b: Option<(i64, i16)>) -> bool {
    a is Some && b is Some ==> a == b
}

/// Once a set has a producer identity, it keeps it.
proof fn lemma_identity_stays(s: Seq<u8>, pos: nat, identity: Option<(i64, i16)>)
    requires
        record_batch::decoded_v2_set(s, pos, identity) is Ok,
        identity is Some,
    ensures
        record_batch::decoded_v2_set(s, pos, identity)->Ok_0.producer == identity,
    decreases s.len() - pos,
{
    if pos < s.len() {
        let batch_len = codec::i32_of(s.subrange((pos + 8) as int, (pos + 12) as int));
        let bytes = codec::parse_take(s, pos + 12, batch_len as nat).result->Ok_0;
        let set = record_batch::decoded_v2_batch(bytes, identity)->Ok_0;
        lemma_identity_stays(s, pos + 12 + batch_len as nat, set.producer);
    }
}

/// A set decodes in the same way after batches of an identity that agrees with
/// its own.
proof fn lemma_other_identity(
    s: Seq<u8>,
    pos: nat,
    identity: Option<(i64, i16)>,
    other: Option<(i64, i16)>,
)
    requires
        record_batch::decoded_v2_set(s, pos, identity) is Ok,
        agree(other, record_batch::decoded_v2_set(s, pos, identity)->Ok_0.producer),
    ensures
        record_batch::decoded_v2_set(s, pos, either(other, identity)) == ({
            let set = record_batch::decoded_v2_set(s, pos, identity)->Ok_0;
            Ok::<RecordSet, Error>(RecordSet { producer: either(other, set.producer), ..set })
        }),
    decreases s.len() - pos,
{
    if pos < s.len() {
        let batch_len = codec::i32_of(s.subrange((pos + 8) as int, (pos + 12) as int));
        let bytes = codec::parse_take(s, pos + 12, batch_len as nat).result->Ok_0;
        let set = record_batch::decoded_v2_batch(bytes, identity)->Ok_0;
        let next = pos + 12 + batch_len as nat;
        if set.producer is Some {
            lemma_identity_stays(s, next, set.producer);
        }
        lemma_other_identity(s, next, set.producer, other);
        let shifted = record_batch::decoded_v2_batch(bytes, either(other, identity));
        assert(shifted == Ok::<RecordSet, Error>(
            RecordSet { producer: either(other, set.producer), ..set },
        ));
    }
}

/// What comes behind a set that can be decoded is decoded after it.
proof fn lemma_set_goes_on(a: Seq<u8>, b: Seq<u8>, pos: nat, identity: Option<(i64, i16)>)
    requires
        pos <= a.len(),
        record_batch::decoded_v2_set(a, pos, identity) is Ok,
    ensures
        ({
            let set = record_batch::decoded_v2_set(a, pos, identity)->Ok_0;
            record_batch::decoded_v2_set(a + b, pos, identity) == record_batch::prepend(
                set.records,
                set.batches,
                record_batch::decoded_v2_set(a + b, a.len(), set.producer),
            )
        }),
    decreases a.len() - pos,
{
    let s = a + b;
    let set = record_batch::decoded_v2_set(a, pos, identity)->Ok_0;
    let rest = record_batch::decoded_v2_set(s, a.len(), set.producer);
    if pos == a.len() {
        record_batch::lemma_prepend_none(rest);
    } else {
        assert(s.subrange((pos + 8) as int, (pos + 12) as int) =~= a.subrange(
            (pos + 8) as int,
            (pos + 12) as int,
        ));
        let batch_len = codec::i32_of(a.subrange((pos + 8) as int, (pos + 12) as int));
        let next = pos + 12 + batch_len as nat;
        assert(s.subrange((pos + 12) as int, next as int) =~= a.subrange(
            (pos + 12) as int,
            next as int,
        ));
        let bytes = codec::parse_take(a, pos + 12, batch_len as nat).result->Ok_0;
        let first = record_batch::decoded_v2_batch(bytes, identity)->Ok_0;
        lemma_set_goes_on(a, b, next, first.producer);
        let behind = record_batch::decoded_v2_set(a, next, first.producer)->Ok_0;
        record_batch::lemma_prepend_twice(
            first.records,
            first.batches,
            behind.records,
            behind.batches,
            rest,
        );
    }
}

/// A set that can be decoded decodes in the same way behind other bytes.
proof fn lemma_set_moves(a: Seq<u8>, b: Seq<u8>, pos: nat, identity: Option<(i64, i16)>)
    requires
        a.len() + b.len() <= usize::MAX,
        record_batch::decoded_v2_set(b, pos, identity) is Ok,
    ensures
        record_batch::decoded_v2_set(a + b, a.len() + pos, identity)
            == record_batch::decoded_v2_set(b, pos, identity),
    decreases b.len() - pos,
{
    let s = a + b;
    let at = a.len() + pos;
    if pos < b.len() {
        assert(s.subrange((at + 8) as int, (at + 12) as int) =~= b.subrange(
            (pos + 8) as int,
            (pos + 12) as int,
        ));
        let batch_len = codec::i32_of(b.subrange((pos + 8) as int, (pos + 12) as int));
        let next = pos + 12 + batch_len as nat;
        assert(s.subrange((at + 12) as int, (a.len() + next) as int) =~= b.subrange(
            (pos + 12) as int,
            next as int,
        ));
        let bytes = codec::parse_take(b, pos + 12, batch_len as nat).result->Ok_0;
        let first = record_batch::decoded_v2_batch(bytes, identity)->Ok_0;
        lemma_set_moves(a, b, next, first.producer);
    }
}

/// Two sets of batches whose producers agree decode, one behind the other, to
/// the records and batches of the first and then those of the second.
pub proof fn law_sets_decode_one_behind_the_other(a: Seq<u8>, b: Seq<u8>)
    requires
        a.len() > 16,
        b.len() > 16,
        a[16] == 2,
        b[16] == 2,
        a.len() + b.len() <= usize::MAX,
        record_batch::decoded_set(a) is Ok,
        record_batch::decoded_set(b) is Ok,
        agree(
            record_batch::decoded_set(a)->Ok_0.producer,
            record_batch::decoded_set(b)->Ok_0.producer,
        ),
    ensures
        ({
            let first = record_batch::decoded_set(a)->Ok_0;
            let second = record_batch::decoded_set(b)->Ok_0;
            record_batch::decoded_set(a + b) == Ok::<RecordSet, Error>(
                RecordSet {
                    records: first.records + second.records,
                    batches: first.batches + second.batches,
                    producer: either(first.producer, second.producer),
                },
            )
        }),
{
    let first = record_batch::decoded_set(a)->Ok_0;
    assert((a + b)[16] == a[16]);
    lemma_set_goes_on(a, b, 0, None);
    lemma_other_identity(b, 0, None, first.producer);
    lemma_set_moves(a, b, 0, first.producer);
}

proof fn lemma_set_of_one(base_offset: i64, records: Seq<RecordModel>)
    ensures
        batch_set(seq![(base_offset, records)]) == record_batch::batch_bytes(base_offset, records),
        batch_set_contents(seq![(base_offset, records)]) == contents(records),
{
    let one = seq![(base_offset, records)];
    let batch = record_batch::batch_bytes(base_offset, records);
    assert(one.drop_last() =~= seq![]);
    assert(batch_set(one.drop_last()) == Seq::<u8>::empty());
    assert(Seq::<u8>::empty() + batch =~= batch);
    assert(batch_set_contents(one.drop_last()) == Seq::<DataModel>::empty());
    assert(Seq::<DataModel>::empty() + contents(records) =~= contents(records));
}

/// The magic byte of the first batch is where decoding looks for it.
proof fn lemma_magic(batches: Seq<(i64, Seq<RecordModel>)>)
    requires
        batches.len() > 0,
    ensures
        batch_set(batches).len() > 16,
        batch_set(batches)[16] == 2,
{
    let s = batch_set(batches);
    lemma_set_prefix(batches, 1);
    let (base_offset, records) = batches[0];
    let first = record_batch::batch_bytes(base_offset, records);
    assert(batches.take(1) =~= seq![batches[0]]);
    lemma_set_of_one(base_offset, records);
    record_batch::lemma_batch_lens(base_offset, records);
    let body = record_batch::batch_body(records, base_offset);
    record_batch::lemma_widths(0, (-1) as i32, base_offset, 0);
    record_batch::lemma_widths(0, body.len() as i32, base_offset, 0);
    assert(first[16] == body[4]);
    assert(body[4] == 2u8);
    assert(s.take(first.len() as int)[16] == s[16]);
}

/// A batch that was encoded decodes to the records it was made from.
pub proof fn law_batch_round_trip(base_offset: i64, records: Seq<RecordModel>)
    requires
        encodable(base_offset, records),
    ensures
        record_batch::encoded_batch(base_offset, records) matches Ok(bytes)
            && record_batch::decoded_plain_set(bytes) == Ok::<Seq<DataModel>, Error>(
            contents(records),
        ),
{
    let batches = seq![(base_offset, records)];
    lemma_set_of_one(base_offset, records);
    assert(batches[0] == (base_offset, records));
    law_batches_decode_in_order(batches);
}

/// The checksums are the standard ones: their polynomials, of which the register
/// takes the lowest bit first, are those of Castagnoli and of IEEE 802.3 written
/// from the other end.
pub proof fn law_polynomials_are_the_standard_ones(bit: u32)
    requires
        bit < 32,
    ensures
        (CRC32C_POLYNOMIAL >> bit) & 1 == (0x1edc_6f41u32 >> ((31 - bit) as u32)) & 1,
        (CRC32_IEEE_POLYNOMIAL >> bit) & 1 == (0x04c1_1db7u32 >> ((31 - bit) as u32)) & 1,
{
    let castagnoli = CRC32C_POLYNOMIAL;
    let ieee = CRC32_IEEE_POLYNOMIAL;
    let other = (31 - bit) as u32;
    assert((castagnoli >> bit) & 1 == (0x1edc_6f41u32 >> other) & 1 && (ieee >> bit) & 1 == (
    0x04c1_1db7u32 >> other) & 1) by (bit_vector)
        requires
            castagnoli == 0x82f6_3b78u32,
            ieee == 0xedb8_8320u32,
            bit < 32,
            other + bit == 31,
    ;
}

} // verus!
