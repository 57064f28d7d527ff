//! Kafka record batch v2 encoding and decoding.
//!
//! Produce requests carry one or more record batches in a partition's
//! `records` field; fetch responses carry them back. The broker assigns
//! offsets, so decoding drops the producer-provided offsets and encoding
//! writes the stored offsets relative to the batch's base offset.
//!
//! Compression and control batches are rejected. Transactional batches are
//! accepted together with the producer identity they carry.

use vstd::prelude::*;

use crate::broker_core::log::{DataModel, Record, RecordData, RecordModel};
use crate::broker_wire::codec::{
    self, put_be, put_varint, put_varlong, read_u32, read_u64, read_varint, read_varlong, Decoder, Parsed,
};
use crate::broker_wire::protocol::{Error, MAX_ARRAY_LEN, MAX_FRAME_LEN, MAX_RECORDS};
use crate::bytes::copy_bytes;
use crate::saturating::{self, saturating_difference, saturating_sum};

verus! {

broadcast use crate::bytes::lemma_bytes_deep_view, crate::bytes::lemma_slice_deep_view;

/// Records decoded from a produce request and their optional producer identity.
#[derive(Clone, Debug, Eq, PartialEq)]
pub struct DecodedRecordBatch {
    pub records: Vec<RecordData>,
    /// How many of the records each batch holds, in order. A batch without
    /// records is left out.
    pub batch_lens: Vec<usize>,
    pub producer: Option<(i64, i16)>,
}

/// Records cut into batches of the given lengths, from the front on. No batch is
/// empty, and no record is lost: what is left in the end is one more batch.
pub open spec fn split(records: Seq<DataModel>, lens: Seq<usize>) -> Seq<Seq<DataModel>>
    decreases lens.len(),
{
    if lens.len() == 0 {
        batch_of(records)
    } else {
        let n = piece(records.len(), lens[0]);
        batch_of(records.take(n)) + split(records.skip(n), lens.skip(1))
    }
}

/// How much of `left` records a piece of the given length takes.
pub open spec fn piece(left: nat, len: usize) -> int {
    if len <= left {
        len as int
    } else {
        left as int
    }
}

/// The sum of lengths.
pub open spec fn total(lens: Seq<usize>) -> nat
    decreases lens.len(),
{
    if lens.len() == 0 {
        0
    } else {
        lens[0] as nat + total(lens.skip(1))
    }
}

/// One more piece at the end is cut off last.
pub(crate) proof fn lemma_split_push(records: Seq<DataModel>, lens: Seq<usize>, more: Seq<DataModel>, len: usize)
    requires
        total(lens) == records.len(),
        len == more.len(),
    ensures
        split(records + more, lens.push(len)) == split(records, lens) + batch_of(more),
        total(lens.push(len)) == records.len() + len,
    decreases lens.len(),
{
    let longer = lens.push(len);
    if lens.len() == 0 {
        assert(records + more =~= more);
        assert(more.take(len as int) =~= more);
        assert(longer.skip(1) =~= seq![]);
        assert(split(more.skip(len as int), longer.skip(1)) =~= seq![]);
        assert(total(longer.skip(1)) == 0);
        assert(split(records + more, longer) =~= split(records, lens) + batch_of(more));
    } else {
        let n = lens[0] as int;
        lemma_split_push(records.skip(n), lens.skip(1), more, len);
        assert(longer.skip(1) =~= lens.skip(1).push(len));
        assert((records + more).take(n) =~= records.take(n));
        assert((records + more).skip(n) =~= records.skip(n) + more);
        assert(split(records + more, longer) =~= split(records, lens) + batch_of(more));
    }
}

/// Puts records behind the batches there are, as one more, unless there are
/// none.
fn push_batch(batches: &mut Vec<Vec<RecordData>>, records: Vec<RecordData>)
    ensures
        final(batches).deep_view() == old(batches).deep_view() + batch_of(records.deep_view()),
{
    let ghost before = batches.deep_view();
    proof {
        assert(records.deep_view().len() == records@.len());
    }
    if records.len() > 0 {
        batches.push(records);
    }
    proof {
        assert(batches.deep_view() =~= before + batch_of(records.deep_view()));
    }
}

/// Cuts records into batches of the given lengths.
pub fn split_batches(records: Vec<RecordData>, lens: &Vec<usize>) -> (r: Vec<Vec<RecordData>>)
    ensures
        r.deep_view() == split(records.deep_view(), lens@),
{
    let ghost whole = split(records.deep_view(), lens@);
    let mut batches: Vec<Vec<RecordData>> = Vec::new();
    let mut rest = records;
    let mut i: usize = 0;
    proof {
        assert(lens@.skip(0) =~= lens@);
        assert(batches.deep_view() + whole =~= whole);
    }
    while i < lens.len()
        invariant
            i <= lens.len(),
            whole == batches.deep_view() + split(rest.deep_view(), lens@.skip(i as int)),
        decreases lens.len() - i,
    {
        let ghost left = rest.deep_view();
        let ghost before = batches.deep_view();
        let n: usize = if lens[i] <= rest.len() {
            lens[i]
        } else {
            rest.len()
        };
        let after = rest.split_off(n);
        proof {
            let here = lens@;
            let lens = here.skip(i as int);
            assert(left.len() == rest@.len() + after@.len());
            assert(rest.deep_view() =~= left.take(n as int));
            assert(after.deep_view() =~= left.skip(n as int));
            assert(lens.skip(1) =~= here.skip(i + 1));
            let tail = split(after.deep_view(), lens.skip(1));
            assert(before + (batch_of(rest.deep_view()) + tail) =~= (before + batch_of(
                rest.deep_view(),
            )) + tail);
        }
        push_batch(&mut batches, rest);
        rest = after;
        i += 1;
    }
    push_batch(&mut batches, rest);
    batches
}

/// What a decoded record set holds.
#[verifier::ext_equal]
pub struct RecordSet {
    /// The records, in order.
    pub records: Seq<DataModel>,
    /// The same records, batch by batch.
    pub batches: Seq<Seq<DataModel>>,
    /// The producer identity of its transactional batches.
    pub producer: Option<(i64, i16)>,
}

impl DeepView for DecodedRecordBatch {
    type V = RecordSet;

    open spec fn deep_view(&self) -> RecordSet {
        RecordSet {
            records: self.records.deep_view(),
            batches: split(self.records.deep_view(), self.batch_lens@),
            producer: self.producer,
        }
    }
}

// ---------------------------------------------------------------------------
// Checksums
// ---------------------------------------------------------------------------

/// The reversed Castagnoli polynomial.
pub const CRC32C_POLYNOMIAL: u32 = 0x82f6_3b78;

/// The reversed IEEE polynomial.
pub const CRC32_IEEE_POLYNOMIAL: u32 = 0xedb8_8320;

/// One bit of the polynomial division.
pub open spec fn crc_bit(crc: u32, polynomial: u32) -> u32 {
    if crc & 1 != 0 {
        (crc >> 1u32) ^ polynomial
    } else {
        crc >> 1u32
    }
}

/// `n` bits of the polynomial division.
pub open spec fn crc_bits(crc: u32, polynomial: u32, n: nat) -> u32
    decreases n,
{
    if n == 0 {
        crc
    } else {
        crc_bit(crc_bits(crc, polynomial, (n - 1) as nat), polynomial)
    }
}

/// The division register after `bytes`.
pub open spec fn crc_register(bytes: Seq<u8>, polynomial: u32) -> u32
    decreases bytes.len(),
{
    if bytes.len() == 0 {
        !0u32
    } else {
        crc_bits(crc_register(bytes.drop_last(), polynomial) ^ (bytes.last() as u32), polynomial, 8)
    }
}

/// The reflected CRC-32 of `bytes` for a polynomial.
pub open spec fn crc32(bytes: Seq<u8>, polynomial: u32) -> u32 {
    !crc_register(bytes, polynomial)
}

fn crc32_of(bytes: &[u8], polynomial: u32) -> (r: u32)
    ensures
        r == crc32(bytes@, polynomial),
{
    let mut crc: u32 = !0u32;
    let mut i: usize = 0;
    while i < bytes.len()
        invariant
            i <= bytes.len(),
            crc == crc_register(bytes@.take(i as int), polynomial),
        decreases bytes.len() - i,
    {
        let ghost before = crc;
        crc = crc ^ (bytes[i] as u32);
        let ghost start = crc;
        let mut bit: usize = 0;
        while bit < 8
            invariant
                bit <= 8,
                crc == crc_bits(start, polynomial, bit as nat),
            decreases 8 - bit,
        {
            crc = if crc & 1 != 0 {
                (crc >> 1u32) ^ polynomial
            } else {
                crc >> 1u32
            };
            bit += 1;
        }
        proof {
            assert(bytes@.take(i + 1).drop_last() =~= bytes@.take(i as int));
        }
        i += 1;
    }
    proof {
        assert(bytes@.take(i as int) =~= bytes@);
    }
    !crc
}

/// CRC32C (Castagnoli) of `bytes`, as required by record batch v2.
pub fn crc32c(bytes: &[u8]) -> (r: u32)
    ensures
        r == crc32(bytes@, CRC32C_POLYNOMIAL),
{
    crc32_of(bytes, CRC32C_POLYNOMIAL)
}

/// CRC32 (IEEE) used by legacy v0/v1 message sets.
pub fn crc32_ieee(bytes: &[u8]) -> (r: u32)
    ensures
        r == crc32(bytes@, CRC32_IEEE_POLYNOMIAL),
{
    crc32_of(bytes, CRC32_IEEE_POLYNOMIAL)
}

// ---------------------------------------------------------------------------
// Encoding
// ---------------------------------------------------------------------------

/// Length and bytes; a length of minus one for none.
pub open spec fn optional_field(bytes: Option<Seq<u8>>) -> Seq<u8> {
    match bytes {
        Some(bytes) => codec::varint_bytes(bytes.len() as int) + bytes,
        None => codec::varint_bytes(-1),
    }
}

/// A record without its length.
pub open spec fn record_body(record: RecordModel, base_offset: i64, first_timestamp: i64) -> Seq<u8> {
    seq![0u8] + codec::varint_bytes(saturating::clamped(record.timestamp_ms - first_timestamp) as int)
        + codec::varint_bytes(((record.offset - base_offset) as i32) as int)
        + optional_field(record.key) + optional_field(record.value) + codec::varint_bytes(0)
}

/// A record with its length.
pub open spec fn record_entry(record: RecordModel, base_offset: i64, first_timestamp: i64) -> Seq<u8> {
    let body = record_body(record, base_offset, first_timestamp);
    codec::varint_bytes(body.len() as int) + body
}

/// The records one after the other.
pub open spec fn record_entries(records: Seq<RecordModel>, base_offset: i64, first_timestamp: i64) -> Seq<u8>
    decreases records.len(),
{
    if records.len() == 0 {
        seq![]
    } else {
        record_entries(records.drop_last(), base_offset, first_timestamp) + record_entry(
            records.last(),
            base_offset,
            first_timestamp,
        )
    }
}

/// The latest timestamp of a run of records.
pub open spec fn max_timestamp(records: Seq<RecordModel>) -> i64
    recommends
        records.len() > 0,
    decreases records.len(),
{
    if records.len() <= 1 {
        records[0].timestamp_ms
    } else {
        let earlier = max_timestamp(records.drop_last());
        if records.last().timestamp_ms >= earlier {
            records.last().timestamp_ms
        } else {
            earlier
        }
    }
}

/// The part of a batch that its checksum covers: attributes, last offset
/// delta, first and last timestamp, no producer, the records.
pub open spec fn batch_content(records: Seq<RecordModel>, base_offset: i64) -> Seq<u8> {
    codec::i16_bytes(0) + codec::i32_bytes((records.len() - 1) as i32) + codec::i64_bytes(
        records[0].timestamp_ms,
    ) + codec::i64_bytes(max_timestamp(records)) + codec::i64_bytes((-1) as i64) + codec::i16_bytes(
        (-1) as i16,
    ) + codec::i32_bytes((-1) as i32) + codec::i32_bytes(records.len() as i32) + record_entries(
        records,
        base_offset,
        records[0].timestamp_ms,
    )
}

/// A batch from its leader epoch on.
pub open spec fn batch_body(records: Seq<RecordModel>, base_offset: i64) -> Seq<u8> {
    let content = batch_content(records, base_offset);
    codec::i32_bytes((-1) as i32) + seq![2u8] + codec::u32_bytes(crc32(content, CRC32C_POLYNOMIAL))
        + content
}

/// A record batch v2.
pub open spec fn batch_bytes(base_offset: i64, records: Seq<RecordModel>) -> Seq<u8> {
    let body = batch_body(records, base_offset);
    codec::i64_bytes(base_offset) + codec::i32_bytes(body.len() as i32) + body
}

/// What encoding answers.
pub open spec fn encoded_batch(base_offset: i64, records: Seq<RecordModel>) -> Result<Seq<u8>, Error> {
    if records.len() == 0 || records.len() > MAX_RECORDS {
        Err(Error::Invalid)
    } else if batch_bytes(base_offset, records).len() > MAX_FRAME_LEN {
        Err(Error::TooLarge)
    } else {
        Ok(batch_bytes(base_offset, records))
    }
}

/// The low 32 bits of the distance from the base offset.
fn offset_delta(offset: i64, base_offset: i64) -> (r: i32)
    ensures
        r == (offset - base_offset) as i32,
{
    let distance: i64 = offset.wrapping_sub(base_offset);
    proof {
        assert(distance as i32 == (offset - base_offset) as i32) by (bit_vector)
            requires
                distance == offset - base_offset || distance == offset - base_offset
                    + 0x1_0000_0000_0000_0000 || distance == offset - base_offset
                    - 0x1_0000_0000_0000_0000,
        ;
    }
    distance as i32
}

pub(crate) proof fn lemma_entries_take_len(records: Seq<RecordModel>, n: int, base_offset: i64, first_timestamp: i64)
    requires
        0 <= n <= records.len(),
    ensures
        record_entries(records.take(n), base_offset, first_timestamp).len() <= record_entries(
            records,
            base_offset,
            first_timestamp,
        ).len(),
    decreases records.len(),
{
    if n < records.len() {
        lemma_entries_take_len(records.drop_last(), n, base_offset, first_timestamp);
        assert(records.drop_last().take(n) =~= records.take(n));
    } else {
        assert(records.take(n) =~= records);
    }
}

fn write_optional_bytes(output: &mut Vec<u8>, value: &Option<Vec<u8>>) -> (r: Result<(), Error>)
    ensures
        r is Err <==> (value.deep_view() matches Some(bytes) && bytes.len() > MAX_FRAME_LEN),
        r matches Err(error) ==> error == Error::TooLarge && final(output)@ == old(output)@,
        r is Ok ==> final(output)@ == old(output)@ + optional_field(value.deep_view()),
{
    let ghost before = output@;
    match value {
        Some(value) => {
            if value.len() > MAX_FRAME_LEN {
                return Err(Error::TooLarge);
            }
            put_varint(output, value.len() as i32);
            output.extend_from_slice(value.as_slice());
            proof {
                assert(output@ =~= before + optional_field(Some(value@)));
            }
            Ok(())
        },
        None => {
            put_varint(output, -1);
            Ok(())
        },
    }
}

/// Encodes one record with its length.
fn write_record(output: &mut Vec<u8>, record: &Record, base_offset: i64, first_timestamp: i64) -> (r: Result<(), Error>)
    ensures
        r matches Err(error) ==> error == Error::TooLarge && record_entry(
            record.deep_view(),
            base_offset,
            first_timestamp,
        ).len() > MAX_FRAME_LEN,
        r is Ok ==> final(output)@ == old(output)@ + record_entry(
            record.deep_view(),
            base_offset,
            first_timestamp,
        ),
{
    let ghost model = record.deep_view();
    let ghost before = output@;
    let mut body: Vec<u8> = Vec::new();
    body.push(0);
    put_varlong(&mut body, saturating_difference(record.timestamp_ms, first_timestamp));
    put_varint(&mut body, offset_delta(record.offset, base_offset));
    write_optional_bytes(&mut body, &record.key)?;
    write_optional_bytes(&mut body, &record.value)?;
    put_varint(&mut body, 0);
    proof {
        assert(body@ =~= record_body(model, base_offset, first_timestamp));
    }
    if body.len() > MAX_FRAME_LEN {
        return Err(Error::TooLarge);
    }
    put_varint(output, body.len() as i32);
    output.extend_from_slice(body.as_slice());
    proof {
        assert(output@ =~= before + record_entry(model, base_offset, first_timestamp));
    }
    Ok(())
}

/// The latest timestamp of the records.
fn latest_timestamp(records: &[Record]) -> (r: i64)
    requires
        records@.len() > 0,
    ensures
        r == max_timestamp(records.deep_view()),
{
    let ghost models = records.deep_view();
    let mut latest: i64 = records[0].timestamp_ms;
    let mut i: usize = 1;
    while i < records.len()
        invariant
            models == records.deep_view(),
            1 <= i <= records.len(),
            latest == max_timestamp(models.take(i as int)),
        decreases records.len() - i,
    {
        proof {
            assert(models.take(i + 1).drop_last() =~= models.take(i as int));
            assert(models.take(i + 1).last() == records@[i as int].deep_view());
        }
        if records[i].timestamp_ms >= latest {
            latest = records[i].timestamp_ms;
        }
        i += 1;
    }
    proof {
        assert(models.take(i as int) =~= models);
    }
    latest
}

/// Encodes stored records as one record batch v2 with the given base offset.
///
/// # Errors
///
/// Returns [`Error::Invalid`] for an empty or oversized record slice and
/// [`Error::TooLarge`] when the batch exceeds [`MAX_FRAME_LEN`].
pub fn encode_record_batch(base_offset: i64, records: &[Record]) -> (r: Result<Vec<u8>, Error>)
    ensures
        codec::bytes_result(r) == encoded_batch(base_offset, records.deep_view()),
{
    if records.len() == 0 || records.len() > MAX_RECORDS {
        return Err(Error::Invalid);
    }
    let ghost models = records.deep_view();
    let first_timestamp: i64 = records[0].timestamp_ms;
    let mut encoded_records: Vec<u8> = Vec::new();
    let mut i: usize = 0;
    while i < records.len()
        invariant
            models == records.deep_view(),
            i <= records.len(),
            0 < records.len() <= MAX_RECORDS,
            first_timestamp == models[0].timestamp_ms,
            encoded_records@ == record_entries(models.take(i as int), base_offset, first_timestamp),
            encoded_records@.len() <= MAX_FRAME_LEN,
        decreases records.len() - i,
    {
        let record = &records[i];
        proof {
            assert(record.deep_view() == models[i as int]);
            assert(models.take(i + 1).drop_last() =~= models.take(i as int));
            lemma_entries_take_len(models, i + 1, base_offset, first_timestamp);
        }
        write_record(&mut encoded_records, record, base_offset, first_timestamp)?;
        i += 1;
        if encoded_records.len() > MAX_FRAME_LEN {
            return Err(Error::TooLarge);
        }
    }
    proof {
        assert(models.take(i as int) =~= models);
    }
    let max_timestamp: i64 = latest_timestamp(records);
    let mut content: Vec<u8> = Vec::new();
    put_be(&mut content, 0, 2);
    put_be(&mut content, ((records.len() - 1) as i32 as u32) as u64, 4);
    put_be(&mut content, first_timestamp as u64, 8);
    put_be(&mut content, max_timestamp as u64, 8);
    put_be(&mut content, (-1i64) as u64, 8);
    put_be(&mut content, ((-1i16) as u16) as u64, 2);
    put_be(&mut content, ((-1i32) as u32) as u64, 4);
    put_be(&mut content, (records.len() as i32 as u32) as u64, 4);
    content.extend_from_slice(encoded_records.as_slice());
    proof {
        assert(content@ =~= batch_content(models, base_offset));
    }
    let mut body: Vec<u8> = Vec::new();
    put_be(&mut body, ((-1i32) as u32) as u64, 4);
    body.push(2);
    put_be(&mut body, crc32c(content.as_slice()) as u64, 4);
    body.extend_from_slice(content.as_slice());
    proof {
        assert(body@ =~= batch_body(models, base_offset));
        lemma_batch_lens(base_offset, models);
    }
    let mut batch: Vec<u8> = Vec::new();
    put_be(&mut batch, base_offset as u64, 8);
    put_be(&mut batch, (body.len() as i32 as u32) as u64, 4);
    batch.extend_from_slice(body.as_slice());
    proof {
        assert(batch@ =~= batch_bytes(base_offset, models));
    }
    if batch.len() > MAX_FRAME_LEN {
        return Err(Error::TooLarge);
    }
    Ok(batch)
}

/// How long the parts of a batch are.
pub(crate) proof fn lemma_batch_lens(base_offset: i64, records: Seq<RecordModel>)
    ensures
        batch_content(records, base_offset).len() == 40 + record_entries(
            records,
            base_offset,
            records[0].timestamp_ms,
        ).len(),
        batch_body(records, base_offset).len() == 9 + batch_content(records, base_offset).len(),
        batch_bytes(base_offset, records).len() == 12 + batch_body(records, base_offset).len(),
{
    let content = batch_content(records, base_offset);
    let body = batch_body(records, base_offset);
    lemma_widths(0, (records.len() - 1) as i32, records[0].timestamp_ms, 0);
    lemma_widths(0, records.len() as i32, max_timestamp(records), 0);
    lemma_widths((-1) as i16, (-1) as i32, (-1) as i64, crc32(content, CRC32C_POLYNOMIAL));
    lemma_widths(0, body.len() as i32, base_offset, 0);
}

pub(crate) proof fn lemma_widths(a: i16, b: i32, c: i64, d: u32)
    ensures
        codec::i16_bytes(a).len() == 2,
        codec::i32_bytes(b).len() == 4,
        codec::i64_bytes(c).len() == 8,
        codec::u32_bytes(d).len() == 4,
{
    codec::lemma_be_len((a as u16) as nat, 2);
    codec::lemma_be_len((b as u32) as nat, 4);
    codec::lemma_be_len((c as u64) as nat, 8);
    codec::lemma_be_len(d as nat, 4);
}

// ---------------------------------------------------------------------------
// Decoding
// ---------------------------------------------------------------------------

/// Optional bytes whose length was already read.
pub open spec fn parse_optional(s: Seq<u8>, pos: nat, len: i32) -> Parsed<Option<Seq<u8>>> {
    if len == -1 {
        codec::parsed(None, pos)
    } else if len >= 0 {
        codec::parse_take(s, pos, len as nat).and_then(
            |bytes: Seq<u8>, end: nat| codec::parsed(Some(bytes), end),
        )
    } else {
        codec::failed(Error::Invalid, pos)
    }
}

/// Length and optional bytes.
pub open spec fn parse_optional_field(s: Seq<u8>, pos: nat) -> Parsed<Option<Seq<u8>>> {
    codec::parse_varint(s, pos).and_then(|len: i32, end: nat| parse_optional(s, end, len))
}

/// A record header, which is dropped: a key, and a value that may be absent.
pub open spec fn parse_header(s: Seq<u8>, pos: nat) -> Parsed<()> {
    codec::parse_varint(s, pos).and_then(
        |key_len: i32, end: nat|
            if key_len < 0 {
                codec::failed(Error::Invalid, end)
            } else {
                codec::parse_take(s, end, key_len as nat).and_then(
                    |_key: Seq<u8>, end: nat|
                        parse_optional_field(s, end).and_then(
                            |_value: Option<Seq<u8>>, end: nat| codec::parsed((), end),
                        ),
                )
            },
    )
}

/// Reads one record header.
pub open spec fn header_item() -> spec_fn(Seq<u8>, nat) -> Parsed<()> {
    |s: Seq<u8>, pos: nat| parse_header(s, pos)
}

/// The headers that end a record.
pub open spec fn parse_headers(s: Seq<u8>, pos: nat) -> Parsed<()> {
    codec::parse_varint(s, pos).and_then(
        |count: i32, end: nat|
            if count < 0 || count > MAX_ARRAY_LEN {
                codec::failed(Error::Invalid, end)
            } else {
                codec::parse_many(s, end, count as nat, header_item()).and_then(
                    |_headers: Seq<()>, end: nat| codec::parsed((), end),
                )
            },
    )
}

/// A record without its length: attributes, timestamp and offset distance,
/// key, value, headers, and nothing after them.
#[verifier::opaque]
pub open spec fn parse_record(body: Seq<u8>, first_timestamp: i64) -> Parsed<DataModel> {
    codec::parse_i8(body, 0).and_then(
        |_attributes: i8, end: nat|
            codec::parse_varlong(body, end).and_then(
                |delta: i64, end: nat|
                    codec::parse_varint(body, end).and_then(
                        |_offset: i32, end: nat|
                            parse_optional_field(body, end).and_then(
                                |key: Option<Seq<u8>>, end: nat|
                                    parse_optional_field(body, end).and_then(
                                        |value: Option<Seq<u8>>, end: nat|
                                            parse_headers(body, end).and_then(
                                                |_headers: (), end: nat|
                                                    if end != body.len() {
                                                        codec::failed(Error::Invalid, end)
                                                    } else {
                                                        codec::parsed(
                                                            DataModel {
                                                                timestamp_ms: saturating::clamped(
                                                                    first_timestamp + delta,
                                                                ),
                                                                key,
                                                                value,
                                                            },
                                                            end,
                                                        )
                                                    },
                                            ),
                                    ),
                            ),
                    ),
            ),
    )
}

/// A record with its length.
#[verifier::opaque]
pub open spec fn parse_entry(s: Seq<u8>, pos: nat, first_timestamp: i64) -> Parsed<DataModel> {
    codec::parse_varint(s, pos).and_then(
        |len: i32, end: nat|
            if len < 0 {
                codec::failed(Error::Invalid, end)
            } else {
                codec::parse_take(s, end, len as nat).and_then(
                    |body: Seq<u8>, end: nat| Parsed { result: parse_record(body, first_timestamp).result, end },
                )
            },
    )
}

/// Reads one record with its length.
pub open spec fn entry_item(first_timestamp: i64) -> spec_fn(Seq<u8>, nat) -> Parsed<DataModel> {
    |s: Seq<u8>, pos: nat| parse_entry(s, pos, first_timestamp)
}

/// The producer identity after a batch, where transactional batches of one
/// set must agree.
pub open spec fn next_identity(identity: Option<(i64, i16)>, attributes: i16, batch: (i64, i16)) -> Result<
    Option<(i64, i16)>,
    Error,
> {
    if attributes & 0x10 == 0 {
        Ok(identity)
    } else if identity is Some && identity != Some(batch) {
        Err(Error::Invalid)
    } else {
        Ok(Some(batch))
    }
}

/// What a batch of at least 49 bytes, from its leader epoch on, holds after
/// batches with the given producer identity.
pub open spec fn decoded_v2_batch(batch: Seq<u8>, identity: Option<(i64, i16)>) -> Result<RecordSet, Error> {
    let attributes = codec::i16_of(batch.subrange(9, 11));
    let first_timestamp = codec::i64_of(batch.subrange(15, 23));
    let producer = (codec::i64_of(batch.subrange(31, 39)), codec::i16_of(batch.subrange(39, 41)));
    let count = codec::i32_of(batch.subrange(45, 49));
    if codec::i8_of(batch.subrange(4, 5)) != 2 {
        Err(Error::UnsupportedVersion)
    } else if crc32(batch.skip(9), CRC32C_POLYNOMIAL) != codec::i32_of(batch.subrange(5, 9)) as u32 {
        Err(Error::Checksum)
    } else if attributes & 0x07 != 0 || attributes & 0x20 != 0 {
        Err(Error::UnsupportedVersion)
    } else if count < 0 || count > MAX_RECORDS {
        Err(Error::TooLarge)
    } else {
        match next_identity(identity, attributes, producer) {
            Err(error) => Err(error),
            Ok(identity) => {
                let entries = codec::parse_many(batch, 49, count as nat, entry_item(first_timestamp));
                match entries.result {
                    Err(error) => Err(error),
                    Ok(records) => if entries.end != batch.len() {
                        Err(Error::Invalid)
                    } else {
                        Ok(RecordSet { records, batches: batch_of(records), producer: identity })
                    },
                }
            },
        }
    }
}

/// One batch of these records, or none where there are no records.
pub open spec fn batch_of(records: Seq<DataModel>) -> Seq<Seq<DataModel>> {
    if records.len() == 0 {
        seq![]
    } else {
        seq![records]
    }
}

/// Records that were read, and their batches, in front of those after them.
pub open spec fn prepend(
    records: Seq<DataModel>,
    batches: Seq<Seq<DataModel>>,
    rest: Result<RecordSet, Error>,
) -> Result<RecordSet, Error> {
    match rest {
        Ok(rest) => Ok(
            RecordSet {
                records: records + rest.records,
                batches: batches + rest.batches,
                producer: rest.producer,
            },
        ),
        Err(error) => Err(error),
    }
}

/// What the batches from `pos` on hold.
pub open spec fn decoded_v2_set(s: Seq<u8>, pos: nat, identity: Option<(i64, i16)>) -> Result<
    RecordSet,
    Error,
>
    decreases s.len() - pos,
{
    if pos >= s.len() {
        Ok(RecordSet { records: seq![], batches: seq![], producer: identity })
    } else if s.len() - pos < 12 {
        Err(Error::Incomplete)
    } else {
        let batch_len = codec::i32_of(s.subrange((pos + 8) as int, (pos + 12) as int));
        if batch_len < 49 {
            Err(Error::Invalid)
        } else {
            let batch = codec::parse_take(s, pos + 12, batch_len as nat);
            match batch.result {
                Err(error) => Err(error),
                Ok(bytes) => match decoded_v2_batch(bytes, identity) {
                    Err(error) => Err(error),
                    Ok(set) => prepend(
                        set.records,
                        set.batches,
                        decoded_v2_set(s, pos + 12 + batch_len as nat, set.producer),
                    ),
                },
            }
        }
    }
}

/// An optional field of a legacy message: a 32-bit length and the bytes.
pub open spec fn parse_legacy_field(s: Seq<u8>, pos: nat) -> Parsed<Option<Seq<u8>>> {
    if pos + 4 > s.len() {
        codec::failed(Error::Incomplete, pos)
    } else {
        let len = codec::i32_of(s.subrange(pos as int, (pos + 4) as int));
        if len == -1 {
            codec::parsed(None, pos + 4)
        } else if len < 0 {
            codec::failed(Error::Invalid, pos + 4)
        } else if pos + 4 + len > s.len() {
            codec::failed(Error::Incomplete, pos + 4)
        } else {
            codec::parsed(Some(s.subrange((pos + 4) as int, pos + 4 + len)), (pos + 4 + len) as nat)
        }
    }
}

/// What a legacy message of at least 14 bytes holds: checksum, magic,
/// attributes, a timestamp from magic 1 on, key, value, and nothing after
/// them.
pub open spec fn decoded_legacy_message(message: Seq<u8>) -> Result<DataModel, Error> {
    if crc32(message.skip(4), CRC32_IEEE_POLYNOMIAL) != codec::u32_of(message.subrange(0, 4)) {
        Err(Error::Checksum)
    } else if message[4] > 1 {
        Err(Error::UnsupportedVersion)
    } else if message[5] & 0x07 != 0 {
        Err(Error::UnsupportedVersion)
    } else {
        let timestamp_ms = if message[4] == 1 {
            codec::i64_of(message.subrange(6, 14))
        } else {
            0
        };
        let start = if message[4] == 1 {
            14nat
        } else {
            6nat
        };
        parse_legacy_field(message, start).and_then(
            |key: Option<Seq<u8>>, end: nat|
                parse_legacy_field(message, end).and_then(
                    |value: Option<Seq<u8>>, end: nat|
                        if end != message.len() {
                            codec::failed(Error::Invalid, end)
                        } else {
                            codec::parsed(DataModel { timestamp_ms, key, value }, end)
                        },
                ),
        ).result
    }
}

/// One record in front of the records after it.
pub open spec fn prepend_one(record: DataModel, rest: Result<Seq<DataModel>, Error>) -> Result<
    Seq<DataModel>,
    Error,
> {
    match rest {
        Ok(rest) => Ok(seq![record] + rest),
        Err(error) => Err(error),
    }
}

/// The offset, which is dropped, and the size of a legacy message.
pub open spec fn parse_legacy_head(s: Seq<u8>, pos: nat) -> Parsed<i32> {
    codec::parse_i64(s, pos).and_then(|_offset: i64, end: nat| codec::parse_i32(s, end))
}

/// What the legacy messages from `pos` on hold.
pub open spec fn decoded_legacy_set(s: Seq<u8>, pos: nat) -> Result<Seq<DataModel>, Error>
    decreases s.len() - pos,
{
    if pos >= s.len() {
        Ok(seq![])
    } else {
        match parse_legacy_head(s, pos).result {
            Err(error) => Err(error),
            Ok(size) => if size < 14 {
                Err(Error::Invalid)
            } else {
                match codec::parse_take(s, pos + 12, size as nat).result {
                    Err(error) => Err(error),
                    Ok(message) => match decoded_legacy_message(message) {
                        Err(error) => Err(error),
                        Ok(record) => prepend_one(
                            record,
                            decoded_legacy_set(s, pos + 12 + size as nat),
                        ),
                    },
                }
            },
        }
    }
}

/// What a record set holds, told apart by the magic byte that both layouts
/// keep at offset 16. A legacy message set is one batch.
pub open spec fn decoded_set(bytes: Seq<u8>) -> Result<RecordSet, Error> {
    if bytes.len() == 0 {
        Err(Error::Invalid)
    } else if bytes.len() <= 16 {
        Err(Error::UnsupportedVersion)
    } else if bytes[16] == 2 {
        decoded_v2_set(bytes, 0, None)
    } else if bytes[16] <= 1 {
        match decoded_legacy_set(bytes, 0) {
            Ok(records) => Ok(
                RecordSet { records, batches: batch_of(records), producer: None },
            ),
            Err(error) => Err(error),
        }
    } else {
        Err(Error::UnsupportedVersion)
    }
}

/// As [`decoded_set`], where transactional batches are not supported.
pub open spec fn decoded_plain_set(bytes: Seq<u8>) -> Result<Seq<DataModel>, Error> {
    match decoded_set(bytes) {
        Err(error) => Err(error),
        Ok(set) => if set.producer is Some {
            Err(Error::UnsupportedVersion)
        } else {
            Ok(set.records)
        },
    }
}

/// What a decoded record set stands for.
pub open spec fn set_result(r: Result<DecodedRecordBatch, Error>) -> Result<RecordSet, Error> {
    match r {
        Ok(set) => Ok(set.deep_view()),
        Err(error) => Err(error),
    }
}

/// What decoded records stand for.
pub open spec fn records_result(r: Result<Vec<RecordData>, Error>) -> Result<Seq<DataModel>, Error> {
    match r {
        Ok(records) => Ok(records.deep_view()),
        Err(error) => Err(error),
    }
}

/// What an optional owned byte string stands for.
pub open spec fn optional_result(r: Result<Option<Vec<u8>>, Error>) -> Result<Option<Seq<u8>>, Error> {
    match r {
        Ok(bytes) => Ok(bytes.deep_view()),
        Err(error) => Err(error),
    }
}

fn read_optional_bytes(decoder: &mut Decoder<'_>, len: i32) -> (r: Result<Option<Vec<u8>>, Error>)
    requires
        old(decoder).wf(),
    ensures
        final(decoder).moved(*old(decoder), parse_optional(old(decoder).input(), old(decoder).pos(), len).end),
        optional_result(r) == parse_optional(old(decoder).input(), old(decoder).pos(), len).result,
{
    if len == -1 {
        Ok(None)
    } else if len >= 0 {
        let bytes = decoder.take(len as usize)?;
        Ok(Some(copy_bytes(bytes)))
    } else {
        Err(Error::Invalid)
    }
}

fn read_optional_field(decoder: &mut Decoder<'_>) -> (r: Result<Option<Vec<u8>>, Error>)
    requires
        old(decoder).wf(),
    ensures
        final(decoder).moved(*old(decoder), parse_optional_field(old(decoder).input(), old(decoder).pos()).end),
        optional_result(r) == parse_optional_field(old(decoder).input(), old(decoder).pos()).result,
{
    let len: i32 = read_varint(decoder)?;
    read_optional_bytes(decoder, len)
}

fn skip_header(decoder: &mut Decoder<'_>) -> (r: Result<(), Error>)
    requires
        old(decoder).wf(),
    ensures
        final(decoder).moved(*old(decoder), parse_header(old(decoder).input(), old(decoder).pos()).end),
        r == parse_header(old(decoder).input(), old(decoder).pos()).result,
{
    let key_len: i32 = read_varint(decoder)?;
    if key_len < 0 {
        return Err(Error::Invalid);
    }
    let _ = decoder.take(key_len as usize)?;
    let value_len: i32 = read_varint(decoder)?;
    if value_len >= 0 {
        let _ = decoder.take(value_len as usize)?;
    } else if value_len != -1 {
        return Err(Error::Invalid);
    }
    Ok(())
}

fn skip_headers(decoder: &mut Decoder<'_>) -> (r: Result<(), Error>)
    requires
        old(decoder).wf(),
    ensures
        final(decoder).moved(*old(decoder), parse_headers(old(decoder).input(), old(decoder).pos()).end),
        r == parse_headers(old(decoder).input(), old(decoder).pos()).result,
{
    let count: i32 = read_varint(decoder)?;
    if count < 0 || count as usize > MAX_ARRAY_LEN {
        return Err(Error::Invalid);
    }
    let ghost input = decoder.input();
    let ghost start = decoder.pos();
    let mut i: i32 = 0;
    while i < count
        invariant
            decoder.wf(),
            decoder.input() == input,
            input == old(decoder).input(),
            0 <= i <= count <= MAX_ARRAY_LEN,
            codec::parse_varint(old(decoder).input(), old(decoder).pos()) == codec::parsed(count, start),
            codec::parse_many(input, start, i as nat, header_item()).result is Ok,
            codec::parse_many(input, start, i as nat, header_item()).end == decoder.pos(),
        decreases count - i,
    {
        let step = skip_header(decoder);
        proof {
            if step is Err {
                codec::lemma_many_error(input, start, (i + 1) as nat, count as nat, header_item());
            }
        }
        step?;
        i += 1;
    }
    Ok(())
}

/// What a decoded record stands for.
spec fn record_result(r: Result<RecordData, Error>) -> Result<DataModel, Error> {
    match r {
        Ok(record) => Ok(record.deep_view()),
        Err(error) => Err(error),
    }
}

fn read_record(body: &[u8], first_timestamp: i64) -> (r: Result<RecordData, Error>)
    ensures
        record_result(r) == parse_record(body@, first_timestamp).result,
{
    proof {
        reveal(parse_record);
    }
    let mut record = Decoder::new(body);
    let _attributes: i8 = record.i8()?;
    let timestamp_delta: i64 = read_varlong(&mut record)?;
    let _offset_delta: i32 = read_varint(&mut record)?;
    let key = read_optional_field(&mut record)?;
    let value = read_optional_field(&mut record)?;
    skip_headers(&mut record)?;
    if !record.done() {
        return Err(Error::Invalid);
    }
    Ok(
        RecordData {
            timestamp_ms: saturating_sum(first_timestamp, timestamp_delta),
            key,
            value,
        },
    )
}

fn read_entry(decoder: &mut Decoder<'_>, first_timestamp: i64) -> (r: Result<RecordData, Error>)
    requires
        old(decoder).wf(),
    ensures
        final(decoder).moved(
            *old(decoder),
            parse_entry(old(decoder).input(), old(decoder).pos(), first_timestamp).end,
        ),
        record_result(r) == parse_entry(
            old(decoder).input(),
            old(decoder).pos(),
            first_timestamp,
        ).result,
{
    proof {
        reveal(parse_entry);
    }
    let len: i32 = read_varint(decoder)?;
    if len < 0 {
        return Err(Error::Invalid);
    }
    let body = decoder.take(len as usize)?;
    read_record(body, first_timestamp)
}

fn read_entries(decoder: &mut Decoder<'_>, count: usize, first_timestamp: i64) -> (r: Result<Vec<RecordData>, Error>)
    requires
        old(decoder).wf(),
    ensures
        final(decoder).moved(
            *old(decoder),
            codec::parse_many(
                old(decoder).input(),
                old(decoder).pos(),
                count as nat,
                entry_item(first_timestamp),
            ).end,
        ),
        records_result(r) == codec::parse_many(
            old(decoder).input(),
            old(decoder).pos(),
            count as nat,
            entry_item(first_timestamp),
        ).result,
{
    let ghost input = decoder.input();
    let ghost start = decoder.pos();
    let ghost item = entry_item(first_timestamp);
    let mut records: Vec<RecordData> = Vec::new();
    let mut i: usize = 0;
    proof {
        assert(records.deep_view() =~= seq![]);
    }
    while i < count
        invariant
            decoder.wf(),
            decoder.input() == input,
            input == old(decoder).input(),
            start == old(decoder).pos(),
            item == entry_item(first_timestamp),
            i <= count,
            codec::parse_many(input, start, i as nat, item) == codec::parsed(
                records.deep_view(),
                decoder.pos(),
            ),
        decreases count - i,
    {
        let ghost before = records.deep_view();
        proof {
            codec::lemma_many_step(input, start, i as nat, item, before, decoder.pos());
        }
        match read_entry(decoder, first_timestamp) {
            Ok(record) => {
                let ghost model = record.deep_view();
                records.push(record);
                proof {
                    assert(records.deep_view() =~= before.push(model));
                }
            },
            Err(error) => {
                proof {
                    codec::lemma_many_error(input, start, (i + 1) as nat, count as nat, item);
                }
                return Err(error);
            },
        }
        i += 1;
    }
    Ok(records)
}

/// Decodes one batch of at least 49 bytes, from its leader epoch on, after
/// batches with the given producer identity.
fn read_batch(batch: &[u8], identity: Option<(i64, i16)>) -> (r: Result<DecodedRecordBatch, Error>)
    requires
        batch@.len() >= 49,
    ensures
        set_result(r) == decoded_v2_batch(batch@, identity),
{
    let mut decoder = Decoder::new(batch);
    let _partition_leader_epoch: i32 = decoder.i32()?;
    if decoder.i8()? != 2 {
        return Err(Error::UnsupportedVersion);
    }
    let expected_crc: u32 = decoder.i32()? as u32;
    let checked = vstd::slice::slice_subrange(batch, 9, batch.len());
    proof {
        assert(checked@ =~= batch@.skip(9));
    }
    if crc32c(checked) != expected_crc {
        return Err(Error::Checksum);
    }
    let attributes: i16 = decoder.i16()?;
    if attributes & 0x07 != 0 || attributes & 0x20 != 0 {
        return Err(Error::UnsupportedVersion);
    }
    let _last_offset_delta: i32 = decoder.i32()?;
    let first_timestamp: i64 = decoder.i64()?;
    let _max_timestamp: i64 = decoder.i64()?;
    let producer_id: i64 = decoder.i64()?;
    let producer_epoch: i16 = decoder.i16()?;
    let _base_sequence: i32 = decoder.i32()?;
    let count: i32 = decoder.i32()?;
    if count < 0 || count as usize > MAX_RECORDS {
        return Err(Error::TooLarge);
    }
    let mut producer = identity;
    if attributes & 0x10 != 0 {
        match identity {
            Some(previous) => {
                if previous.0 != producer_id || previous.1 != producer_epoch {
                    return Err(Error::Invalid);
                }
            },
            None => {},
        }
        producer = Some((producer_id, producer_epoch));
    }
    let records = read_entries(&mut decoder, count as usize, first_timestamp)?;
    if !decoder.done() {
        return Err(Error::Invalid);
    }
    Ok(one_batch(records, producer))
}

/// The record set of one batch.
fn one_batch(records: Vec<RecordData>, producer: Option<(i64, i16)>) -> (r: DecodedRecordBatch)
    ensures
        r.records == records,
        r.deep_view() == (RecordSet {
            records: records.deep_view(),
            batches: batch_of(records.deep_view()),
            producer,
        }),
        r.producer == producer,
{
    let mut batch_lens: Vec<usize> = Vec::new();
    proof {
        assert(records.deep_view().len() == records@.len());
    }
    if records.len() > 0 {
        proof {
            let none = Seq::<DataModel>::empty();
            lemma_split_push(none, seq![], records.deep_view(), records.len());
            assert(none + records.deep_view() =~= records.deep_view());
            assert(batch_of(none) + batch_of(records.deep_view()) =~= batch_of(records.deep_view()));
        }
        batch_lens.push(records.len());
    }
    DecodedRecordBatch { records, batch_lens, producer }
}

/// Appends records to others.
fn append_records(records: &mut Vec<RecordData>, more: Vec<RecordData>)
    ensures
        final(records).deep_view() == old(records).deep_view() + more.deep_view(),
{
    let ghost before = records.deep_view();
    let ghost added = more.deep_view();
    let mut more = more;
    records.append(&mut more);
    proof {
        assert(records.deep_view() =~= before + added);
    }
}

fn decode_v2_record_set(bytes: &[u8]) -> (r: Result<DecodedRecordBatch, Error>)
    requires
        bytes@.len() > 0,
    ensures
        set_result(r) == decoded_v2_set(bytes@, 0, None),
{
    let ghost whole = decoded_v2_set(bytes@, 0, None);
    let mut decoder = Decoder::new(bytes);
    let mut records: Vec<RecordData> = Vec::new();
    let mut batch_lens: Vec<usize> = Vec::new();
    let mut identity: Option<(i64, i16)> = None;
    proof {
        assert(records.deep_view() =~= seq![]);
        assert(split(records.deep_view(), batch_lens@) =~= seq![]);
        lemma_prepend_none(whole);
    }
    while !decoder.done()
        invariant
            decoder.wf(),
            decoder.input() == bytes@,
            whole == decoded_v2_set(bytes@, 0, None),
            whole == prepend(
                records.deep_view(),
                split(records.deep_view(), batch_lens@),
                decoded_v2_set(bytes@, decoder.pos(), identity),
            ),
            total(batch_lens@) == records.deep_view().len(),
        decreases bytes@.len() - decoder.pos(),
    {
        let ghost before = records.deep_view();
        let ghost batches = split(before, batch_lens@);
        if decoder.remaining() < 12 {
            return Err(Error::Incomplete);
        }
        let _base_offset: i64 = decoder.i64()?;
        let batch_len: i32 = decoder.i32()?;
        if batch_len < 49 {
            return Err(Error::Invalid);
        }
        let batch = decoder.take(batch_len as usize)?;
        let decoded = read_batch(batch, identity)?;
        identity = decoded.producer;
        let ghost rest = decoded_v2_set(bytes@, decoder.pos(), identity);
        let ghost more = decoded.records.deep_view();
        let added: usize = decoded.records.len();
        proof {
            assert(more.len() == added);
            lemma_prepend_twice(before, batches, more, batch_of(more), rest);
            lemma_split_push(before, batch_lens@, more, added);
            assert(added == 0 ==> before + more =~= before);
            assert(added == 0 ==> batches + batch_of(more) =~= batches);
        }
        append_records(&mut records, decoded.records);
        if added > 0 {
            batch_lens.push(added);
        }
    }
    proof {
        let rest = decoded_v2_set(bytes@, decoder.pos(), identity);
        let batches = split(records.deep_view(), batch_lens@);
        assert(records.deep_view() + rest->Ok_0.records =~= records.deep_view());
        assert(batches + rest->Ok_0.batches =~= batches);
    }
    Ok(DecodedRecordBatch { records, batch_lens, producer: identity })
}

pub(crate) proof fn lemma_prepend_none(rest: Result<RecordSet, Error>)
    ensures
        prepend(seq![], seq![], rest) == rest,
{
    if rest is Ok {
        assert(seq![] + rest->Ok_0.records =~= rest->Ok_0.records);
        assert(seq![] + rest->Ok_0.batches =~= rest->Ok_0.batches);
    }
}

pub(crate) proof fn lemma_prepend_twice(
    a: Seq<DataModel>,
    first: Seq<Seq<DataModel>>,
    b: Seq<DataModel>,
    second: Seq<Seq<DataModel>>,
    rest: Result<RecordSet, Error>,
)
    ensures
        prepend(a, first, prepend(b, second, rest)) == prepend(a + b, first + second, rest),
{
    if rest is Ok {
        assert(a + (b + rest->Ok_0.records) =~= (a + b) + rest->Ok_0.records);
        assert(first + (second + rest->Ok_0.batches) =~= (first + second) + rest->Ok_0.batches);
    }
}

fn legacy_optional_bytes(message: &[u8], cursor: &mut usize) -> (r: Result<Option<Vec<u8>>, Error>)
    requires
        *old(cursor) <= message@.len(),
    ensures
        *final(cursor) == parse_legacy_field(message@, *old(cursor) as nat).end,
        *final(cursor) <= message@.len(),
        optional_result(r) == parse_legacy_field(message@, *old(cursor) as nat).result,
{
    if message.len() - *cursor < 4 {
        return Err(Error::Incomplete);
    }
    let length: i32 = read_u32(message, *cursor) as i32;
    *cursor = *cursor + 4;
    if length == -1 {
        return Ok(None);
    }
    if length < 0 {
        return Err(Error::Invalid);
    }
    if length as usize > message.len() - *cursor {
        return Err(Error::Incomplete);
    }
    let end: usize = *cursor + length as usize;
    let value = vstd::slice::slice_subrange(message, *cursor, end);
    *cursor = end;
    Ok(Some(copy_bytes(value)))
}

/// Decodes one legacy message of at least 14 bytes.
fn read_legacy_message(message: &[u8]) -> (r: Result<RecordData, Error>)
    requires
        message@.len() >= 14,
    ensures
        record_result(r) == decoded_legacy_message(message@),
{
    let expected_crc: u32 = read_u32(message, 0);
    let checked = vstd::slice::slice_subrange(message, 4, message.len());
    proof {
        assert(checked@ =~= message@.skip(4));
    }
    if crc32_ieee(checked) != expected_crc {
        return Err(Error::Checksum);
    }
    let magic: u8 = message[4];
    if magic > 1 {
        return Err(Error::UnsupportedVersion);
    }
    let attributes: u8 = message[5];
    if attributes & 0x07 != 0 {
        return Err(Error::UnsupportedVersion);
    }
    let mut cursor: usize = 6;
    let mut timestamp_ms: i64 = 0;
    if magic == 1 {
        timestamp_ms = read_u64(message, 6) as i64;
        cursor = 14;
    }
    let key = legacy_optional_bytes(message, &mut cursor)?;
    let value = legacy_optional_bytes(message, &mut cursor)?;
    if cursor != message.len() {
        return Err(Error::Invalid);
    }
    Ok(RecordData { timestamp_ms, key, value })
}

/// Decodes a legacy message format v0/v1 set.
fn decode_legacy_message_set(bytes: &[u8]) -> (r: Result<Vec<RecordData>, Error>)
    ensures
        records_result(r) == decoded_legacy_set(bytes@, 0),
{
    let ghost whole = decoded_legacy_set(bytes@, 0);
    let mut decoder = Decoder::new(bytes);
    let mut records: Vec<RecordData> = Vec::new();
    proof {
        assert(records.deep_view() =~= seq![]);
        lemma_concat_none(whole);
    }
    while !decoder.done()
        invariant
            decoder.wf(),
            decoder.input() == bytes@,
            whole == decoded_legacy_set(bytes@, 0),
            whole == concat(records.deep_view(), decoded_legacy_set(bytes@, decoder.pos())),
        decreases bytes@.len() - decoder.pos(),
    {
        let ghost before = records.deep_view();
        let _offset: i64 = decoder.i64()?;
        let message_size: i32 = decoder.i32()?;
        if message_size < 14 {
            return Err(Error::Invalid);
        }
        let message = decoder.take(message_size as usize)?;
        let record = read_legacy_message(message)?;
        let ghost model = record.deep_view();
        records.push(record);
        proof {
            assert(records.deep_view() =~= before.push(model));
            lemma_concat_one(before, model, decoded_legacy_set(bytes@, decoder.pos()));
        }
    }
    proof {
        assert(records.deep_view() + seq![] =~= records.deep_view());
    }
    Ok(records)
}

/// Records in front of the records after them.
spec fn concat(records: Seq<DataModel>, rest: Result<Seq<DataModel>, Error>) -> Result<Seq<DataModel>, Error> {
    match rest {
        Ok(rest) => Ok(records + rest),
        Err(error) => Err(error),
    }
}

proof fn lemma_concat_none(rest: Result<Seq<DataModel>, Error>)
    ensures
        concat(seq![], rest) == rest,
{
    if rest is Ok {
        assert(seq![] + rest->Ok_0 =~= rest->Ok_0);
    }
}

proof fn lemma_concat_one(records: Seq<DataModel>, record: DataModel, rest: Result<Seq<DataModel>, Error>)
    ensures
        concat(records, prepend_one(record, rest)) == concat(records.push(record), rest),
{
    if rest is Ok {
        assert(records + (seq![record] + rest->Ok_0) =~= records.push(record) + rest->Ok_0);
    }
}

/// Decodes records and the producer identity carried by a v2 batch.
///
/// Brokers accept message format v0/v1 sets in Produce requests and up-convert
/// them. The magic byte sits at offset 16 in both the v2 record batch and the
/// legacy message set layouts, so the format is detected before decoding.
pub fn decode_record_batches_with_identity(bytes: &[u8]) -> (r: Result<DecodedRecordBatch, Error>)
    ensures
        set_result(r) == decoded_set(bytes@),
{
    if bytes.len() == 0 {
        return Err(Error::Invalid);
    }
    if bytes.len() <= 16 {
        return Err(Error::UnsupportedVersion);
    }
    if bytes[16] == 2 {
        return decode_v2_record_set(bytes);
    }
    if bytes[16] <= 1 {
        let records = decode_legacy_message_set(bytes)?;
        return Ok(one_batch(records, None));
    }
    Err(Error::UnsupportedVersion)
}

/// Decodes every record batch or legacy message set in a produce request.
///
/// # Errors
///
/// Returns [`Error::Checksum`] for a CRC mismatch,
/// [`Error::UnsupportedVersion`] for compressed, control, or transactional
/// batches, and [`Error::Invalid`] or [`Error::Incomplete`] for malformed
/// input.
pub fn decode_record_batches(bytes: &[u8]) -> (r: Result<Vec<RecordData>, Error>)
    ensures
        records_result(r) == decoded_plain_set(bytes@),
{
    let decoded = decode_record_batches_with_identity(bytes)?;
    if decoded.producer.is_some() {
        return Err(Error::UnsupportedVersion);
    }
    Ok(decoded.records)
}

} // verus!
