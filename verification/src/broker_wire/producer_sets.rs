//! What the record sets of producers say: batches with attributes and a
//! producer, and legacy message sets.

use vstd::prelude::*;

use crate::broker_core::log::{DataModel, RecordModel};
use crate::broker_wire::batch_layout;
use crate::broker_wire::codec;
use crate::broker_wire::places;
use crate::broker_wire::protocol::{Error, MAX_ARRAY_LEN, MAX_FRAME_LEN, MAX_RECORDS};
use crate::broker_wire::record_batch::{
    self, RecordSet, CRC32C_POLYNOMIAL, CRC32_IEEE_POLYNOMIAL,
};
use crate::broker_wire::record_batch_laws;
use crate::saturating;

verus! {

// ---------------------------------------------------------------------------
// Batches
// ---------------------------------------------------------------------------

/// The fields that a producer writes in front of the records of a batch.
#[verifier::ext_equal]
pub struct BatchFields {
    pub base_offset: i64,
    pub leader_epoch: i32,
    pub attributes: i16,
    pub last_offset_delta: i32,
    pub first_timestamp: i64,
    pub max_timestamp: i64,
    pub producer_id: i64,
    pub producer_epoch: i16,
    pub base_sequence: i32,
}

/// The part of a batch that its checksum covers.
pub open spec fn batch_content(fields: BatchFields, records: Seq<RecordModel>) -> Seq<u8> {
    codec::i16_bytes(fields.attributes) + codec::i32_bytes(fields.last_offset_delta)
        + codec::i64_bytes(fields.first_timestamp) + codec::i64_bytes(fields.max_timestamp)
        + codec::i64_bytes(fields.producer_id) + codec::i16_bytes(fields.producer_epoch)
        + codec::i32_bytes(fields.base_sequence) + codec::i32_bytes(records.len() as i32)
        + record_batch::record_entries(records, fields.base_offset, fields.first_timestamp)
}

/// A batch from its leader epoch on, with this checksum.
pub open spec fn batch_rest(
    fields: BatchFields,
    records: Seq<RecordModel>,
    checksum: u32,
) -> Seq<u8> {
    codec::i32_bytes(fields.leader_epoch) + seq![2u8] + codec::u32_bytes(checksum) + batch_content(
        fields,
        records,
    )
}

/// A batch as a producer writes it, with this checksum.
pub open spec fn producer_batch(
    fields: BatchFields,
    records: Seq<RecordModel>,
    checksum: u32,
) -> Seq<u8> {
    let rest = batch_rest(fields, records, checksum);
    codec::i64_bytes(fields.base_offset) + codec::i32_bytes(rest.len() as i32) + rest
}

proof fn lemma_batch_fields(fields: BatchFields, records: Seq<RecordModel>, checksum: u32)
    ensures
        ({
            let rest = batch_rest(fields, records, checksum);
            &&& rest.len() >= 49
            &&& codec::i8_of(rest.subrange(4, 5)) == 2
            &&& rest[4] == 2
            &&& rest.skip(9) == batch_content(fields, records)
            &&& codec::i32_of(rest.subrange(5, 9)) as u32 == checksum
            &&& codec::i16_of(rest.subrange(9, 11)) == fields.attributes
            &&& codec::i64_of(rest.subrange(15, 23)) == fields.first_timestamp
            &&& codec::i64_of(rest.subrange(31, 39)) == fields.producer_id
            &&& codec::i16_of(rest.subrange(39, 41)) == fields.producer_epoch
            &&& codec::i32_of(rest.subrange(45, 49)) == records.len() as i32
            &&& rest.subrange(49, rest.len() as int) == record_batch::record_entries(
                records,
                fields.base_offset,
                fields.first_timestamp,
            )
        }),
{
    let rest = batch_rest(fields, records, checksum);
    let content = batch_content(fields, records);
    let n = records.len() as i32;
    record_batch::lemma_widths(
        fields.attributes,
        fields.last_offset_delta,
        fields.first_timestamp,
        checksum,
    );
    record_batch::lemma_widths(
        fields.producer_epoch,
        fields.base_sequence,
        fields.producer_id,
        checksum,
    );
    record_batch::lemma_widths(0, n, fields.max_timestamp, checksum);
    record_batch::lemma_widths(0, fields.leader_epoch, fields.max_timestamp, checksum);
    assert((checksum as i32) as u32 == checksum) by (bit_vector);
    assert(codec::u32_bytes(checksum) == codec::i32_bytes(checksum as i32));
    codec::law_integers_round_trip(
        2,
        fields.attributes,
        checksum as i32,
        fields.first_timestamp,
        0,
    );
    codec::law_integers_round_trip(2, fields.producer_epoch, n, fields.producer_id, 0);
    assert(2u8 as i8 == 2i8) by (bit_vector);
    assert(rest.subrange(4, 5)[0] == 2u8);
    assert(rest.skip(9) =~= content);
    assert(rest.subrange(5, 9) =~= codec::u32_bytes(checksum));
    assert(rest.subrange(9, 11) =~= codec::i16_bytes(fields.attributes));
    assert(rest.subrange(15, 23) =~= codec::i64_bytes(fields.first_timestamp));
    assert(rest.subrange(31, 39) =~= codec::i64_bytes(fields.producer_id));
    assert(rest.subrange(39, 41) =~= codec::i16_bytes(fields.producer_epoch));
    assert(rest.subrange(45, 49) =~= codec::i32_bytes(n));
    assert(rest.subrange(49, rest.len() as int) =~= record_batch::record_entries(
        records,
        fields.base_offset,
        fields.first_timestamp,
    ));
}

/// What becomes of a batch that a producer wrote. One whose checksum is not that
/// of its content is refused, and so is one that is compressed or a control
/// batch. Any other holds its records and, if it is marked as transactional, the
/// id and epoch of its producer.
pub proof fn law_producer_batch_is_decoded(
    fields: BatchFields,
    records: Seq<RecordModel>,
    checksum: u32,
)
    requires
        0 < records.len() <= MAX_RECORDS,
        forall|i: int|
            0 <= i < records.len() ==> i64::MIN <= (#[trigger] records[i]).timestamp_ms
                - fields.first_timestamp <= i64::MAX,
        producer_batch(fields, records, checksum).len() <= MAX_FRAME_LEN,
    ensures
        record_batch::decoded_set(producer_batch(fields, records, checksum)) == (if checksum
            != record_batch::crc32(batch_content(fields, records), CRC32C_POLYNOMIAL) {
            Err(Error::Checksum)
        } else if fields.attributes & 0x07 != 0 || fields.attributes & 0x20 != 0 {
            Err(Error::UnsupportedVersion)
        } else {
            Ok(
                RecordSet {
                    records: record_batch_laws::contents(records),
                    batches: seq![record_batch_laws::contents(records)],
                    producer: if fields.attributes & 0x10 != 0 {
                        Some((fields.producer_id, fields.producer_epoch))
                    } else {
                        None
                    },
                },
            )
        }),
{
    let s = producer_batch(fields, records, checksum);
    let rest = batch_rest(fields, records, checksum);
    let told = record_batch_laws::contents(records);
    lemma_batch_fields(fields, records, checksum);
    record_batch_laws::lemma_entries(rest, 49, records, fields.base_offset, fields.first_timestamp);
    record_batch::lemma_widths(0, rest.len() as i32, fields.base_offset, 0);
    codec::law_integers_round_trip(0, 0, rest.len() as i32, 0, 0);
    assert(s.subrange(8, 12) =~= codec::i32_bytes(rest.len() as i32));
    assert(s.subrange(12, s.len() as int) =~= rest);
    assert(s[16] == rest[4]);
    let producer = record_batch::decoded_v2_batch(rest, None)->Ok_0.producer;
    assert(record_batch::decoded_v2_set(s, s.len(), producer) is Ok);
    assert(told + seq![] =~= told);
    assert(seq![told] + seq![] =~= seq![told]);
}

/// Decoding that knows no transactions refuses a batch that is marked as
/// transactional, and takes any other as it is.
pub proof fn law_plain_decoding_takes_no_transactions(
    fields: BatchFields,
    records: Seq<RecordModel>,
)
    requires
        0 < records.len() <= MAX_RECORDS,
        forall|i: int|
            0 <= i < records.len() ==> i64::MIN <= (#[trigger] records[i]).timestamp_ms
                - fields.first_timestamp <= i64::MAX,
        fields.attributes & 0x07 == 0,
        fields.attributes & 0x20 == 0,
        ({
            let checksum = record_batch::crc32(batch_content(fields, records), CRC32C_POLYNOMIAL);
            producer_batch(fields, records, checksum).len() <= MAX_FRAME_LEN
        }),
    ensures
        ({
            let checksum = record_batch::crc32(batch_content(fields, records), CRC32C_POLYNOMIAL);
            record_batch::decoded_plain_set(producer_batch(fields, records, checksum)) == (
            if fields.attributes & 0x10 != 0 {
                Err(Error::UnsupportedVersion)
            } else {
                Ok(record_batch_laws::contents(records))
            })
        }),
{
    let checksum = record_batch::crc32(batch_content(fields, records), CRC32C_POLYNOMIAL);
    law_producer_batch_is_decoded(fields, records, checksum);
}

/// How a record header is written: its key, and its value if there is one.
pub open spec fn header_bytes() -> spec_fn((Seq<u8>, Option<Seq<u8>>)) -> Seq<u8> {
    |header: (Seq<u8>, Option<Seq<u8>>)|
        record_batch::optional_field(Some(header.0)) + record_batch::optional_field(header.1)
}

/// A record without its length, as a producer writes it: attributes, the distances
/// of its timestamp and offset, its key and value, and its headers.
pub open spec fn producer_record(
    attributes: u8,
    time: i64,
    distance: i32,
    data: DataModel,
    headers: Seq<(Seq<u8>, Option<Seq<u8>>)>,
) -> Seq<u8> {
    seq![attributes] + codec::varint_bytes(time as int) + codec::varint_bytes(distance as int)
        + record_batch::optional_field(data.key) + record_batch::optional_field(data.value)
        + codec::varint_bytes(headers.len() as int) + places::flat(headers, header_bytes())
}

proof fn lemma_varint(s: Seq<u8>, pos: nat, value: int, rest: Seq<u8>)
    requires
        s.len() <= MAX_FRAME_LEN,
        places::stands(s, pos, codec::varint_bytes(value) + rest),
    ensures
        i32::MIN <= value <= i32::MAX ==> codec::parse_varint(s, pos) == codec::parsed(
            value as i32,
            pos + codec::varint_bytes(value).len(),
        ),
        i64::MIN <= value <= i64::MAX ==> codec::parse_varlong(s, pos) == codec::parsed(
            value as i64,
            pos + codec::varint_bytes(value).len(),
        ),
        places::stands(s, pos + codec::varint_bytes(value).len(), rest),
{
    places::lemma_parts(s, pos, codec::varint_bytes(value), rest);
    codec::law_varint_round_trip(s, pos, value);
}

proof fn lemma_optional(s: Seq<u8>, pos: nat, field: Option<Seq<u8>>, rest: Seq<u8>)
    requires
        s.len() <= MAX_FRAME_LEN,
        places::stands(s, pos, record_batch::optional_field(field) + rest),
    ensures
        record_batch::parse_optional_field(s, pos) == codec::parsed(
            field,
            pos + record_batch::optional_field(field).len(),
        ),
        places::stands(s, pos + record_batch::optional_field(field).len(), rest),
{
    match field {
        Some(bytes) => {
            let len = codec::varint_bytes(bytes.len() as int);
            assert(record_batch::optional_field(field) + rest =~= len + (bytes + rest));
            lemma_varint(s, pos, bytes.len() as int, bytes + rest);
            places::lemma_parts(s, pos + len.len(), bytes, rest);
        },
        None => lemma_varint(s, pos, -1, rest),
    }
}

proof fn lemma_header(s: Seq<u8>, pos: nat, header: (Seq<u8>, Option<Seq<u8>>))
    requires
        s.len() <= MAX_FRAME_LEN,
        places::stands(s, pos, header_bytes()(header)),
    ensures
        record_batch::parse_header(s, pos) == codec::parsed((), pos + header_bytes()(header).len()),
{
    let len = codec::varint_bytes(header.0.len() as int);
    let value = record_batch::optional_field(header.1);
    assert(header_bytes()(header) =~= len + (header.0 + (value + seq![])));
    lemma_varint(s, pos, header.0.len() as int, header.0 + (value + seq![]));
    places::lemma_parts(s, pos + len.len(), header.0, value + seq![]);
    lemma_optional(s, pos + len.len() + header.0.len(), header.1, seq![]);
}

proof fn lemma_headers(s: Seq<u8>, pos: nat, headers: Seq<(Seq<u8>, Option<Seq<u8>>)>)
    requires
        s.len() <= MAX_FRAME_LEN,
        headers.len() <= MAX_ARRAY_LEN,
        places::stands(
            s,
            pos,
            codec::varint_bytes(headers.len() as int) + places::flat(headers, header_bytes()),
        ),
    ensures
        record_batch::parse_headers(s, pos) == codec::parsed(
            (),
            pos + codec::varint_bytes(headers.len() as int).len() + places::flat(
                headers,
                header_bytes(),
            ).len(),
        ),
{
    let count = codec::varint_bytes(headers.len() as int);
    let list = places::flat(headers, header_bytes());
    let told = |header: (Seq<u8>, Option<Seq<u8>>)| ();
    lemma_varint(s, pos, headers.len() as int, list);
    assert(list + seq![] =~= list);
    assert forall|i: int, p: nat|
        #![trigger places::stands(s, p, header_bytes()(headers[i]))]
        0 <= i < headers.len() && places::stands(s, p, header_bytes()(headers[i])) implies (
    record_batch::header_item())(s, p) == codec::parsed(
        told(headers[i]),
        p + header_bytes()(headers[i]).len(),
    ) by {
        lemma_header(s, p, headers[i]);
    }
    places::lemma_flat(
        s,
        pos + count.len(),
        headers,
        header_bytes(),
        record_batch::header_item(),
        told,
        seq![],
    );
}

proof fn lemma_record_parts(
    attributes: u8,
    time: i64,
    distance: i32,
    data: DataModel,
    headers: Seq<(Seq<u8>, Option<Seq<u8>>)>,
) -> (ends: (nat, nat, nat, nat))
    requires
        headers.len() <= MAX_ARRAY_LEN,
        producer_record(attributes, time, distance, data, headers).len() <= MAX_FRAME_LEN,
    ensures
        ({
            let s = producer_record(attributes, time, distance, data, headers);
            let (p2, p3, p4, p5) = ends;
            &&& s.len() > 0
            &&& codec::parse_varlong(s, 1) == codec::parsed(time, p2)
            &&& codec::parse_varint(s, p2) == codec::parsed(distance, p3)
            &&& record_batch::parse_optional_field(s, p3) == codec::parsed(data.key, p4)
            &&& record_batch::parse_optional_field(s, p4) == codec::parsed(data.value, p5)
            &&& record_batch::parse_headers(s, p5) == codec::parsed((), s.len())
        }),
{
    let s = producer_record(attributes, time, distance, data, headers);
    let b = codec::varint_bytes(time as int);
    let c = codec::varint_bytes(distance as int);
    let d = record_batch::optional_field(data.key);
    let e = record_batch::optional_field(data.value);
    let rest = codec::varint_bytes(headers.len() as int) + places::flat(headers, header_bytes());
    assert(s =~= seq![attributes] + (b + (c + (d + (e + rest)))));
    assert(s.subrange(0, s.len() as int) =~= s);
    places::lemma_parts(s, 0, seq![attributes], b + (c + (d + (e + rest))));
    let p1 = 1nat;
    lemma_varint(s, p1, time as int, c + (d + (e + rest)));
    let p2 = p1 + b.len();
    lemma_varint(s, p2, distance as int, d + (e + rest));
    let p3 = p2 + c.len();
    lemma_optional(s, p3, data.key, e + rest);
    let p4 = p3 + d.len();
    lemma_optional(s, p4, data.value, rest);
    let p5 = p4 + e.len();
    lemma_headers(s, p5, headers);
    (p2, p3, p4, p5)
}

#[verifier::spinoff_prover]
#[verifier::rlimit(60)]
proof fn lemma_record_from_parts(
    s: Seq<u8>,
    first_timestamp: i64,
    time: i64,
    distance: i32,
    data: DataModel,
    p2: nat,
    p3: nat,
    p4: nat,
    p5: nat,
)
    requires
        0 < s.len() <= MAX_FRAME_LEN,
        batch_layout::is_nearest(data.timestamp_ms, first_timestamp + time),
        codec::parse_varlong(s, 1) == codec::parsed(time, p2),
        codec::parse_varint(s, p2) == codec::parsed(distance, p3),
        record_batch::parse_optional_field(s, p3) == codec::parsed(data.key, p4),
        record_batch::parse_optional_field(s, p4) == codec::parsed(data.value, p5),
        record_batch::parse_headers(s, p5) == codec::parsed((), s.len()),
    ensures
        record_batch::parse_record(s, first_timestamp).result == Ok::<DataModel, Error>(data),
{
    reveal(record_batch::parse_record);
    assert(codec::parse_i8(s, 0).result is Ok && codec::parse_i8(s, 0).end == 1);
    assert(data =~= DataModel {
        timestamp_ms: saturating::clamped(first_timestamp + time),
        key: data.key,
        value: data.value,
    });
}

/// A record tells its key, its value and its timestamp, which is the first one
/// and its own distance from it as far as 64 bits go. Its attributes, its offset
/// and its headers do not matter.
pub proof fn law_producer_record_is_decoded(
    first_timestamp: i64,
    attributes: u8,
    time: i64,
    distance: i32,
    data: DataModel,
    headers: Seq<(Seq<u8>, Option<Seq<u8>>)>,
)
    requires
        headers.len() <= MAX_ARRAY_LEN,
        producer_record(attributes, time, distance, data, headers).len() <= MAX_FRAME_LEN,
        batch_layout::is_nearest(data.timestamp_ms, first_timestamp + time),
    ensures
        record_batch::parse_record(
            producer_record(attributes, time, distance, data, headers),
            first_timestamp,
        ).result == Ok::<DataModel, Error>(data),
{
    let s = producer_record(attributes, time, distance, data, headers);
    let (p2, p3, p4, p5) = lemma_record_parts(attributes, time, distance, data, headers);
    lemma_record_from_parts(s, first_timestamp, time, distance, data, p2, p3, p4, p5);
}

// ---------------------------------------------------------------------------
// Legacy message sets
// ---------------------------------------------------------------------------

/// A message of a legacy set.
#[verifier::ext_equal]
pub struct LegacyMessage {
    pub offset: i64,
    pub magic: u8,
    pub attributes: u8,
    pub data: DataModel,
}

/// A key or value of a legacy message: its length and bytes, or a length of
/// minus one for none.
pub open spec fn legacy_field(field: Option<Seq<u8>>) -> Seq<u8> {
    match field {
        Some(bytes) => codec::i32_bytes(bytes.len() as i32) + bytes,
        None => codec::i32_bytes((-1) as i32),
    }
}

/// The part of a legacy message that its checksum covers: magic, attributes, the
/// timestamp in a message of magic one, key and value.
pub open spec fn legacy_content(message: LegacyMessage) -> Seq<u8> {
    seq![message.magic, message.attributes] + (if message.magic == 1 {
        codec::i64_bytes(message.data.timestamp_ms)
    } else {
        seq![]
    }) + legacy_field(message.data.key) + legacy_field(message.data.value)
}

/// A legacy message with its offset, size and checksum.
pub open spec fn legacy_entry(message: LegacyMessage) -> Seq<u8> {
    let content = legacy_content(message);
    codec::i64_bytes(message.offset) + codec::i32_bytes((4 + content.len()) as i32)
        + codec::u32_bytes(record_batch::crc32(content, CRC32_IEEE_POLYNOMIAL)) + content
}

/// Legacy messages one after the other.
pub open spec fn legacy_set(messages: Seq<LegacyMessage>) -> Seq<u8>
    decreases messages.len(),
{
    if messages.len() == 0 {
        seq![]
    } else {
        legacy_entry(messages[0]) + legacy_set(messages.skip(1))
    }
}

/// Whether a message can be sent: it is of magic zero, without a timestamp, or
/// of magic one, and it is not compressed.
pub open spec fn legacy_fits(message: LegacyMessage) -> bool {
    &&& message.magic <= 1
    &&& message.magic == 0 ==> message.data.timestamp_ms == 0
    &&& message.attributes & 0x07 == 0
}

proof fn lemma_legacy_field(s: Seq<u8>, pos: nat, field: Option<Seq<u8>>, rest: Seq<u8>)
    requires
        s.len() <= MAX_FRAME_LEN,
        places::stands(s, pos, legacy_field(field) + rest),
    ensures
        record_batch::parse_legacy_field(s, pos) == codec::parsed(
            field,
            pos + legacy_field(field).len(),
        ),
        places::stands(s, pos + legacy_field(field).len(), rest),
{
    match field {
        Some(bytes) => {
            assert(legacy_field(field) == places::blob(bytes));
            codec::lemma_be_len(((bytes.len() as i32) as u32) as nat, 4);
            places::lemma_parts(s, pos, legacy_field(field), rest);
            places::lemma_parts(s, pos, codec::i32_bytes(bytes.len() as i32), bytes);
            codec::law_integers_round_trip(0, 0, bytes.len() as i32, 0, 0);
        },
        None => {
            codec::lemma_be_len((((-1) as i32) as u32) as nat, 4);
            places::lemma_parts(s, pos, legacy_field(field), rest);
            codec::law_integers_round_trip(0, 0, (-1) as i32, 0, 0);
        },
    }
}

proof fn lemma_legacy_message(message: LegacyMessage)
    requires
        legacy_fits(message),
        4 + legacy_content(message).len() <= MAX_FRAME_LEN,
    ensures
        ({
            let content = legacy_content(message);
            let bytes = codec::u32_bytes(record_batch::crc32(content, CRC32_IEEE_POLYNOMIAL))
                + content;
            &&& bytes.len() == 4 + content.len()
            &&& bytes.len() >= 14
            &&& bytes[4] == message.magic
            &&& record_batch::decoded_legacy_message(bytes) == Ok::<DataModel, Error>(message.data)
        }),
{
    let content = legacy_content(message);
    let crc = record_batch::crc32(content, CRC32_IEEE_POLYNOMIAL);
    let bytes = codec::u32_bytes(crc) + content;
    let key = legacy_field(message.data.key);
    let value = legacy_field(message.data.value);
    let time = if message.magic == 1 {
        codec::i64_bytes(message.data.timestamp_ms)
    } else {
        seq![]
    };
    codec::lemma_be_len(crc as nat, 4);
    codec::lemma_be_len((message.data.timestamp_ms as u64) as nat, 8);
    codec::lemma_be_len((((-1) as i32) as u32) as nat, 4);
    match message.data.key {
        Some(bytes) => codec::lemma_be_len(((bytes.len() as i32) as u32) as nat, 4),
        None => {},
    }
    match message.data.value {
        Some(bytes) => codec::lemma_be_len(((bytes.len() as i32) as u32) as nat, 4),
        None => {},
    }
    codec::law_integers_round_trip(0, 0, 0, message.data.timestamp_ms, crc);
    assert(bytes.skip(4) =~= content);
    assert(bytes.subrange(0, 4) =~= codec::u32_bytes(crc));
    assert(bytes[5] == message.attributes);
    let start = 6 + time.len();
    assert(bytes.subrange(6, 6 + time.len() as int) =~= time);
    assert(bytes.subrange(start as int, bytes.len() as int) =~= key + value);
    assert(places::stands(bytes, start, key + value));
    lemma_legacy_field(bytes, start, message.data.key, value);
    assert(value + seq![] =~= value);
    lemma_legacy_field(bytes, start + key.len(), message.data.value, seq![]);
    assert(message.data =~= DataModel {
        timestamp_ms: message.data.timestamp_ms,
        key: message.data.key,
        value: message.data.value,
    });
}

/// The contents of legacy messages.
pub open spec fn legacy_contents(messages: Seq<LegacyMessage>) -> Seq<DataModel> {
    messages.map_values(|message: LegacyMessage| message.data)
}

proof fn lemma_legacy_set(s: Seq<u8>, pos: nat, messages: Seq<LegacyMessage>)
    requires
        s.len() <= MAX_FRAME_LEN,
        places::stands(s, pos, legacy_set(messages)),
        pos + legacy_set(messages).len() == s.len(),
        forall|i: int| 0 <= i < messages.len() ==> legacy_fits(#[trigger] messages[i]),
    ensures
        record_batch::decoded_legacy_set(s, pos) == Ok::<Seq<DataModel>, Error>(
            legacy_contents(messages),
        ),
    decreases messages.len(),
{
    if messages.len() == 0 {
        assert(legacy_contents(messages) =~= seq![]);
    } else {
        let message = messages[0];
        let others = messages.skip(1);
        let content = legacy_content(message);
        let size = (4 + content.len()) as i32;
        let crc = record_batch::crc32(content, CRC32_IEEE_POLYNOMIAL);
        let bytes = codec::u32_bytes(crc) + content;
        let more = legacy_set(others);
        codec::lemma_be_len((message.offset as u64) as nat, 8);
        codec::lemma_be_len((size as u32) as nat, 4);
        codec::lemma_be_len(crc as nat, 4);
        assert(legacy_set(messages) =~= codec::i64_bytes(message.offset) + (codec::i32_bytes(size)
            + (bytes + more)));
        places::lemma_i64(s, pos, message.offset, codec::i32_bytes(size) + (bytes + more));
        places::lemma_i32(s, pos + 8, size, bytes + more);
        places::lemma_parts(s, pos + 12, bytes, more);
        assert(legacy_fits(messages[0]));
        lemma_legacy_message(message);
        assert forall|i: int| 0 <= i < others.len() implies legacy_fits(#[trigger] others[i]) by {
            assert(others[i] == messages[i + 1]);
        }
        lemma_legacy_set(s, pos + 12 + bytes.len(), others);
        assert(legacy_contents(messages) =~= seq![message.data] + legacy_contents(others));
    }
}

/// A legacy message set holds the timestamp, key and value of each message in
/// order, all as one batch and without a producer.
pub proof fn law_legacy_set_is_decoded(messages: Seq<LegacyMessage>)
    requires
        messages.len() > 0,
        legacy_set(messages).len() <= MAX_FRAME_LEN,
        forall|i: int| 0 <= i < messages.len() ==> legacy_fits(#[trigger] messages[i]),
    ensures
        record_batch::decoded_set(legacy_set(messages)) == Ok::<RecordSet, Error>(
            RecordSet {
                records: legacy_contents(messages),
                batches: seq![legacy_contents(messages)],
                producer: None,
            },
        ),
{
    let s = legacy_set(messages);
    let message = messages[0];
    let content = legacy_content(message);
    codec::lemma_be_len((message.offset as u64) as nat, 8);
    codec::lemma_be_len((((4 + content.len()) as i32) as u32) as nat, 4);
    codec::lemma_be_len(record_batch::crc32(content, CRC32_IEEE_POLYNOMIAL) as nat, 4);
    assert(legacy_fits(messages[0]));
    lemma_legacy_message(message);
    assert(s[16] == message.magic);
    assert(s.subrange(0, s.len() as int) =~= s);
    lemma_legacy_set(s, 0, messages);
    assert(legacy_contents(messages).len() == messages.len());
}

} // verus!
