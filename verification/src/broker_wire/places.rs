//! Reading what stands at a place in a run of bytes.

use vstd::prelude::*;

use crate::broker_wire::codec::{self, Parsed};
use crate::broker_wire::protocol::{Error, MAX_ARRAY_LEN, MAX_FRAME_LEN, MAX_STRING_LEN};

verus! {

/// Whether these bytes stand at a place.
pub open spec fn stands(s: Seq<u8>, pos: nat, bytes: Seq<u8>) -> bool {
    &&& pos + bytes.len() <= s.len()
    &&& s.subrange(pos as int, (pos + bytes.len()) as int) == bytes
}

/// A string as it is sent: its length and its bytes.
pub open spec fn string(value: Seq<u8>) -> Seq<u8> {
    codec::i16_bytes(value.len() as i16) + value
}

/// A string that may be missing: a length of minus one for none.
pub open spec fn nullable(value: Option<Seq<u8>>) -> Seq<u8> {
    match value {
        Some(value) => string(value),
        None => codec::i16_bytes((-1) as i16),
    }
}

/// Bytes as they are sent: their number and the bytes.
pub open spec fn blob(value: Seq<u8>) -> Seq<u8> {
    codec::i32_bytes(value.len() as i32) + value
}

/// Items as they are sent, one after the other.
pub open spec fn flat<T>(items: Seq<T>, item: spec_fn(T) -> Seq<u8>) -> Seq<u8>
    decreases items.len(),
{
    if items.len() == 0 {
        seq![]
    } else {
        flat(items.drop_last(), item) + item(items.last())
    }
}

/// A list as it is sent: the number of items and the items.
pub open spec fn counted<T>(items: Seq<T>, item: spec_fn(T) -> Seq<u8>) -> Seq<u8> {
    codec::i32_bytes(items.len() as i32) + flat(items, item)
}

/// What stands at a place in two parts stands there part by part.
pub(crate) proof fn lemma_parts(s: Seq<u8>, pos: nat, a: Seq<u8>, b: Seq<u8>)
    requires
        stands(s, pos, a + b),
    ensures
        stands(s, pos, a),
        stands(s, pos + a.len(), b),
{
    let here = s.subrange(pos as int, (pos + (a + b).len()) as int);
    assert(s.subrange(pos as int, (pos + a.len()) as int) =~= here.take(a.len() as int));
    assert(here.take(a.len() as int) =~= a);
    assert(s.subrange((pos + a.len()) as int, (pos + a.len() + b.len()) as int) =~= here.skip(
        a.len() as int,
    ));
    assert(here.skip(a.len() as int) =~= b);
}

pub(crate) proof fn lemma_i8(s: Seq<u8>, pos: nat, value: i8, rest: Seq<u8>)
    requires
        s.len() <= usize::MAX,
        stands(s, pos, codec::i8_bytes(value) + rest),
    ensures
        codec::parse_i8(s, pos) == codec::parsed(value, pos + 1),
        stands(s, pos + 1, rest),
{
    lemma_parts(s, pos, codec::i8_bytes(value), rest);
    codec::law_integers_round_trip(value, 0, 0, 0, 0);
}

pub(crate) proof fn lemma_i16(s: Seq<u8>, pos: nat, value: i16, rest: Seq<u8>)
    requires
        s.len() <= usize::MAX,
        stands(s, pos, codec::i16_bytes(value) + rest),
    ensures
        codec::parse_i16(s, pos) == codec::parsed(value, pos + 2),
        stands(s, pos + 2, rest),
{
    lemma_parts(s, pos, codec::i16_bytes(value), rest);
    codec::lemma_be_len((value as u16) as nat, 2);
    codec::law_integers_round_trip(0, value, 0, 0, 0);
}

pub(crate) proof fn lemma_i32(s: Seq<u8>, pos: nat, value: i32, rest: Seq<u8>)
    requires
        s.len() <= usize::MAX,
        stands(s, pos, codec::i32_bytes(value) + rest),
    ensures
        codec::parse_i32(s, pos) == codec::parsed(value, pos + 4),
        stands(s, pos + 4, rest),
{
    lemma_parts(s, pos, codec::i32_bytes(value), rest);
    codec::lemma_be_len((value as u32) as nat, 4);
    codec::law_integers_round_trip(0, 0, value, 0, 0);
}

pub(crate) proof fn lemma_i64(s: Seq<u8>, pos: nat, value: i64, rest: Seq<u8>)
    requires
        s.len() <= usize::MAX,
        stands(s, pos, codec::i64_bytes(value) + rest),
    ensures
        codec::parse_i64(s, pos) == codec::parsed(value, pos + 8),
        stands(s, pos + 8, rest),
{
    lemma_parts(s, pos, codec::i64_bytes(value), rest);
    codec::lemma_be_len((value as u64) as nat, 8);
    codec::law_integers_round_trip(0, 0, 0, value, 0);
}

pub(crate) proof fn lemma_string(s: Seq<u8>, pos: nat, value: Seq<u8>, rest: Seq<u8>)
    requires
        s.len() <= usize::MAX,
        value.len() <= MAX_STRING_LEN,
        stands(s, pos, string(value) + rest),
    ensures
        codec::parse_string(s, pos) == codec::parsed(value, pos + 2 + value.len()),
        codec::parse_nullable_string(s, pos) == codec::parsed(
            Some(value),
            pos + 2 + value.len(),
        ),
        stands(s, pos + 2 + value.len(), rest),
{
    let len = codec::i16_bytes(value.len() as i16);
    assert(string(value) + rest =~= len + (value + rest));
    lemma_i16(s, pos, value.len() as i16, value + rest);
    lemma_parts(s, pos + 2, value, rest);
}

pub(crate) proof fn lemma_nullable(s: Seq<u8>, pos: nat, value: Option<Seq<u8>>, rest: Seq<u8>)
    requires
        s.len() <= usize::MAX,
        value matches Some(value) ==> value.len() <= MAX_STRING_LEN,
        stands(s, pos, nullable(value) + rest),
    ensures
        codec::parse_nullable_string(s, pos) == codec::parsed(value, pos + nullable(value).len()),
        stands(s, pos + nullable(value).len(), rest),
{
    match value {
        Some(value) => {
            lemma_string(s, pos, value, rest);
            codec::lemma_be_len(((value.len() as i16) as u16) as nat, 2);
        },
        None => {
            lemma_i16(s, pos, (-1) as i16, rest);
            codec::lemma_be_len((((-1) as i16) as u16) as nat, 2);
        },
    }
}

pub(crate) proof fn lemma_blob(s: Seq<u8>, pos: nat, value: Seq<u8>, rest: Seq<u8>)
    requires
        s.len() <= usize::MAX,
        s.len() <= MAX_FRAME_LEN || value.len() <= MAX_FRAME_LEN,
        stands(s, pos, blob(value) + rest),
    ensures
        codec::parse_bytes(s, pos) == codec::parsed(Some(value), pos + 4 + value.len()),
        stands(s, pos + 4 + value.len(), rest),
{
    let len = codec::i32_bytes(value.len() as i32);
    assert(blob(value) + rest =~= len + (value + rest));
    lemma_parts(s, pos, len, value + rest);
    codec::lemma_be_len(((value.len() as i32) as u32) as nat, 4);
    lemma_i32(s, pos, value.len() as i32, value + rest);
    lemma_parts(s, pos + 4, value, rest);
}

/// Items that stand one after the other are read one after the other, when
/// each is read back where it stands.
pub(crate) proof fn lemma_flat<T, U>(
    s: Seq<u8>,
    pos: nat,
    items: Seq<T>,
    write: spec_fn(T) -> Seq<u8>,
    read: spec_fn(Seq<u8>, nat) -> Parsed<U>,
    told: spec_fn(T) -> U,
    rest: Seq<u8>,
)
    requires
        stands(s, pos, flat(items, write) + rest),
        forall|i: int, p: nat|
            #![trigger stands(s, p, write(items[i]))]
            0 <= i < items.len() && stands(s, p, write(items[i])) ==> read(s, p) == codec::parsed(
                told(items[i]),
                p + write(items[i]).len(),
            ),
    ensures
        codec::parse_many(s, pos, items.len(), read) == codec::parsed(
            items.map_values(told),
            pos + flat(items, write).len(),
        ),
        stands(s, pos + flat(items, write).len(), rest),
    decreases items.len(),
{
    lemma_parts(s, pos, flat(items, write), rest);
    if items.len() == 0 {
        assert(items.map_values(told) =~= seq![]);
    } else {
        let shorter = items.drop_last();
        let last = items.last();
        assert forall|i: int, p: nat|
            #![trigger stands(s, p, write(shorter[i]))]
            0 <= i < shorter.len() && stands(s, p, write(shorter[i])) implies read(s, p)
            == codec::parsed(told(shorter[i]), p + write(shorter[i]).len()) by {
            assert(shorter[i] == items[i]);
            assert(stands(s, p, write(items[i])));
        }
        lemma_flat(s, pos, shorter, write, read, told, write(last));
        let next = pos + flat(shorter, write).len();
        assert(stands(s, next, write(items[items.len() - 1])));
        assert(shorter.map_values(told).push(told(last)) =~= items.map_values(told));
    }
}

/// A counted list is read back, when each item is read back where it stands.
pub(crate) proof fn lemma_counted<T, U>(
    s: Seq<u8>,
    pos: nat,
    items: Seq<T>,
    write: spec_fn(T) -> Seq<u8>,
    read: spec_fn(Seq<u8>, nat) -> Parsed<U>,
    told: spec_fn(T) -> U,
    rest: Seq<u8>,
)
    requires
        s.len() <= usize::MAX,
        items.len() <= MAX_ARRAY_LEN,
        stands(s, pos, counted(items, write) + rest),
        forall|i: int, p: nat|
            #![trigger stands(s, p, write(items[i]))]
            0 <= i < items.len() && stands(s, p, write(items[i])) ==> read(s, p) == codec::parsed(
                told(items[i]),
                p + write(items[i]).len(),
            ),
    ensures
        codec::parse_array_len(s, pos) == codec::parsed(items.len() as usize, pos + 4),
        codec::parse_nullable_array_len(s, pos) == codec::parsed(
            Some(items.len() as usize),
            pos + 4,
        ),
        codec::parse_many(s, pos + 4, items.len(), read) == codec::parsed(
            items.map_values(told),
            pos + counted(items, write).len(),
        ),
        stands(s, pos + counted(items, write).len(), rest),
{
    let len = codec::i32_bytes(items.len() as i32);
    codec::lemma_be_len(((items.len() as i32) as u32) as nat, 4);
    assert(counted(items, write) + rest =~= len + (flat(items, write) + rest));
    lemma_i32(s, pos, items.len() as i32, flat(items, write) + rest);
    lemma_flat(s, pos + 4, items, write, read, told, rest);
}

/// A length that is read is checked. A string is the bytes behind its length when
/// that is not negative, not beyond the bound and not beyond the input; else it
/// is invalid, too large or incomplete. Bytes are the same with their own bound,
/// and a length of minus one for none.
pub proof fn law_lengths_are_checked(s: Seq<u8>, pos: nat)
    requires
        s.len() <= MAX_FRAME_LEN,
        pos + 4 <= s.len(),
    ensures
        ({
            let n = codec::i16_of(s.subrange(pos as int, (pos + 2) as int));
            codec::parse_string(s, pos).result == (if n < 0 {
                Err(Error::Invalid)
            } else if n > MAX_STRING_LEN {
                Err(Error::TooLarge)
            } else if pos + 2 + n > s.len() {
                Err(Error::Incomplete)
            } else {
                Ok(s.subrange((pos + 2) as int, pos + 2 + n))
            })
        }),
        ({
            let n = codec::i32_of(s.subrange(pos as int, (pos + 4) as int));
            codec::parse_bytes(s, pos).result == (if n == -1 {
                Ok(None)
            } else if n < 0 {
                Err(Error::Invalid)
            } else if n > MAX_FRAME_LEN {
                Err(Error::TooLarge)
            } else if pos + 4 + n > s.len() {
                Err(Error::Incomplete)
            } else {
                Ok(Some(s.subrange((pos + 4) as int, pos + 4 + n)))
            })
        }),
        ({
            let n = codec::i32_of(s.subrange(pos as int, (pos + 4) as int));
            codec::parse_array_len(s, pos).result == (if n < 0 {
                Err(Error::Invalid)
            } else if n > MAX_ARRAY_LEN {
                Err(Error::TooLarge)
            } else {
                Ok(n as usize)
            })
        }),
{
}

} // verus!
