//! Big-endian encoder, decoder, and varint helpers for the wire subset.

use vstd::prelude::*;

use crate::broker_wire::protocol::{Error, MAX_ARRAY_LEN, MAX_FRAME_LEN, MAX_STRING_LEN};

verus! {

// ---------------------------------------------------------------------------
// Fixed-width integers
// ---------------------------------------------------------------------------

/// The big-endian bytes of `value`, `width` of them.
pub open spec fn be(value: nat, width: nat) -> Seq<u8>
    decreases width,
{
    if width == 0 {
        seq![]
    } else {
        be(value / 256, (width - 1) as nat).push((value % 256) as u8)
    }
}

/// The number that big-endian bytes spell.
pub open spec fn be_value(bytes: Seq<u8>) -> nat
    decreases bytes.len(),
{
    if bytes.len() == 0 {
        0
    } else {
        be_value(bytes.drop_last()) * 256 + bytes.last() as nat
    }
}

/// How many values `width` bytes can hold.
pub open spec fn capacity(width: nat) -> nat
    decreases width,
{
    if width == 0 {
        1
    } else {
        256 * capacity((width - 1) as nat)
    }
}

pub open spec fn i8_bytes(value: i8) -> Seq<u8> {
    seq![value as u8]
}

pub open spec fn i16_bytes(value: i16) -> Seq<u8> {
    be((value as u16) as nat, 2)
}

pub open spec fn u32_bytes(value: u32) -> Seq<u8> {
    be(value as nat, 4)
}

pub open spec fn i32_bytes(value: i32) -> Seq<u8> {
    be((value as u32) as nat, 4)
}

pub open spec fn i64_bytes(value: i64) -> Seq<u8> {
    be((value as u64) as nat, 8)
}

pub open spec fn i8_of(bytes: Seq<u8>) -> i8 {
    bytes[0] as i8
}

pub open spec fn i16_of(bytes: Seq<u8>) -> i16 {
    (be_value(bytes) as u16) as i16
}

pub open spec fn u32_of(bytes: Seq<u8>) -> u32 {
    be_value(bytes) as u32
}

pub open spec fn i32_of(bytes: Seq<u8>) -> i32 {
    (be_value(bytes) as u32) as i32
}

pub open spec fn i64_of(bytes: Seq<u8>) -> i64 {
    (be_value(bytes) as u64) as i64
}

pub proof fn lemma_be_len(value: nat, width: nat)
    ensures
        be(value, width).len() == width,
    decreases width,
{
    if width > 0 {
        lemma_be_len(value / 256, (width - 1) as nat);
    }
}

/// Big-endian bytes spell the number they were made from.
pub proof fn law_be_round_trip(value: nat, width: nat)
    requires
        value < capacity(width),
    ensures
        be_value(be(value, width)) == value,
    decreases width,
{
    if width > 0 {
        law_be_round_trip(value / 256, (width - 1) as nat);
        let rest = be(value / 256, (width - 1) as nat);
        assert(be(value, width).drop_last() =~= rest);
    }
}

pub proof fn lemma_capacities()
    ensures
        capacity(2) == 0x1_0000,
        capacity(4) == 0x1_0000_0000,
        capacity(8) == 0x1_0000_0000_0000_0000,
{
    reveal_with_fuel(capacity, 9);
}

/// Every signed integer survives being written and read.
pub proof fn law_integers_round_trip(a: i8, b: i16, c: i32, d: i64, e: u32)
    ensures
        i8_of(i8_bytes(a)) == a,
        i16_of(i16_bytes(b)) == b,
        i32_of(i32_bytes(c)) == c,
        i64_of(i64_bytes(d)) == d,
        u32_of(u32_bytes(e)) == e,
{
    lemma_capacities();
    law_be_round_trip((b as u16) as nat, 2);
    law_be_round_trip((c as u32) as nat, 4);
    law_be_round_trip((d as u64) as nat, 8);
    law_be_round_trip(e as nat, 4);
    assert((a as u8) as i8 == a) by (bit_vector);
    assert((b as u16) as i16 == b) by (bit_vector);
    assert((c as u32) as i32 == c) by (bit_vector);
    assert((d as u64) as i64 == d) by (bit_vector);
}

/// Appends the big-endian bytes of `value`.
pub(crate) fn put_be(output: &mut Vec<u8>, value: u64, width: usize)
    ensures
        final(output)@ == old(output)@ + be(value as nat, width as nat),
    decreases width,
{
    if width == 0 {
        proof {
            assert(output@ =~= output@ + be(value as nat, 0));
        }
        return;
    }
    let ghost before = output@;
    put_be(output, value / 256, width - 1);
    output.push((value % 256) as u8);
    proof {
        assert(output@ =~= before + be(value as nat, width as nat));
    }
}

/// The number that two bytes at `at` spell.
pub(crate) fn read_u16(bytes: &[u8], at: usize) -> (r: u16)
    requires
        at + 2 <= bytes@.len(),
    ensures
        r == be_value(bytes@.subrange(at as int, at + 2)),
{
    proof {
        reveal_with_fuel(be_value, 3);
        let s = bytes@.subrange(at as int, at + 2);
        assert(s.drop_last().drop_last() =~= seq![]);
    }
    bytes[at] as u16 * 256 + bytes[at + 1] as u16
}

/// The number that four bytes at `at` spell.
pub(crate) fn read_u32(bytes: &[u8], at: usize) -> (r: u32)
    requires
        at + 4 <= bytes@.len(),
    ensures
        r == be_value(bytes@.subrange(at as int, at + 4)),
{
    proof {
        reveal_with_fuel(be_value, 5);
        let s = bytes@.subrange(at as int, at + 4);
        assert(s.drop_last().drop_last().drop_last().drop_last() =~= seq![]);
    }
    ((bytes[at] as u32 * 256 + bytes[at + 1] as u32) * 256 + bytes[at + 2] as u32) * 256
        + bytes[at + 3] as u32
}

/// The number that eight bytes at `at` spell.
pub(crate) fn read_u64(bytes: &[u8], at: usize) -> (r: u64)
    requires
        at + 8 <= bytes@.len(),
    ensures
        r == be_value(bytes@.subrange(at as int, at + 8)),
{
    proof {
        assert(at + 8 <= bytes.len());
    }
    let high: u32 = read_u32(bytes, at);
    let low: u32 = read_u32(bytes, at + 4);
    proof {
        reveal_with_fuel(be_value, 9);
        let s = bytes@.subrange(at as int, at + 8);
        let h = bytes@.subrange(at as int, at + 4);
        let l = bytes@.subrange(at + 4, at + 8);
        assert(s.drop_last().drop_last().drop_last().drop_last() =~= h);
        assert(l.drop_last().drop_last().drop_last().drop_last() =~= seq![]);
        assert(be_value(s) == be_value(h) * 0x1_0000_0000 + be_value(l));
    }
    high as u64 * 0x1_0000_0000 + low as u64
}

// ---------------------------------------------------------------------------
// Encoding
// ---------------------------------------------------------------------------

/// One encoding after the other; the first error wins.
pub open spec fn join(a: Result<Seq<u8>, Error>, b: Result<Seq<u8>, Error>) -> Result<Seq<u8>, Error> {
    match a {
        Err(error) => Err(error),
        Ok(x) => match b {
            Err(error) => Err(error),
            Ok(y) => Ok(x + y),
        },
    }
}

pub open spec fn string_bytes(value: Seq<u8>) -> Result<Seq<u8>, Error> {
    if value.len() > MAX_STRING_LEN {
        Err(Error::TooLarge)
    } else {
        Ok(i16_bytes(value.len() as i16) + value)
    }
}

pub open spec fn nullable_string_bytes(value: Option<Seq<u8>>) -> Result<Seq<u8>, Error> {
    match value {
        Some(value) => string_bytes(value),
        None => Ok(i16_bytes((-1) as i16)),
    }
}

pub open spec fn blob_bytes(value: Seq<u8>) -> Result<Seq<u8>, Error> {
    if value.len() > MAX_FRAME_LEN {
        Err(Error::TooLarge)
    } else {
        Ok(i32_bytes(value.len() as i32) + value)
    }
}

pub open spec fn array_len_bytes(len: nat) -> Result<Seq<u8>, Error> {
    if len > MAX_ARRAY_LEN {
        Err(Error::TooLarge)
    } else {
        Ok(i32_bytes(len as i32))
    }
}

pub open spec fn nullable_array_len_bytes(len: Option<nat>) -> Result<Seq<u8>, Error> {
    match len {
        Some(len) => array_len_bytes(len),
        None => Ok(i32_bytes((-1) as i32)),
    }
}

/// The items one after the other; the first error wins.
pub open spec fn list_bytes<T>(items: Seq<T>, item: spec_fn(T) -> Result<Seq<u8>, Error>) -> Result<
    Seq<u8>,
    Error,
>
    decreases items.len(),
{
    if items.len() == 0 {
        Ok(seq![])
    } else {
        join(list_bytes(items.drop_last(), item), item(items.last()))
    }
}

/// A counted list of items.
pub open spec fn array_bytes<T>(items: Seq<T>, item: spec_fn(T) -> Result<Seq<u8>, Error>) -> Result<
    Seq<u8>,
    Error,
> {
    join(array_len_bytes(items.len()), list_bytes(items, item))
}

/// An error in the front of a list is the error of the list.
pub proof fn lemma_list_error<T>(items: Seq<T>, n: int, item: spec_fn(T) -> Result<Seq<u8>, Error>)
    requires
        0 <= n <= items.len(),
        list_bytes(items.take(n), item) is Err,
    ensures
        list_bytes(items, item) == list_bytes(items.take(n), item),
    decreases items.len(),
{
    if n < items.len() {
        assert(items.drop_last().take(n) =~= items.take(n));
        lemma_list_error(items.drop_last(), n, item);
    } else {
        assert(items.take(n) =~= items);
    }
}

/// A response frame: the length of the rest, the correlation id, the body.
pub open spec fn frame_bytes(correlation_id: i32, body: Seq<u8>) -> Seq<u8> {
    let payload = i32_bytes(correlation_id) + body;
    be(payload.len(), 4) + payload
}

/// The frame of a body that may have failed to encode.
pub open spec fn frame_result(correlation_id: i32, body: Result<Seq<u8>, Error>) -> Result<
    Seq<u8>,
    Error,
> {
    match body {
        Ok(body) => Ok(frame_bytes(correlation_id, body)),
        Err(error) => Err(error),
    }
}

/// What the answer of an encoder stands for.
pub open spec fn bytes_result(r: Result<Vec<u8>, Error>) -> Result<Seq<u8>, Error> {
    match r {
        Ok(bytes) => Ok(bytes@),
        Err(error) => Err(error),
    }
}

/// Builds a length-prefixed Kafka response frame.
pub struct Encoder {
    correlation_id: i32,
    body: Vec<u8>,
}

impl Encoder {
    /// The correlation id of the response.
    pub closed spec fn correlation(&self) -> i32 {
        self.correlation_id
    }

    /// The body written so far.
    pub closed spec fn body(&self) -> Seq<u8> {
        self.body@
    }

    /// Whether this encoder continues `before` by what `encoded` says: the
    /// bytes on success, nothing on an error.
    pub open spec fn extends(&self, before: Encoder, encoded: Result<Seq<u8>, Error>, r: Result<(), Error>) -> bool {
        &&& self.correlation() == before.correlation()
        &&& match encoded {
            Ok(bytes) => r is Ok && self.body() == before.body() + bytes,
            Err(error) => r == Err::<(), Error>(error) && self.body() == before.body(),
        }
    }

    /// Starts a response frame with its correlation id.
    pub fn response(correlation_id: i32) -> (r: Self)
        ensures
            r.correlation() == correlation_id,
            r.body() == Seq::<u8>::empty(),
    {
        Encoder { correlation_id, body: Vec::with_capacity(64) }
    }

    pub fn i8(&mut self, value: i8)
        ensures
            final(self).correlation() == old(self).correlation(),
            final(self).body() == old(self).body() + i8_bytes(value),
    {
        self.body.push(value as u8);
    }

    pub fn i16(&mut self, value: i16)
        ensures
            final(self).correlation() == old(self).correlation(),
            final(self).body() == old(self).body() + i16_bytes(value),
    {
        put_be(&mut self.body, (value as u16) as u64, 2);
    }

    pub fn i32(&mut self, value: i32)
        ensures
            final(self).correlation() == old(self).correlation(),
            final(self).body() == old(self).body() + i32_bytes(value),
    {
        put_be(&mut self.body, (value as u32) as u64, 4);
    }

    pub fn i64(&mut self, value: i64)
        ensures
            final(self).correlation() == old(self).correlation(),
            final(self).body() == old(self).body() + i64_bytes(value),
    {
        put_be(&mut self.body, value as u64, 8);
    }

    pub fn bool(&mut self, value: bool)
        ensures
            final(self).correlation() == old(self).correlation(),
            final(self).body() == old(self).body() + i8_bytes(
                if value {
                    1
                } else {
                    0
                },
            ),
    {
        self.i8(
            if value {
                1
            } else {
                0
            },
        );
    }

    /// Appends raw bytes.
    fn raw(&mut self, value: &[u8])
        ensures
            final(self).correlation() == old(self).correlation(),
            final(self).body() == old(self).body() + value@,
    {
        self.body.extend_from_slice(value);
    }

    pub fn string(&mut self, value: &[u8]) -> (r: Result<(), Error>)
        ensures
            final(self).extends(*old(self), string_bytes(value@), r),
    {
        if value.len() > MAX_STRING_LEN {
            return Err(Error::TooLarge);
        }
        let ghost before = self.body();
        self.i16(value.len() as i16);
        self.raw(value);
        proof {
            assert(self.body() =~= before + (i16_bytes(value@.len() as i16) + value@));
        }
        Ok(())
    }

    pub fn nullable_string(&mut self, value: Option<&[u8]>) -> (r: Result<(), Error>)
        ensures
            final(self).extends(
                *old(self),
                nullable_string_bytes(
                    match value {
                        Some(value) => Some(value@),
                        None => None,
                    },
                ),
                r,
            ),
    {
        match value {
            Some(value) => self.string(value),
            None => {
                self.i16(-1);
                Ok(())
            },
        }
    }

    pub fn bytes(&mut self, value: &[u8]) -> (r: Result<(), Error>)
        ensures
            final(self).extends(*old(self), blob_bytes(value@), r),
    {
        if value.len() > MAX_FRAME_LEN {
            return Err(Error::TooLarge);
        }
        let ghost before = self.body();
        self.i32(value.len() as i32);
        self.raw(value);
        proof {
            assert(self.body() =~= before + (i32_bytes(value@.len() as i32) + value@));
        }
        Ok(())
    }

    pub fn array_len(&mut self, len: usize) -> (r: Result<(), Error>)
        ensures
            final(self).extends(*old(self), array_len_bytes(len as nat), r),
    {
        if len > MAX_ARRAY_LEN {
            return Err(Error::TooLarge);
        }
        self.i32(len as i32);
        Ok(())
    }

    pub fn nullable_array_len(&mut self, len: Option<usize>) -> (r: Result<(), Error>)
        ensures
            final(self).extends(
                *old(self),
                nullable_array_len_bytes(
                    match len {
                        Some(len) => Some(len as nat),
                        None => None,
                    },
                ),
                r,
            ),
    {
        match len {
            Some(len) => self.array_len(len),
            None => {
                self.i32(-1);
                Ok(())
            },
        }
    }

    /// Puts the length prefix in front and returns the completed frame.
    pub fn finish(self) -> (r: Vec<u8>)
        ensures
            r@ == frame_bytes(self.correlation(), self.body()),
    {
        let mut frame: Vec<u8> = Vec::new();
        let mut payload: Vec<u8> = Vec::new();
        put_be(&mut payload, (self.correlation_id as u32) as u64, 4);
        payload.extend_from_slice(self.body.as_slice());
        put_be(&mut frame, payload.len() as u64, 4);
        frame.extend_from_slice(payload.as_slice());
        proof {
            assert(payload@ =~= i32_bytes(self.correlation()) + self.body());
            assert(frame@ =~= frame_bytes(self.correlation(), self.body()));
        }
        frame
    }
}

// ---------------------------------------------------------------------------
// Decoding
// ---------------------------------------------------------------------------

/// What a reader answers and where it stops.
#[verifier::ext_equal]
pub struct Parsed<T> {
    /// The value read, or why there is none.
    pub result: Result<T, Error>,
    /// The position after what was read.
    pub end: nat,
}

/// A value read up to `end`.
pub open spec fn parsed<T>(value: T, end: nat) -> Parsed<T> {
    Parsed { result: Ok(value), end }
}

/// A failure at `end`.
pub open spec fn failed<T>(error: Error, end: nat) -> Parsed<T> {
    Parsed { result: Err(error), end }
}

impl<T> Parsed<T> {
    /// Goes on with `next` where this reader stopped; a failure ends the reading.
    pub open spec fn and_then<U>(self, next: spec_fn(T, nat) -> Parsed<U>) -> Parsed<U> {
        match self.result {
            Ok(value) => next(value, self.end),
            Err(error) => failed(error, self.end),
        }
    }
}

/// `len` bytes at `pos`.
pub open spec fn parse_take(s: Seq<u8>, pos: nat, len: nat) -> Parsed<Seq<u8>> {
    if pos + len > usize::MAX {
        failed(Error::Invalid, pos)
    } else if pos + len > s.len() {
        failed(Error::Incomplete, pos)
    } else {
        parsed(s.subrange(pos as int, (pos + len) as int), pos + len)
    }
}

pub open spec fn parse_i8(s: Seq<u8>, pos: nat) -> Parsed<i8> {
    parse_take(s, pos, 1).and_then(|bytes: Seq<u8>, end: nat| parsed(i8_of(bytes), end))
}

pub open spec fn parse_i16(s: Seq<u8>, pos: nat) -> Parsed<i16> {
    parse_take(s, pos, 2).and_then(|bytes: Seq<u8>, end: nat| parsed(i16_of(bytes), end))
}

pub open spec fn parse_i32(s: Seq<u8>, pos: nat) -> Parsed<i32> {
    parse_take(s, pos, 4).and_then(|bytes: Seq<u8>, end: nat| parsed(i32_of(bytes), end))
}

pub open spec fn parse_i64(s: Seq<u8>, pos: nat) -> Parsed<i64> {
    parse_take(s, pos, 8).and_then(|bytes: Seq<u8>, end: nat| parsed(i64_of(bytes), end))
}

/// `len` bytes at `pos`, where a length below zero is invalid and one above
/// `max` too large.
pub open spec fn parse_bounded(s: Seq<u8>, pos: nat, len: int, max: nat) -> Parsed<Seq<u8>> {
    if len < 0 {
        failed(Error::Invalid, pos)
    } else if len > max {
        failed(Error::TooLarge, pos)
    } else {
        parse_take(s, pos, len as nat)
    }
}

/// As [`parse_bounded`], where a length of minus one stands for no bytes.
pub open spec fn parse_nullable(s: Seq<u8>, pos: nat, len: int, max: nat) -> Parsed<Option<Seq<u8>>> {
    if len == -1 {
        parsed(None, pos)
    } else {
        parse_bounded(s, pos, len, max).and_then(
            |bytes: Seq<u8>, end: nat| parsed(Some(bytes), end),
        )
    }
}

pub open spec fn parse_string(s: Seq<u8>, pos: nat) -> Parsed<Seq<u8>> {
    parse_i16(s, pos).and_then(
        |len: i16, end: nat| parse_bounded(s, end, len as int, MAX_STRING_LEN as nat),
    )
}

pub open spec fn parse_nullable_string(s: Seq<u8>, pos: nat) -> Parsed<Option<Seq<u8>>> {
    parse_i16(s, pos).and_then(
        |len: i16, end: nat| parse_nullable(s, end, len as int, MAX_STRING_LEN as nat),
    )
}

pub open spec fn parse_bytes(s: Seq<u8>, pos: nat) -> Parsed<Option<Seq<u8>>> {
    parse_i32(s, pos).and_then(
        |len: i32, end: nat| parse_nullable(s, end, len as int, MAX_FRAME_LEN as nat),
    )
}

/// A count within bounds.
pub open spec fn checked_count(len: i32, end: nat) -> Parsed<usize> {
    if len < 0 {
        failed(Error::Invalid, end)
    } else if len > MAX_ARRAY_LEN {
        failed(Error::TooLarge, end)
    } else {
        parsed(len as usize, end)
    }
}

pub open spec fn parse_array_len(s: Seq<u8>, pos: nat) -> Parsed<usize> {
    parse_i32(s, pos).and_then(|len: i32, end: nat| checked_count(len, end))
}

pub open spec fn parse_nullable_array_len(s: Seq<u8>, pos: nat) -> Parsed<Option<usize>> {
    parse_i32(s, pos).and_then(
        |len: i32, end: nat|
            if len == -1 {
                parsed(None, end)
            } else {
                checked_count(len, end).and_then(|count: usize, end: nat| parsed(Some(count), end))
            },
    )
}

/// `count` items one after the other.
pub open spec fn parse_many<T>(
    s: Seq<u8>,
    pos: nat,
    count: nat,
    item: spec_fn(Seq<u8>, nat) -> Parsed<T>,
) -> Parsed<Seq<T>>
    decreases count,
{
    if count == 0 {
        parsed(seq![], pos)
    } else {
        parse_many(s, pos, (count - 1) as nat, item).and_then(
            |items: Seq<T>, end: nat|
                item(s, end).and_then(|next: T, end: nat| parsed(items.push(next), end)),
        )
    }
}

/// Whether `t` begins with `s`.
pub open spec fn extends(s: Seq<u8>, t: Seq<u8>) -> bool {
    &&& s.len() <= t.len()
    &&& forall|i: int| 0 <= i < s.len() ==> #[trigger] t[i] == s[i]
}

/// What can be read is read in the same way when more bytes follow.
pub broadcast proof fn lemma_take_grows(s: Seq<u8>, t: Seq<u8>, pos: nat, len: nat)
    requires
        #[trigger] extends(s, t),
        parse_take(s, pos, len).result is Ok,
    ensures
        #[trigger] parse_take(t, pos, len) == parse_take(s, pos, len),
{
    let end = (pos + len) as int;
    assert(t.subrange(pos as int, end) =~= s.subrange(pos as int, end));
}

pub broadcast proof fn lemma_i8_grows(s: Seq<u8>, t: Seq<u8>, pos: nat)
    requires
        #[trigger] extends(s, t),
        parse_i8(s, pos).result is Ok,
    ensures
        #[trigger] parse_i8(t, pos) == parse_i8(s, pos),
{
    broadcast use lemma_take_grows;
}

pub broadcast proof fn lemma_i16_grows(s: Seq<u8>, t: Seq<u8>, pos: nat)
    requires
        #[trigger] extends(s, t),
        parse_i16(s, pos).result is Ok,
    ensures
        #[trigger] parse_i16(t, pos) == parse_i16(s, pos),
{
    broadcast use lemma_take_grows;
}

pub broadcast proof fn lemma_i32_grows(s: Seq<u8>, t: Seq<u8>, pos: nat)
    requires
        #[trigger] extends(s, t),
        parse_i32(s, pos).result is Ok,
    ensures
        #[trigger] parse_i32(t, pos) == parse_i32(s, pos),
{
    broadcast use lemma_take_grows;
}

pub broadcast proof fn lemma_i64_grows(s: Seq<u8>, t: Seq<u8>, pos: nat)
    requires
        #[trigger] extends(s, t),
        parse_i64(s, pos).result is Ok,
    ensures
        #[trigger] parse_i64(t, pos) == parse_i64(s, pos),
{
    broadcast use lemma_take_grows;
}

pub broadcast proof fn lemma_string_grows(s: Seq<u8>, t: Seq<u8>, pos: nat)
    requires
        #[trigger] extends(s, t),
        parse_string(s, pos).result is Ok,
    ensures
        #[trigger] parse_string(t, pos) == parse_string(s, pos),
{
    broadcast use lemma_take_grows;
}

pub broadcast proof fn lemma_nullable_string_grows(s: Seq<u8>, t: Seq<u8>, pos: nat)
    requires
        #[trigger] extends(s, t),
        parse_nullable_string(s, pos).result is Ok,
    ensures
        #[trigger] parse_nullable_string(t, pos) == parse_nullable_string(s, pos),
{
    broadcast use lemma_take_grows;
}

pub broadcast proof fn lemma_bytes_grows(s: Seq<u8>, t: Seq<u8>, pos: nat)
    requires
        #[trigger] extends(s, t),
        parse_bytes(s, pos).result is Ok,
    ensures
        #[trigger] parse_bytes(t, pos) == parse_bytes(s, pos),
{
    broadcast use lemma_take_grows;
}

pub broadcast proof fn lemma_array_len_grows(s: Seq<u8>, t: Seq<u8>, pos: nat)
    requires
        #[trigger] extends(s, t),
        parse_array_len(s, pos).result is Ok,
    ensures
        #[trigger] parse_array_len(t, pos) == parse_array_len(s, pos),
{
    broadcast use lemma_take_grows;
}

pub broadcast proof fn lemma_nullable_array_len_grows(s: Seq<u8>, t: Seq<u8>, pos: nat)
    requires
        #[trigger] extends(s, t),
        parse_nullable_array_len(s, pos).result is Ok,
    ensures
        #[trigger] parse_nullable_array_len(t, pos) == parse_nullable_array_len(s, pos),
{
    broadcast use lemma_take_grows;
}

pub broadcast group group_grows {
    lemma_i8_grows,
    lemma_i16_grows,
    lemma_i32_grows,
    lemma_i64_grows,
    lemma_string_grows,
    lemma_nullable_string_grows,
    lemma_bytes_grows,
    lemma_array_len_grows,
    lemma_nullable_array_len_grows,
}

/// As [`lemma_take_grows`], for items of which that holds.
pub proof fn lemma_many_grows<T>(
    s: Seq<u8>,
    t: Seq<u8>,
    pos: nat,
    count: nat,
    item: spec_fn(Seq<u8>, nat) -> Parsed<T>,
)
    requires
        extends(s, t),
        forall|p: nat| (#[trigger] item(s, p)).result is Ok ==> item(t, p) == item(s, p),
        parse_many(s, pos, count, item).result is Ok,
    ensures
        parse_many(t, pos, count, item) == parse_many(s, pos, count, item),
    decreases count,
{
    if count > 0 {
        lemma_many_grows(s, t, pos, (count - 1) as nat, item);
    }
}

/// A failure among the first items is the failure of the whole.
pub proof fn lemma_many_error<T>(
    s: Seq<u8>,
    pos: nat,
    n: nat,
    count: nat,
    item: spec_fn(Seq<u8>, nat) -> Parsed<T>,
)
    requires
        n <= count,
        parse_many(s, pos, n, item).result is Err,
    ensures
        parse_many(s, pos, count, item).result is Err,
        parse_many(s, pos, count, item).result->Err_0 == parse_many(s, pos, n, item).result->Err_0,
        parse_many(s, pos, count, item).end == parse_many(s, pos, n, item).end,
    decreases count,
{
    if n < count {
        lemma_many_error(s, pos, n, (count - 1) as nat, item);
    }
}

/// What one more item does.
pub proof fn lemma_many_step<T>(
    s: Seq<u8>,
    pos: nat,
    n: nat,
    item: spec_fn(Seq<u8>, nat) -> Parsed<T>,
    items: Seq<T>,
    end: nat,
)
    requires
        parse_many(s, pos, n, item) == parsed(items, end),
    ensures
        parse_many(s, pos, n + 1, item).end == item(s, end).end,
        match item(s, end).result {
            Ok(next) => parse_many(s, pos, n + 1, item).result == Ok::<Seq<T>, Error>(items.push(next)),
            Err(error) => parse_many(s, pos, n + 1, item).result == Err::<Seq<T>, Error>(error),
        },
{
}

/// What a read of borrowed bytes stands for.
pub open spec fn slice_result(r: Result<&[u8], Error>) -> Result<Seq<u8>, Error> {
    match r {
        Ok(bytes) => Ok(bytes@),
        Err(error) => Err(error),
    }
}

/// What a read of optional borrowed bytes stands for.
pub open spec fn optional_slice_result(r: Result<Option<&[u8]>, Error>) -> Result<Option<Seq<u8>>, Error> {
    match r {
        Ok(Some(bytes)) => Ok(Some(bytes@)),
        Ok(None) => Ok(None),
        Err(error) => Err(error),
    }
}

/// Reads big-endian fields from one frame.
pub struct Decoder<'a> {
    bytes: &'a [u8],
    offset: usize,
}

impl<'a> Decoder<'a> {
    /// The bytes that are read.
    pub closed spec fn input(&self) -> Seq<u8> {
        self.bytes@
    }

    /// The position of the next field.
    pub closed spec fn pos(&self) -> nat {
        self.offset as nat
    }

    /// The position is within the input.
    pub open spec fn wf(&self) -> bool {
        &&& self.pos() <= self.input().len()
        &&& self.input().len() <= usize::MAX
    }

    /// Whether this decoder is `before`, moved to `end`.
    pub open spec fn moved(&self, before: Decoder<'a>, end: nat) -> bool {
        &&& self.wf()
        &&& self.input() == before.input()
        &&& self.pos() == end
    }

    pub fn new(bytes: &'a [u8]) -> (r: Self)
        ensures
            r.wf(),
            r.input() == bytes@,
            r.pos() == 0,
    {
        proof {
            assert(bytes.len() == bytes@.len());
        }
        Decoder { bytes, offset: 0 }
    }

    pub fn take(&mut self, len: usize) -> (r: Result<&'a [u8], Error>)
        requires
            old(self).wf(),
        ensures
            final(self).moved(*old(self), parse_take(old(self).input(), old(self).pos(), len as nat).end),
            slice_result(r) == parse_take(old(self).input(), old(self).pos(), len as nat).result,
            r matches Ok(bytes) ==> bytes@.len() == len,
    {
        let end: usize = match self.offset.checked_add(len) {
            Some(end) => end,
            None => {
                return Err(Error::Invalid);
            },
        };
        if end > self.bytes.len() {
            return Err(Error::Incomplete);
        }
        let value = vstd::slice::slice_subrange(self.bytes, self.offset, end);
        self.offset = end;
        Ok(value)
    }

    pub fn i8(&mut self) -> (r: Result<i8, Error>)
        requires
            old(self).wf(),
        ensures
            final(self).moved(*old(self), parse_i8(old(self).input(), old(self).pos()).end),
            r == parse_i8(old(self).input(), old(self).pos()).result,
    {
        let bytes = self.take(1)?;
        Ok(bytes[0] as i8)
    }

    pub fn i16(&mut self) -> (r: Result<i16, Error>)
        requires
            old(self).wf(),
        ensures
            final(self).moved(*old(self), parse_i16(old(self).input(), old(self).pos()).end),
            r == parse_i16(old(self).input(), old(self).pos()).result,
    {
        let bytes = self.take(2)?;
        proof {
            assert(bytes@.subrange(0, 2) =~= bytes@);
        }
        Ok(read_u16(bytes, 0) as i16)
    }

    pub fn i32(&mut self) -> (r: Result<i32, Error>)
        requires
            old(self).wf(),
        ensures
            final(self).moved(*old(self), parse_i32(old(self).input(), old(self).pos()).end),
            r == parse_i32(old(self).input(), old(self).pos()).result,
    {
        let bytes = self.take(4)?;
        proof {
            assert(bytes@.subrange(0, 4) =~= bytes@);
        }
        Ok(read_u32(bytes, 0) as i32)
    }

    pub fn i64(&mut self) -> (r: Result<i64, Error>)
        requires
            old(self).wf(),
        ensures
            final(self).moved(*old(self), parse_i64(old(self).input(), old(self).pos()).end),
            r == parse_i64(old(self).input(), old(self).pos()).result,
    {
        let bytes = self.take(8)?;
        proof {
            assert(bytes@.subrange(0, 8) =~= bytes@);
        }
        Ok(read_u64(bytes, 0) as i64)
    }

    pub fn string_bytes(&mut self) -> (r: Result<&'a [u8], Error>)
        requires
            old(self).wf(),
        ensures
            final(self).moved(*old(self), parse_string(old(self).input(), old(self).pos()).end),
            slice_result(r) == parse_string(old(self).input(), old(self).pos()).result,
    {
        let len: i16 = self.i16()?;
        if len < 0 {
            return Err(Error::Invalid);
        }
        let len: usize = len as usize;
        if len > MAX_STRING_LEN {
            return Err(Error::TooLarge);
        }
        self.take(len)
    }

    pub fn nullable_string_bytes(&mut self) -> (r: Result<Option<&'a [u8]>, Error>)
        requires
            old(self).wf(),
        ensures
            final(self).moved(
                *old(self),
                parse_nullable_string(old(self).input(), old(self).pos()).end,
            ),
            optional_slice_result(r) == parse_nullable_string(
                old(self).input(),
                old(self).pos(),
            ).result,
    {
        let len: i16 = self.i16()?;
        if len == -1 {
            return Ok(None);
        }
        if len < 0 {
            return Err(Error::Invalid);
        }
        let len: usize = len as usize;
        if len > MAX_STRING_LEN {
            return Err(Error::TooLarge);
        }
        let bytes = self.take(len)?;
        Ok(Some(bytes))
    }

    pub fn bytes(&mut self) -> (r: Result<Option<&'a [u8]>, Error>)
        requires
            old(self).wf(),
        ensures
            final(self).moved(*old(self), parse_bytes(old(self).input(), old(self).pos()).end),
            optional_slice_result(r) == parse_bytes(old(self).input(), old(self).pos()).result,
    {
        let len: i32 = self.i32()?;
        if len == -1 {
            return Ok(None);
        }
        if len < 0 {
            return Err(Error::Invalid);
        }
        let len: usize = len as usize;
        if len > MAX_FRAME_LEN {
            return Err(Error::TooLarge);
        }
        let bytes = self.take(len)?;
        Ok(Some(bytes))
    }

    pub fn array_len(&mut self) -> (r: Result<usize, Error>)
        requires
            old(self).wf(),
        ensures
            final(self).moved(*old(self), parse_array_len(old(self).input(), old(self).pos()).end),
            r == parse_array_len(old(self).input(), old(self).pos()).result,
            r matches Ok(len) ==> len <= MAX_ARRAY_LEN,
    {
        let len: i32 = self.i32()?;
        if len < 0 {
            return Err(Error::Invalid);
        }
        let len: usize = len as usize;
        if len > MAX_ARRAY_LEN {
            return Err(Error::TooLarge);
        }
        Ok(len)
    }

    pub fn nullable_array_len(&mut self) -> (r: Result<Option<usize>, Error>)
        requires
            old(self).wf(),
        ensures
            final(self).moved(
                *old(self),
                parse_nullable_array_len(old(self).input(), old(self).pos()).end,
            ),
            r == parse_nullable_array_len(old(self).input(), old(self).pos()).result,
    {
        let len: i32 = self.i32()?;
        if len == -1 {
            return Ok(None);
        }
        if len < 0 {
            return Err(Error::Invalid);
        }
        let len: usize = len as usize;
        if len > MAX_ARRAY_LEN {
            return Err(Error::TooLarge);
        }
        Ok(Some(len))
    }

    pub fn remaining(&self) -> (r: usize)
        requires
            self.wf(),
        ensures
            r == self.input().len() - self.pos(),
    {
        self.bytes.len() - self.offset
    }

    pub fn done(&self) -> (r: bool)
        ensures
            r == (self.pos() == self.input().len()),
    {
        self.offset == self.bytes.len()
    }
}

// ---------------------------------------------------------------------------
// Variable-width integers
// ---------------------------------------------------------------------------

/// Seven bits per byte, lowest first; the top bit marks that more follow.
pub open spec fn uvarint_bytes(value: nat) -> Seq<u8>
    decreases value,
{
    if value < 128 {
        seq![value as u8]
    } else {
        seq![(value % 128 + 128) as u8] + uvarint_bytes(value / 128)
    }
}

/// Signed numbers interleaved: 0, -1, 1, -2, 2, ...
pub open spec fn zigzag(value: int) -> nat {
    if value >= 0 {
        (2 * value) as nat
    } else {
        (-2 * value - 1) as nat
    }
}

/// The signed number that `raw` stands for.
pub open spec fn unzigzag(raw: nat) -> int {
    if raw % 2 == 0 {
        (raw / 2) as int
    } else {
        -(raw / 2) - 1
    }
}

pub open spec fn varint_bytes(value: int) -> Seq<u8> {
    uvarint_bytes(zigzag(value))
}

/// The number spelled by at most `max_bytes` bytes at `pos`.
pub open spec fn parse_uvarint(s: Seq<u8>, pos: nat, max_bytes: nat) -> Parsed<nat>
    decreases max_bytes,
{
    if max_bytes == 0 {
        failed(Error::Invalid, pos)
    } else {
        parse_take(s, pos, 1).and_then(
            |bytes: Seq<u8>, end: nat|
                if bytes[0] < 128 {
                    parsed(bytes[0] as nat, end)
                } else {
                    parse_uvarint(s, end, (max_bytes - 1) as nat).and_then(
                        |rest: nat, end: nat| parsed(((bytes[0] - 128) + 128 * rest) as nat, end),
                    )
                },
        )
    }
}

/// A 32-bit signed varint; higher bits are dropped.
pub open spec fn parse_varint(s: Seq<u8>, pos: nat) -> Parsed<i32> {
    parse_uvarint(s, pos, 5).and_then(
        |raw: nat, end: nat| parsed(unzigzag(raw % 0x1_0000_0000) as i32, end),
    )
}

/// A 64-bit signed varint; higher bits are dropped.
pub open spec fn parse_varlong(s: Seq<u8>, pos: nat) -> Parsed<i64> {
    parse_uvarint(s, pos, 10).and_then(
        |raw: nat, end: nat| parsed(unzigzag(raw % 0x1_0000_0000_0000_0000) as i64, end),
    )
}

pub(crate) fn put_uvarint(output: &mut Vec<u8>, value: u64)
    ensures
        final(output)@ == old(output)@ + uvarint_bytes(value as nat),
{
    let ghost before = output@;
    let ghost whole = value as nat;
    let mut value: u64 = value;
    while value >= 128
        invariant
            before + uvarint_bytes(whole) == output@ + uvarint_bytes(value as nat),
        decreases value,
    {
        let ghost written = output@;
        let ghost current = value as nat;
        output.push((value % 128) as u8 + 128);
        value = value / 128;
        proof {
            assert(written + uvarint_bytes(current) =~= output@ + uvarint_bytes(value as nat));
        }
    }
    output.push(value as u8);
    proof {
        assert(output@ =~= before + uvarint_bytes(whole));
    }
}

pub(crate) fn put_varint(output: &mut Vec<u8>, value: i32)
    ensures
        final(output)@ == old(output)@ + varint_bytes(value as int),
{
    if value >= 0 {
        put_uvarint(output, value as u64 * 2);
    } else {
        put_uvarint(output, (-(value + 1)) as u64 * 2 + 1);
    }
}

pub(crate) fn put_varlong(output: &mut Vec<u8>, value: i64)
    ensures
        final(output)@ == old(output)@ + varint_bytes(value as int),
{
    if value >= 0 {
        put_uvarint(output, value as u64 * 2);
    } else {
        put_uvarint(output, (-(value + 1)) as u64 * 2 + 1);
    }
}

/// Reads a number of at most `max_bytes` bytes, modulo 2^64.
pub(crate) fn read_uvarint(decoder: &mut Decoder<'_>, max_bytes: usize) -> (r: Result<u64, Error>)
    requires
        old(decoder).wf(),
    ensures
        final(decoder).moved(
            *old(decoder),
            parse_uvarint(old(decoder).input(), old(decoder).pos(), max_bytes as nat).end,
        ),
        match parse_uvarint(old(decoder).input(), old(decoder).pos(), max_bytes as nat).result {
            Ok(raw) => r == Ok::<u64, Error>((raw % 0x1_0000_0000_0000_0000) as u64),
            Err(error) => r == Err::<u64, Error>(error),
        },
    decreases max_bytes,
{
    if max_bytes == 0 {
        return Err(Error::Invalid);
    }
    let bytes = decoder.take(1)?;
    let byte: u8 = bytes[0];
    if byte < 128 {
        return Ok(byte as u64);
    }
    let ghost start = decoder.pos();
    let rest: u64 = read_uvarint(decoder, max_bytes - 1)?;
    let low: u64 = (byte - 128) as u64;
    proof {
        let whole = parse_uvarint(decoder.input(), start, (max_bytes - 1) as nat).result->Ok_0;
        assert((128 * whole + low) % 0x1_0000_0000_0000_0000 == (128 * (whole
            % 0x1_0000_0000_0000_0000) + low) % 0x1_0000_0000_0000_0000);
    }
    Ok(((rest % 0x200_0000_0000_0000) * 128) + low)
}

pub(crate) fn read_varint(decoder: &mut Decoder<'_>) -> (r: Result<i32, Error>)
    requires
        old(decoder).wf(),
    ensures
        final(decoder).moved(
            *old(decoder),
            parse_varint(old(decoder).input(), old(decoder).pos()).end,
        ),
        r == parse_varint(old(decoder).input(), old(decoder).pos()).result,
{
    let wide: u64 = read_uvarint(decoder, 5)?;
    proof {
        let whole = parse_uvarint(old(decoder).input(), old(decoder).pos(), 5).result->Ok_0;
        vstd::arithmetic::div_mod::lemma_mod_mod(whole as int, 0x1_0000_0000, 0x1_0000_0000);
    }
    let raw: u64 = wide % 0x1_0000_0000;
    if raw % 2 == 0 {
        Ok((raw / 2) as i32)
    } else {
        Ok(-((raw / 2) as i32) - 1)
    }
}

pub(crate) fn read_varlong(decoder: &mut Decoder<'_>) -> (r: Result<i64, Error>)
    requires
        old(decoder).wf(),
    ensures
        final(decoder).moved(
            *old(decoder),
            parse_varlong(old(decoder).input(), old(decoder).pos()).end,
        ),
        r == parse_varlong(old(decoder).input(), old(decoder).pos()).result,
{
    let raw: u64 = read_uvarint(decoder, 10)?;
    if raw % 2 == 0 {
        Ok((raw / 2) as i64)
    } else {
        Ok(-((raw / 2) as i64) - 1)
    }
}

/// How many values `n` bytes of seven bits can hold.
pub open spec fn varint_capacity(n: nat) -> nat
    decreases n,
{
    if n == 0 {
        1
    } else {
        128 * varint_capacity((n - 1) as nat)
    }
}

pub proof fn lemma_varint_capacities()
    ensures
        varint_capacity(5) == 0x8_0000_0000,
        varint_capacity(10) == 0x40_0000_0000_0000_0000,
{
    reveal_with_fuel(varint_capacity, 11);
}

pub proof fn lemma_uvarint_nonempty(value: nat)
    ensures
        uvarint_bytes(value).len() > 0,
    decreases value,
{
}

/// Reading a variable-width number where one was written gives it back.
pub proof fn law_uvarint_round_trip(s: Seq<u8>, pos: nat, value: nat, max_bytes: nat)
    requires
        s.len() <= usize::MAX,
        pos + uvarint_bytes(value).len() <= s.len(),
        s.subrange(pos as int, (pos + uvarint_bytes(value).len()) as int) == uvarint_bytes(value),
        value < varint_capacity(max_bytes),
        max_bytes > 0,
    ensures
        parse_uvarint(s, pos, max_bytes) == parsed(value, pos + uvarint_bytes(value).len()),
    decreases max_bytes,
{
    let bytes = uvarint_bytes(value);
    lemma_uvarint_nonempty(value);
    let here = s.subrange(pos as int, (pos + bytes.len()) as int);
    assert(here[0] == s[pos as int]);
    assert(s.subrange(pos as int, (pos + 1) as int)[0] == bytes[0]);
    if value >= 128 {
        let rest = uvarint_bytes(value / 128);
        assert(bytes.skip(1) =~= rest);
        assert(value / 128 < varint_capacity((max_bytes - 1) as nat));
        assert(s.subrange((pos + 1) as int, (pos + 1 + rest.len()) as int) =~= here.skip(1));
        law_uvarint_round_trip(s, pos + 1, value / 128, (max_bytes - 1) as nat);
    }
}

/// Reading a signed varint where one was written gives it back, in 32 bits
/// and in 64.
pub proof fn law_varint_round_trip(s: Seq<u8>, pos: nat, value: int)
    requires
        s.len() <= usize::MAX,
        pos + varint_bytes(value).len() <= s.len(),
        s.subrange(pos as int, (pos + varint_bytes(value).len()) as int) == varint_bytes(value),
    ensures
        i32::MIN <= value <= i32::MAX ==> parse_varint(s, pos) == parsed(
            value as i32,
            pos + varint_bytes(value).len(),
        ),
        i64::MIN <= value <= i64::MAX ==> parse_varlong(s, pos) == parsed(
            value as i64,
            pos + varint_bytes(value).len(),
        ),
{
    lemma_varint_capacities();
    if i32::MIN <= value <= i32::MAX {
        law_uvarint_round_trip(s, pos, zigzag(value), 5);
    }
    if i64::MIN <= value <= i64::MAX {
        law_uvarint_round_trip(s, pos, zigzag(value), 10);
    }
}

} // verus!
