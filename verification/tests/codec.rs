//! Fields of the wire format.

use charlotte_kafka_broker::broker_wire::codec::{Decoder, Encoder};
use charlotte_kafka_broker::broker_wire::Error;

#[test]
fn encoded_fields_read_back() {
    let mut encoder = Encoder::response(-5);
    encoder.i8(-1);
    encoder.i16(-2);
    encoder.i32(i32::MIN);
    encoder.i64(i64::MAX);
    encoder.bool(true);
    encoder.string(b"name").expect("string");
    encoder.nullable_string(None).expect("null");
    encoder.nullable_string(Some(b"")).expect("empty");
    encoder.bytes(b"blob").expect("bytes");
    encoder.array_len(3).expect("length");
    encoder.nullable_array_len(None).expect("no list");
    let frame = encoder.finish();
    assert_eq!(frame[..4], ((frame.len() - 4) as i32).to_be_bytes());
    assert_eq!(frame[4..8], (-5i32).to_be_bytes());

    let mut decoder = Decoder::new(&frame[8..]);
    assert_eq!(decoder.i8(), Ok(-1));
    assert_eq!(decoder.i16(), Ok(-2));
    assert_eq!(decoder.i32(), Ok(i32::MIN));
    assert_eq!(decoder.i64(), Ok(i64::MAX));
    assert_eq!(decoder.i8(), Ok(1));
    assert_eq!(decoder.string_bytes(), Ok(b"name".as_slice()));
    assert_eq!(decoder.nullable_string_bytes(), Ok(None));
    assert_eq!(decoder.nullable_string_bytes(), Ok(Some(b"".as_slice())));
    assert_eq!(decoder.bytes(), Ok(Some(b"blob".as_slice())));
    assert_eq!(decoder.array_len(), Ok(3));
    assert_eq!(decoder.remaining(), 4);
    assert!(!decoder.done());
    assert_eq!(decoder.nullable_array_len(), Ok(None));
    assert!(decoder.done());
    assert_eq!(decoder.i8(), Err(Error::Incomplete));
}

#[test]
fn negative_lengths_are_invalid_where_nothing_may_be_missing() {
    assert_eq!(Decoder::new(&(-1i16).to_be_bytes()).string_bytes(), Err(Error::Invalid));
    assert_eq!(Decoder::new(&(-2i16).to_be_bytes()).nullable_string_bytes(), Err(Error::Invalid));
    assert_eq!(Decoder::new(&(-1i32).to_be_bytes()).array_len(), Err(Error::Invalid));
    assert_eq!(Decoder::new(&(-2i32).to_be_bytes()).nullable_array_len(), Err(Error::Invalid));
    assert_eq!(Decoder::new(&(-1i32).to_be_bytes()).bytes(), Ok(None));
    assert_eq!(Decoder::new(&(-2i32).to_be_bytes()).bytes(), Err(Error::Invalid));
}

#[test]
fn lengths_beyond_the_bounds_are_too_large() {
    assert_eq!(Decoder::new(&8193i16.to_be_bytes()).string_bytes(), Err(Error::TooLarge));
    assert_eq!(Decoder::new(&8192i16.to_be_bytes()).string_bytes(), Err(Error::Incomplete));
    assert_eq!(Decoder::new(&16_385i32.to_be_bytes()).array_len(), Err(Error::TooLarge));
    assert_eq!(Decoder::new(&16_384i32.to_be_bytes()).array_len(), Ok(16_384));
    assert_eq!(Decoder::new(&1_048_577i32.to_be_bytes()).bytes(), Err(Error::TooLarge));
    assert_eq!(Encoder::response(1).array_len(16_385), Err(Error::TooLarge));
    assert_eq!(Encoder::response(1).string(&vec![0; 8193]), Err(Error::TooLarge));
    assert_eq!(Encoder::response(1).bytes(&vec![0; 1_048_577]), Err(Error::TooLarge));
}
