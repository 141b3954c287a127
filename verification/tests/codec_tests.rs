use dasl::cid::{Cid, CidParseError, Codec};
use dasl::decode::{decode_from_bytes, StreamDecoder};
use dasl::encode::encode_to_bytes;
use dasl::error::{DecodeError, EncodeError};
use dasl::value::Value;

fn enc(v: &Value) -> Vec<u8> {
    encode_to_bytes(v).expect("value must encode")
}

#[test]
fn empty_map() {
    let v = Value::Mapping(Vec::new());
    assert_eq!(enc(&v), vec![0xa0]);
    let back = decode_from_bytes(&[0xa0]).unwrap();
    assert_eq!(back, Value::Mapping(Vec::new()));
}

#[test]
fn two_key_map_canonical() {
    // built in the "wrong" order; the builder keeps canonical key order
    let mut entries = Vec::new();
    entries = Value::map_set(entries, "b".to_string(), Value::Integer(1));
    entries = Value::map_set(entries, "a".to_string(), Value::Integer(2));
    let v = Value::Mapping(entries);
    let bytes = enc(&v);
    assert_eq!(bytes, vec![0xa2, 0x61, 0x61, 0x02, 0x61, 0x62, 0x01]);

    // the same entries unsorted on the wire are refused
    let unsorted = [0xa2, 0x61, 0x62, 0x01, 0x61, 0x61, 0x02];
    assert_eq!(decode_from_bytes(&unsorted), Err(DecodeError::UnsortedMapKey));
}

#[test]
fn map_set_replaces() {
    let mut entries = Vec::new();
    entries = Value::map_set(entries, "k".to_string(), Value::Integer(1));
    entries = Value::map_set(entries, "k".to_string(), Value::Integer(2));
    let v = Value::Mapping(entries);
    assert_eq!(enc(&v), vec![0xa1, 0x61, 0x6b, 0x02]);
}

#[test]
fn duplicate_key_rejected() {
    let dup = [0xa2, 0x61, 0x61, 0x01, 0x61, 0x61, 0x02];
    assert_eq!(decode_from_bytes(&dup), Err(DecodeError::DuplicateMapKey));
}

#[test]
fn non_text_key_rejected() {
    assert_eq!(decode_from_bytes(&[0xa1, 0x01, 0x01]), Err(DecodeError::NonTextMapKey));
}

#[test]
fn map_keys_order_by_length_first() {
    let mut entries = Vec::new();
    entries = Value::map_set(entries, "aa".to_string(), Value::Integer(1));
    entries = Value::map_set(entries, "b".to_string(), Value::Integer(2));
    let v = Value::Mapping(entries);
    // "b" (shorter) collates before "aa"
    assert_eq!(enc(&v), vec![0xa2, 0x61, 0x62, 0x02, 0x62, 0x61, 0x61, 0x01]);
}

#[test]
fn non_minimal_integer_rejected() {
    assert_eq!(decode_from_bytes(&[0x18, 0x17]), Err(DecodeError::NonMinimal));
    assert_eq!(decode_from_bytes(&[0x19, 0x00, 0xff]), Err(DecodeError::NonMinimal));
    assert_eq!(
        decode_from_bytes(&[0x1a, 0x00, 0x00, 0xff, 0xff]),
        Err(DecodeError::NonMinimal)
    );
    assert_eq!(
        decode_from_bytes(&[0x1b, 0x00, 0x00, 0x00, 0x00, 0xff, 0xff, 0xff, 0xff]),
        Err(DecodeError::NonMinimal)
    );
}

#[test]
fn integer_boundaries_round_trip() {
    let cases: [(i128, Vec<u8>); 10] = [
        (0, vec![0x00]),
        (23, vec![0x17]),
        (24, vec![0x18, 24]),
        (255, vec![0x18, 255]),
        (256, vec![0x19, 0x01, 0x00]),
        (65535, vec![0x19, 0xff, 0xff]),
        (65536, vec![0x1a, 0x00, 0x01, 0x00, 0x00]),
        (4294967295, vec![0x1a, 0xff, 0xff, 0xff, 0xff]),
        (4294967296, vec![0x1b, 0x00, 0x00, 0x00, 0x01, 0x00, 0x00, 0x00, 0x00]),
        (-1, vec![0x20]),
    ];
    for (n, bytes) in cases {
        let v = Value::Integer(n);
        assert_eq!(enc(&v), bytes, "encoding of {}", n);
        assert_eq!(decode_from_bytes(&bytes).unwrap(), Value::Integer(n));
    }
    // extremes of the wire range
    let max = Value::Integer((1i128 << 64) - 1);
    let max_bytes = enc(&max);
    assert_eq!(max_bytes, vec![0x1b, 0xff, 0xff, 0xff, 0xff, 0xff, 0xff, 0xff, 0xff]);
    assert_eq!(decode_from_bytes(&max_bytes).unwrap(), max);
    let min = Value::Integer(-(1i128 << 64));
    let min_bytes = enc(&min);
    assert_eq!(min_bytes, vec![0x3b, 0xff, 0xff, 0xff, 0xff, 0xff, 0xff, 0xff, 0xff]);
    assert_eq!(decode_from_bytes(&min_bytes).unwrap(), min);
}

#[test]
fn integer_out_of_range_fails() {
    assert_eq!(
        encode_to_bytes(&Value::Integer(1i128 << 64)),
        Err(EncodeError::IntegerOutOfRange)
    );
    assert_eq!(
        encode_to_bytes(&Value::Integer(-(1i128 << 64) - 1)),
        Err(EncodeError::IntegerOutOfRange)
    );
}

#[test]
fn half_float_rejected() {
    assert_eq!(
        decode_from_bytes(&[0xf9, 0x3c, 0x00]),
        Err(DecodeError::HalfOrSinglePrecisionFloat)
    );
    assert_eq!(
        decode_from_bytes(&[0xfa, 0x3f, 0x80, 0x00, 0x00]),
        Err(DecodeError::HalfOrSinglePrecisionFloat)
    );
}

#[test]
fn canonical_nan_only() {
    let canonical = [0xfb, 0x7f, 0xf8, 0, 0, 0, 0, 0, 0];
    match decode_from_bytes(&canonical).unwrap() {
        Value::Float(bits) => {
            assert!(f64::from_bits(bits).is_nan());
            assert_eq!(bits, 0x7ff8000000000000);
        }
        other => panic!("expected a float, got {:?}", other),
    }
    let other_nan = [0xfb, 0x7f, 0xf8, 0, 0, 0, 0, 0, 1];
    assert_eq!(decode_from_bytes(&other_nan), Err(DecodeError::NonCanonicalNaN));
}

#[test]
fn floats_round_trip() {
    for x in [0.0f64, -0.0, 1.5, -12.094635556478, f64::INFINITY, f64::NEG_INFINITY] {
        let v = Value::Float(x.to_bits());
        let bytes = enc(&v);
        assert_eq!(bytes[0], 0xfb);
        assert_eq!(bytes.len(), 9);
        assert_eq!(decode_from_bytes(&bytes).unwrap(), v);
    }
    // 1.5 precisely
    assert_eq!(
        enc(&Value::Float(1.5f64.to_bits())),
        vec![0xfb, 0x3f, 0xf8, 0, 0, 0, 0, 0, 0]
    );
}

#[test]
fn nan_normalized_signalling_rejected() {
    // a quiet NaN with extra mantissa bits is written as the canonical NaN
    let noisy_quiet = 0x7ff8000000000001u64;
    assert!(f64::from_bits(noisy_quiet).is_nan());
    assert_eq!(
        enc(&Value::Float(noisy_quiet)),
        vec![0xfb, 0x7f, 0xf8, 0, 0, 0, 0, 0, 0]
    );
    // a signalling NaN refuses to encode
    let signalling = 0x7ff0000000000001u64;
    assert!(f64::from_bits(signalling).is_nan());
    assert_eq!(encode_to_bytes(&Value::Float(signalling)), Err(EncodeError::SignallingNan));
}

#[test]
fn text_and_bytes() {
    let v = Value::Text("hello".to_string());
    assert_eq!(enc(&v), vec![0x65, b'h', b'e', b'l', b'l', b'o']);
    assert_eq!(decode_from_bytes(&enc(&v)).unwrap(), v);

    let b = Value::Bytes(vec![1, 2, 3]);
    assert_eq!(enc(&b), vec![0x43, 1, 2, 3]);
    assert_eq!(decode_from_bytes(&enc(&b)).unwrap(), b);

    // text bytes must be valid UTF-8
    assert_eq!(decode_from_bytes(&[0x61, 0xff]), Err(DecodeError::InvalidUtf8));
}

#[test]
fn simple_values() {
    assert_eq!(decode_from_bytes(&[0xf4]).unwrap(), Value::Bool(false));
    assert_eq!(decode_from_bytes(&[0xf5]).unwrap(), Value::Bool(true));
    assert_eq!(decode_from_bytes(&[0xf6]).unwrap(), Value::Null);
    assert_eq!(enc(&Value::Bool(false)), vec![0xf4]);
    assert_eq!(enc(&Value::Bool(true)), vec![0xf5]);
    assert_eq!(enc(&Value::Null), vec![0xf6]);
    // undefined and other simple values are refused
    assert_eq!(decode_from_bytes(&[0xf7]), Err(DecodeError::UnsupportedSimpleValue(23)));
    assert_eq!(decode_from_bytes(&[0xe0]), Err(DecodeError::UnsupportedSimpleValue(0)));
    assert_eq!(
        decode_from_bytes(&[0xf8, 0x20]),
        Err(DecodeError::UnsupportedSimpleValue(32))
    );
}

#[test]
fn indefinite_rejected() {
    assert_eq!(decode_from_bytes(&[0x9f, 0xff]), Err(DecodeError::IndefiniteSize));
    assert_eq!(decode_from_bytes(&[0x5f]), Err(DecodeError::IndefiniteSize));
    assert_eq!(decode_from_bytes(&[0xbf]), Err(DecodeError::IndefiniteSize));
}

#[test]
fn reserved_head_rejected() {
    assert_eq!(decode_from_bytes(&[0x1c]), Err(DecodeError::Mismatch(0x1c)));
}

#[test]
fn truncated_input() {
    assert_eq!(decode_from_bytes(&[]), Err(DecodeError::Eof));
    assert_eq!(decode_from_bytes(&[0x18]), Err(DecodeError::Eof));
    assert_eq!(decode_from_bytes(&[0x81]), Err(DecodeError::Eof));
    assert_eq!(decode_from_bytes(&[0x62, b'a']), Err(DecodeError::Eof));
    assert_eq!(decode_from_bytes(&[0xfb, 0, 0]), Err(DecodeError::Eof));
}

#[test]
fn tags() {
    // only tag 42 is accepted
    assert_eq!(decode_from_bytes(&[0xc1, 0x00]), Err(DecodeError::UnknownTag(1)));
    assert_eq!(
        decode_from_bytes(&[0xd8, 0x2b, 0x41, 0x00]),
        Err(DecodeError::UnknownTag(43))
    );
    // tag 42 must wrap a byte string
    assert_eq!(decode_from_bytes(&[0xd8, 0x2a, 0x00]), Err(DecodeError::TagPayloadNotByteString));
    // whose contents start with the multibase identity byte
    assert_eq!(decode_from_bytes(&[0xd8, 0x2a, 0x41, 0x01]), Err(DecodeError::CidPrefixMissing));
    assert_eq!(decode_from_bytes(&[0xd8, 0x2a, 0x40]), Err(DecodeError::CidPrefixMissing));
    // and then form a valid record
    assert_eq!(
        decode_from_bytes(&[0xd8, 0x2a, 0x44, 0x00, 0x02, 0x55, 0x12]),
        Err(DecodeError::InvalidCid(CidParseError::InvalidCidVersion(2)))
    );
}

#[test]
fn cid_as_tag_42() {
    let c = Cid::digest_sha2(Codec::Raw, b"foo");
    let record = c.as_bytes();
    assert_eq!(record.len(), 36);
    let mut bytes = vec![0xd8, 0x2a, 0x58, 0x25, 0x00];
    bytes.extend_from_slice(&record);
    let decoded = decode_from_bytes(&bytes).unwrap();
    assert_eq!(decoded, Value::Cid(Cid::from_bytes_raw(&record).unwrap()));
    // and the encoder writes the same bytes back
    assert_eq!(enc(&decoded), bytes);
}

#[test]
fn trailing_data() {
    let input = [0xa0, 0x00];
    assert_eq!(decode_from_bytes(&input), Err(DecodeError::TrailingData));

    let mut stream = StreamDecoder::new(input.to_vec());
    assert_eq!(stream.next_value(), Some(Ok(Value::Mapping(Vec::new()))));
    assert_eq!(stream.next_value(), Some(Ok(Value::Integer(0))));
    assert_eq!(stream.next_value(), None);
}

#[test]
fn streaming_concatenation() {
    let v1 = Value::Array(vec![Value::Integer(1), Value::Text("x".to_string())]);
    let v2 = Value::Null;
    let v3 = Value::Bytes(vec![9, 9]);
    let mut bytes = enc(&v1);
    bytes.extend_from_slice(&enc(&v2));
    bytes.extend_from_slice(&enc(&v3));
    let mut stream = StreamDecoder::new(bytes);
    assert_eq!(stream.next_value(), Some(Ok(v1)));
    assert_eq!(stream.next_value(), Some(Ok(v2)));
    assert_eq!(stream.next_value(), Some(Ok(v3)));
    assert_eq!(stream.next_value(), None);
}

#[test]
fn streaming_surfaces_errors() {
    let mut stream = StreamDecoder::new(vec![0x00, 0x18, 0x17, 0x00]);
    assert_eq!(stream.next_value(), Some(Ok(Value::Integer(0))));
    assert_eq!(stream.next_value(), Some(Err(DecodeError::NonMinimal)));
    assert_eq!(stream.next_value(), None);
}

#[test]
fn depth_limit() {
    // 129 nested arrays: one more than the budget of 128
    let mut too_deep = vec![0x81u8; 128];
    too_deep.push(0x80);
    assert_eq!(decode_from_bytes(&too_deep), Err(DecodeError::DepthOverflow));

    // 128 nested arrays decode and round-trip
    let mut at_limit = vec![0x81u8; 127];
    at_limit.push(0x80);
    let v = decode_from_bytes(&at_limit).unwrap();
    assert_eq!(enc(&v), at_limit);
}

#[test]
fn encode_decode_round_trip_nested() {
    let mut entries = Vec::new();
    entries = Value::map_set(entries, "list".to_string(), Value::Array(vec![
        Value::Integer(-60),
        Value::Integer(3000),
        Value::Bool(true),
    ]));
    entries = Value::map_set(entries, "name".to_string(), Value::Text("test".to_string()));
    entries = Value::map_set(
        entries,
        "id".to_string(),
        Value::Cid(Cid::digest_blake3(Codec::Drisl, b"payload")),
    );
    entries = Value::map_set(entries, "blob".to_string(), Value::Bytes(b"test byte string".to_vec()));
    let v = Value::Mapping(entries);

    let bytes = enc(&v);
    // two independent calls yield identical bytes
    assert_eq!(bytes, enc(&v));
    let back = decode_from_bytes(&bytes).unwrap();
    assert_eq!(back, v);
    // decoding then re-encoding reproduces the input byte for byte
    assert_eq!(enc(&back), bytes);
}

#[test]
fn array_round_trip() {
    let v = Value::Array(vec![
        Value::Text("one".to_string()),
        Value::Text("two".to_string()),
        Value::Text("three".to_string()),
    ]);
    let bytes = enc(&v);
    assert_eq!(bytes[0], 0x83);
    assert_eq!(decode_from_bytes(&bytes).unwrap(), v);
}
