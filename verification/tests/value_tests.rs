use dasl::cid::{Cid, Codec};
use dasl::decode::decode_from_bytes;
use dasl::encode::encode_to_bytes;
use dasl::error::{CodecError, DecodeError, EncodeError};
use dasl::value::{clone_value, Value};

#[test]
fn conversions() {
    assert_eq!(Value::from(true), Value::Bool(true));
    assert_eq!(Value::from(7u32), Value::Integer(7));
    assert_eq!(Value::from(7u64), Value::Integer(7));
    assert_eq!(Value::from(-7i32), Value::Integer(-7));
    assert_eq!(Value::from(-7i64), Value::Integer(-7));
    assert_eq!(Value::from(-7i128), Value::Integer(-7));
    assert_eq!(Value::from("hi".to_string()), Value::Text("hi".to_string()));
    assert_eq!(Value::from(vec![1u8, 2]), Value::Bytes(vec![1, 2]));
    let c = Cid::digest_sha2(Codec::Raw, b"x");
    assert_eq!(Value::from(c.clone()), Value::Cid(c));
}

#[test]
fn combined_errors() {
    assert_eq!(
        CodecError::from(DecodeError::TrailingData),
        CodecError::Decode(DecodeError::TrailingData)
    );
    assert_eq!(
        CodecError::from(EncodeError::SignallingNan),
        CodecError::Encode(EncodeError::SignallingNan)
    );
}

#[test]
fn deep_clone() {
    let mut entries = Vec::new();
    entries = Value::map_set(entries, "a".to_string(), Value::Array(vec![Value::Integer(1)]));
    let v = Value::Mapping(entries);
    let w = clone_value(&v);
    assert_eq!(v, w);
    assert_eq!(encode_to_bytes(&v).unwrap(), encode_to_bytes(&w).unwrap());
}

#[test]
fn decoded_value_reencodes_identically() {
    // a value of every kind, decoded and written back byte for byte
    let bytes: Vec<u8> = vec![
        0xa3, // map of 3
        0x61, b'a', 0x84, 0x01, 0x20, 0xf5, 0xf6, // "a": [1, -1, true, null]
        0x61, b'b', 0xfb, 0x40, 0x09, 0x21, 0xfb, 0x54, 0x44, 0x2d, 0x18, // "b": a float
        0x61, b'c', 0x42, 0xde, 0xad, // "c": two bytes
    ];
    let v = decode_from_bytes(&bytes).unwrap();
    assert_eq!(encode_to_bytes(&v).unwrap(), bytes);
}
