use dasl::cid::{Cid, CidParseError, Codec, Multihash, MultihashParseError, ParseCodecError};

#[test]
fn test_base_sha2_256() {
    // Sha2 256: "foo"
    let cid_str = "bafkreibme22gw2h7y2h7tg2fhqotaqjucnbc24deqo72b6mkl2egezxhvy";
    let parsed: Cid = cid_str.parse().unwrap();
    assert_eq!(parsed.codec(), Codec::Raw);
    assert!(matches!(parsed.multihash_type(), Multihash::Sha2256));

    let cid_str_back = parsed.to_string();
    assert_eq!(cid_str_back, cid_str);
}

#[test]
fn test_base_blake3() {
    // Blake3: "foo"
    let cid_str = "bafkr4iae4c5tt4yldi76xcpvg3etxykqkvec352im5fqbutolj2xo5yc5e";
    let parsed: Cid = cid_str.parse().unwrap();
    assert_eq!(parsed.codec(), Codec::Raw);
    assert!(matches!(parsed.multihash_type(), Multihash::Blake3));

    let cid_str_back = parsed.to_string();
    assert_eq!(cid_str_back, cid_str);
}

#[test]
fn test_digest_sha2_256() {
    let cid_str = "bafkreibme22gw2h7y2h7tg2fhqotaqjucnbc24deqo72b6mkl2egezxhvy";
    assert_eq!(Cid::digest_sha2(Codec::Raw, b"foo").to_string(), cid_str);
}

#[test]
fn test_digest_blake3() {
    let cid_str = "bafkr4iae4c5tt4yldi76xcpvg3etxykqkvec352im5fqbutolj2xo5yc5e";
    assert_eq!(Cid::digest_blake3(Codec::Raw, b"foo").to_string(), cid_str);
}

#[test]
fn digest_calls_agree() {
    // the digest depends on the codec byte and data alone
    let a = Cid::digest_sha2(Codec::Raw, b"foo");
    let b = Cid::digest_sha2(Codec::Raw, b"foo");
    assert_eq!(a, b);
    let c = Cid::digest_blake3(Codec::Drisl, b"bar");
    let d = Cid::digest_blake3(Codec::Drisl, b"bar");
    assert_eq!(c, d);
    assert_ne!(a.as_bytes(), c.as_bytes());
}

#[test]
fn bytes_round_trip() {
    let c = Cid::digest_sha2(Codec::Drisl, b"hello world");
    let raw = c.as_bytes();
    assert_eq!(raw.len(), 36);
    assert_eq!(raw[0], 1);
    assert_eq!(raw[1], 0x71);
    assert_eq!(raw[2], 0x12);
    assert_eq!(raw[3], 32);
    let back = Cid::from_bytes_raw(&raw).unwrap();
    assert_eq!(back, c);

    let mut with_prefix = vec![0u8];
    with_prefix.extend_from_slice(&raw);
    let back2 = Cid::from_bytes(&with_prefix).unwrap();
    assert_eq!(back2, c);
}

#[test]
fn text_round_trip() {
    let c = Cid::digest_blake3(Codec::Raw, b"some data");
    let s = c.to_string();
    let back = Cid::parse(&s).unwrap();
    assert_eq!(back, c);
}

#[test]
fn empty_cids() {
    let e = Cid::empty_sha2_256(Codec::Raw);
    assert_eq!(e.as_bytes(), vec![1u8, 0x55, 0x12, 0]);
    assert!(e.hash().is_empty());
    let back = Cid::from_bytes_raw(&e.as_bytes()).unwrap();
    assert_eq!(back, e);
    let s = e.to_string();
    let back2: Cid = s.parse().unwrap();
    assert_eq!(back2, e);

    let b = Cid::empty_blake3(Codec::Drisl);
    assert_eq!(b.as_bytes(), vec![1u8, 0x71, 0x1e, 0]);
    assert!(matches!(b.multihash_type(), Multihash::Blake3));
    assert_eq!(b.codec(), Codec::Drisl);
}

#[test]
fn hash_accessor() {
    let c = Cid::digest_sha2(Codec::Raw, b"foo");
    let h = c.hash();
    assert_eq!(h.len(), 32);
    assert_eq!(&c.as_bytes()[4..], &h[..]);
}

#[test]
fn parse_errors() {
    // no multibase prefix
    assert_eq!(
        Cid::parse("zafkreibme22gw2h7y2h7tg2fhqotaqjucnbc24deqo72b6mkl2egezxhvy"),
        Err(CidParseError::InvalidEncoding)
    );
    // a symbol outside the base32 alphabet
    assert_eq!(Cid::parse("b0000"), Err(CidParseError::InvalidEncoding));
    // too short a record
    assert_eq!(Cid::parse("b"), Err(CidParseError::TooShort));
    assert_eq!(Cid::from_bytes_raw(&[1, 0x55]), Err(CidParseError::TooShort));
    // bad version
    assert_eq!(
        Cid::from_bytes_raw(&[2, 0x55, 0x12, 0]),
        Err(CidParseError::InvalidCidVersion(2))
    );
    // unknown codec
    assert_eq!(
        Cid::from_bytes_raw(&[1, 0x56, 0x12, 0]),
        Err(CidParseError::InvalidCodec(ParseCodecError::UnknownCodec(0x56)))
    );
    // unknown hash code
    assert_eq!(
        Cid::from_bytes_raw(&[1, 0x55, 0x13, 0]),
        Err(CidParseError::InvalidMultihash(MultihashParseError::UnknownHash(0x13)))
    );
    // a record with length-prefix bytes missing altogether
    assert_eq!(
        Cid::from_bytes_raw(&[1, 0x55, 0x12]),
        Err(CidParseError::InvalidMultihash(MultihashParseError::InvalidLengthPrefix))
    );
    // a hash length that is neither 0 nor 32
    assert_eq!(
        Cid::from_bytes_raw(&[1, 0x55, 0x12, 7]),
        Err(CidParseError::InvalidMultihash(MultihashParseError::InvalidLengthPrefix))
    );
    // empty form with trailing bytes
    assert_eq!(
        Cid::from_bytes_raw(&[1, 0x55, 0x12, 0, 9]),
        Err(CidParseError::InvalidMultihash(MultihashParseError::InvalidLength(5)))
    );
    // present form with a short hash
    assert_eq!(
        Cid::from_bytes_raw(&[1, 0x55, 0x12, 32, 9]),
        Err(CidParseError::InvalidMultihash(MultihashParseError::InvalidLength(5)))
    );
    // over-long record
    assert_eq!(
        Cid::from_bytes_raw(&[0u8; 40]),
        Err(CidParseError::InvalidMultihash(MultihashParseError::InvalidLength(40)))
    );
    // from_bytes wants the identity prefix
    assert_eq!(Cid::from_bytes(&[]), Err(CidParseError::TooShort));
    assert_eq!(Cid::from_bytes(&[1, 1, 0x55, 0x12, 0]), Err(CidParseError::InvalidEncoding));
}

#[test]
fn ordering() {
    let e = Cid::empty_sha2_256(Codec::Raw);
    let d = Cid::digest_sha2(Codec::Raw, b"foo");
    // the empty form zero-pads its hash bytes, so it sorts below any digest
    assert!(e < d);
    assert!(d > e);
    assert_eq!(e.partial_cmp(&e), Some(std::cmp::Ordering::Equal));
    let raw = Cid::digest_sha2(Codec::Raw, b"foo");
    let drisl = Cid::digest_sha2(Codec::Drisl, b"foo");
    // 0x55 before 0x71 in the codec byte
    assert!(raw < drisl);
}

#[test]
fn byte_tables() {
    assert!(matches!(Codec::try_from(0x55), Ok(Codec::Raw)));
    assert!(matches!(Codec::try_from(0x71), Ok(Codec::Drisl)));
    assert_eq!(Codec::try_from(0x13), Err(ParseCodecError::UnknownCodec(0x13)));
    assert!(matches!(Multihash::try_from(0x12), Ok(Multihash::Sha2256)));
    assert!(matches!(Multihash::try_from(0x1e), Ok(Multihash::Blake3)));
    assert_eq!(Multihash::try_from(0x55), Err(MultihashParseError::UnknownHash(0x55)));
}
