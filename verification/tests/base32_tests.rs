use dasl::base32;

#[test]
fn encode_rfc_vectors() {
    assert_eq!(base32::encode(b""), b"");
    assert_eq!(base32::encode(b"f"), b"my");
    assert_eq!(base32::encode(b"fo"), b"mzxq");
    assert_eq!(base32::encode(b"foo"), b"mzxw6");
    assert_eq!(base32::encode(b"foob"), b"mzxw6yq");
    assert_eq!(base32::encode(b"fooba"), b"mzxw6ytb");
    assert_eq!(base32::encode(b"foobar"), b"mzxw6ytboi");
}

#[test]
fn decode_round_trip() {
    for input in [
        &b""[..],
        b"f",
        b"fo",
        b"foo",
        b"foob",
        b"fooba",
        b"foobar",
        b"\x00\xff\x10\x88\x99\xaa\xbb\xcc\xdd\xee",
    ] {
        let enc = base32::encode(input);
        let dec = base32::decode(&enc).expect("canonical text must decode");
        assert_eq!(dec, input);
    }
}

#[test]
fn decode_accepts_upper_case() {
    assert_eq!(base32::decode(b"MZXW6"), Some(b"foo".to_vec()));
    assert_eq!(base32::decode(b"MzXw6"), Some(b"foo".to_vec()));
}

#[test]
fn decode_rejects() {
    // a symbol outside the alphabet
    assert_eq!(base32::decode(b"mzx1"), None);
    assert_eq!(base32::decode(b"m z"), None);
    // impossible lengths: 1, 3, 6 symbols over the last group
    assert_eq!(base32::decode(b"m"), None);
    assert_eq!(base32::decode(b"mzx"), None);
    assert_eq!(base32::decode(b"mzxw6y"), None);
    // a set trailing bit: 'b' = 1 leaves non-zero padding after one byte
    assert_eq!(base32::decode(b"mb"), None);
}
