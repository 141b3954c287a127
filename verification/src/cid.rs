//! CIDs (content identifiers) address a resource by a hash of its contents
//! plus a little metadata.
//!
//! The logical record is 4 bytes of prefix — version (always 1), codec,
//! hash code, hash length — followed by the 32 hash bytes, or by nothing
//! when the hash length byte is 0 (the "empty" form).

use sha2::Digest;
use vstd::prelude::*;
use vstd::string::StringSliceAdditionalSpecFns;

use crate::base32;

verus! {

/// Interpretation of the payload a CID addresses.
#[derive(Debug, Clone, Copy, PartialEq, Eq, Structural)]
pub enum Codec {
    Raw,
    Drisl,
}

/// Hash family of the digest a CID carries.
#[derive(Debug, Clone, Copy, PartialEq, Eq, Structural)]
pub enum Multihash {
    Sha2256,
    Blake3,
}

/// The wire byte that names a codec.
pub open spec fn codec_byte(c: Codec) -> u8 {
    match c {
        Codec::Raw => 0x55,
        Codec::Drisl => 0x71,
    }
}

/// The wire byte that names a hash family.
pub open spec fn hash_code_byte(m: Multihash) -> u8 {
    match m {
        Multihash::Sha2256 => 0x12,
        Multihash::Blake3 => 0x1e,
    }
}

#[derive(Debug, Clone, Copy, PartialEq, Eq, Structural)]
pub enum ParseCodecError {
    UnknownCodec(u8),
}

#[derive(Debug, Clone, Copy, PartialEq, Eq, Structural)]
pub enum MultihashParseError {
    InvalidLength(usize),
    UnknownHash(u8),
    InvalidLengthPrefix,
}

#[derive(Debug, Clone, Copy, PartialEq, Eq, Structural)]
pub enum CidParseError {
    InvalidEncoding,
    TooShort,
    InvalidCidVersion(u8),
    InvalidCodec(ParseCodecError),
    InvalidMultihash(MultihashParseError),
}

/// A content identifier.
///
/// `data` always holds 36 bytes: the 4-byte prefix and room for the 32 hash
/// bytes, which are all zero in the empty form.
#[derive(Debug)]
pub struct Cid {
    data: Vec<u8>,
}

impl Clone for Cid {
    fn clone(&self) -> (r: Cid)
        ensures
            r@ == self@,
    {
        proof {
            use_type_invariant(self);
        }
        Cid { data: self.data.clone() }
    }
}

impl View for Cid {
    type V = Seq<u8>;

    closed spec fn view(&self) -> Seq<u8> {
        self.data@
    }
}

/// The logical record of a CID: 4 bytes in the empty form, 36 otherwise.
pub open spec fn spec_record(c: Seq<u8>) -> Seq<u8> {
    if c[3] == 0 {
        c.take(4)
    } else {
        c
    }
}

/// The shape of the 36-byte form every `Cid` keeps: version 1, a known
/// codec and hash code, a hash length of 0 or 32, and zeroed hash bytes in
/// the empty form.
pub open spec fn cid_seq_wf(c: Seq<u8>) -> bool {
    &&& c.len() == 36

    &&& c[0] == 1

    &&& (c[1] == 0x55 || c[1] == 0x71)

    &&& (c[2] == 0x12 || c[2] == 0x1e)

    &&& (c[3] == 0 || c[3] == 32)

    &&& (c[3] == 0 ==> forall|j: int| 4 <= j < 36 ==> c[j] == 0)
}

impl Cid {
    /// Every constructor establishes this and every method keeps it.
    #[verifier::type_invariant]
    pub closed spec fn wf(self) -> bool {
        cid_seq_wf(self@)
    }
}

/// Element-wise comparison of two byte vectors.
fn bytes_eq(a: &Vec<u8>, b: &Vec<u8>) -> (r: bool)
    ensures
        r == (a@ == b@),
{
    if a.len() != b.len() {
        return false;
    }
    let mut j: usize = 0;
    while j < a.len()
        invariant
            j <= a.len(),
            a@.len() == b@.len(),
            forall|k: int| 0 <= k < j ==> a@[k] == b@[k],
        decreases a.len() - j,
    {
        if a[j] != b[j] {
            return false;
        }
        j = j + 1;
    }
    proof {
        assert(a@ =~= b@);
    }
    true
}

impl PartialEq for Cid {
    fn eq(&self, other: &Cid) -> (r: bool) {
        bytes_eq(&self.data, &other.data)
    }
}

impl Eq for Cid {

}

impl vstd::std_specs::cmp::PartialEqSpecImpl for Cid {
    open spec fn obeys_eq_spec() -> bool {
        true
    }

    open spec fn eq_spec(&self, other: &Cid) -> bool {
        self@ == other@
    }
}

impl PartialOrd for Cid {
    fn partial_cmp(&self, other: &Cid) -> (r: Option<core::cmp::Ordering>) {
        proof {
            use_type_invariant(self);
            use_type_invariant(other);
            crate::value::lemma_key_lt_asym(other@, self@);
        }
        let c = crate::value::key_cmp(self.data.as_slice(), other.data.as_slice());
        if c == -1 {
            Some(core::cmp::Ordering::Less)
        } else if c == 0 {
            Some(core::cmp::Ordering::Equal)
        } else {
            Some(core::cmp::Ordering::Greater)
        }
    }
}

impl vstd::std_specs::cmp::PartialOrdSpecImpl for Cid {
    open spec fn obeys_partial_cmp_spec() -> bool {
        true
    }

    /// Byte-lexicographic on the 36-byte form, which orders the logical
    /// records the same way.
    open spec fn partial_cmp_spec(&self, other: &Cid) -> Option<core::cmp::Ordering> {
        if self@ == other@ {
            Some(core::cmp::Ordering::Equal)
        } else if crate::value::key_lt(self@, other@) {
            Some(core::cmp::Ordering::Less)
        } else {
            Some(core::cmp::Ordering::Greater)
        }
    }
}

impl Codec {
    /// The codec a wire byte names, if any.
    pub fn try_from(value: u8) -> (r: Result<Codec, ParseCodecError>)
        ensures
            match r {
                Ok(c) => codec_byte(c) == value,
                Err(e) => e == ParseCodecError::UnknownCodec(value) && value != 0x55 && value
                    != 0x71,
            },
    {
        match value {
            0x55 => Ok(Codec::Raw),
            0x71 => Ok(Codec::Drisl),
            _ => Err(ParseCodecError::UnknownCodec(value)),
        }
    }
}

impl Multihash {
    /// The hash family a wire byte names, if any.
    pub fn try_from(value: u8) -> (r: Result<Multihash, MultihashParseError>)
        ensures
            match r {
                Ok(m) => hash_code_byte(m) == value,
                Err(e) => e == MultihashParseError::UnknownHash(value) && value != 0x12 && value
                    != 0x1e,
            },
    {
        match value {
            0x12 => Ok(Multihash::Sha2256),
            0x1e => Ok(Multihash::Blake3),
            _ => Err(MultihashParseError::UnknownHash(value)),
        }
    }
}

/// The 4-byte prefix followed by 32 copies of `fill`.
fn prefix_with_fill(codec: u8, hash_code: u8, len_byte: u8, fill: &[u8]) -> (r: Vec<u8>)
    requires
        fill@.len() == 32,
    ensures
        r@ == seq![1u8, codec, hash_code, len_byte] + fill@,
{
    let mut data: Vec<u8> = Vec::new();
    data.push(1);
    data.push(codec);
    data.push(hash_code);
    data.push(len_byte);
    let mut j: usize = 0;
    while j < 32
        invariant
            j <= 32,
            fill@.len() == 32,
            data@ == seq![1u8, codec, hash_code, len_byte] + fill@.take(j as int),
        decreases 32 - j,
    {
        data.push(fill[j]);
        j = j + 1;
        proof {
            assert(seq![1u8, codec, hash_code, len_byte] + fill@.take(j as int) =~= (seq![
                1u8,
                codec,
                hash_code,
                len_byte,
            ] + fill@.take(j - 1)).push(fill@[j - 1]));
        }
    }
    proof {
        assert(fill@.take(32) =~= fill@);
        assert(seq![1u8, codec, hash_code, len_byte] + fill@.take(0) =~= seq![
            1u8,
            codec,
            hash_code,
            len_byte,
        ]);
    }
    data
}

/// 32 zero bytes.
fn zeros32() -> (r: Vec<u8>)
    ensures
        r@.len() == 32,
        forall|j: int| 0 <= j < 32 ==> r@[j] == 0,
{
    let mut v: Vec<u8> = Vec::new();
    let mut j: usize = 0;
    while j < 32
        invariant
            j <= 32,
            v@.len() == j,
            forall|k: int| 0 <= k < j ==> v@[k] == 0,
        decreases 32 - j,
    {
        v.push(0);
        j = j + 1;
    }
    v
}

impl Cid {
    /// The hash bytes of this CID: empty in the empty form, 32 bytes else.
    pub fn hash(&self) -> (r: Vec<u8>)
        ensures
            r@ == if self@[3] == 0 {
                Seq::<u8>::empty()
            } else {
                self@.skip(4)
            },
    {
        proof {
            use_type_invariant(self);
        }
        let mut r: Vec<u8> = Vec::new();
        if self.data[3] == 0 {
            return r;
        }
        proof {
            assert(r@ =~= self@.subrange(4, 4));
        }
        let mut j: usize = 4;
        while j < 36
            invariant
                cid_seq_wf(self@),
                4 <= j <= 36,
                r@ == self@.subrange(4, j as int),
            decreases 36 - j,
        {
            r.push(self.data[j]);
            j = j + 1;
            proof {
                assert(self@.subrange(4, j as int) =~= self@.subrange(4, j - 1).push(
                    self@[j - 1],
                ));
            }
        }
        proof {
            assert(self@.subrange(4, 36) =~= self@.skip(4));
        }
        r
    }

    /// The hash family named in this CID's third byte.
    pub fn multihash_type(&self) -> (r: Multihash)
        ensures
            hash_code_byte(r) == self@[2],
    {
        proof {
            use_type_invariant(self);
        }
        if self.data[2] == 0x12 {
            Multihash::Sha2256
        } else {
            Multihash::Blake3
        }
    }

    /// The codec named in this CID's second byte.
    pub fn codec(&self) -> (r: Codec)
        ensures
            codec_byte(r) == self@[1],
    {
        proof {
            use_type_invariant(self);
        }
        if self.data[1] == 0x55 {
            Codec::Raw
        } else {
            Codec::Drisl
        }
    }

    /// The logical record: the prefix alone in the empty form, all 36 bytes
    /// otherwise.
    pub fn as_bytes(&self) -> (r: Vec<u8>)
        ensures
            r@ == spec_record(self@),
            cid_seq_wf(self@),
    {
        proof {
            use_type_invariant(self);
        }
        let mut r: Vec<u8> = Vec::new();
        let end: usize = if self.data[3] == 0 {
            4
        } else {
            36
        };
        proof {
            assert(r@ =~= self@.subrange(0, 0));
        }
        let mut j: usize = 0;
        while j < end
            invariant
                cid_seq_wf(self@),
                end == if self@[3] == 0 {
                    4int
                } else {
                    36int
                },
                j <= end,
                r@ == self@.subrange(0, j as int),
            decreases end - j,
        {
            r.push(self.data[j]);
            j = j + 1;
            proof {
                assert(self@.subrange(0, j as int) =~= self@.subrange(0, j - 1).push(
                    self@[j - 1],
                ));
            }
        }
        proof {
            assert(self@.subrange(0, 36) =~= self@);
            assert(self@.subrange(0, 4) =~= self@.take(4));
        }
        r
    }

    /// A 4-byte CID naming the SHA2-256 family with no hash present.
    pub fn empty_sha2_256(codec: Codec) -> (r: Cid)
        ensures
            cid_seq_wf(r@),
            r@ == seq![1u8, codec_byte(codec), 0x12u8, 0u8] + Seq::new(32, |j: int| 0u8),
    {
        let cb = if matches!(codec, Codec::Raw) {
            0x55
        } else {
            0x71
        };
        let z = zeros32();
        let data = prefix_with_fill(cb, 0x12, 0, z.as_slice());
        let r = Cid { data };
        proof {
            assert(z@ =~= Seq::new(32, |j: int| 0u8));
        }
        r
    }

    /// A 4-byte CID naming the BLAKE3 family with no hash present.
    pub fn empty_blake3(codec: Codec) -> (r: Cid)
        ensures
            cid_seq_wf(r@),
            r@ == seq![1u8, codec_byte(codec), 0x1eu8, 0u8] + Seq::new(32, |j: int| 0u8),
    {
        let cb = if matches!(codec, Codec::Raw) {
            0x55
        } else {
            0x71
        };
        let z = zeros32();
        let data = prefix_with_fill(cb, 0x1e, 0, z.as_slice());
        let r = Cid { data };
        proof {
            assert(z@ =~= Seq::new(32, |j: int| 0u8));
        }
        r
    }
}

/// What decoding a raw CID record yields: the full 36-byte form, or the
/// first failing check of §the record layout — length, version, codec,
/// hash code, hash length, in that order.
pub open spec fn spec_from_bytes_raw(bs: Seq<u8>) -> Result<Seq<u8>, CidParseError> {
    if bs.len() < 3 {
        Err(CidParseError::TooShort)
    } else if bs.len() > 36 {
        Err(CidParseError::InvalidMultihash(MultihashParseError::InvalidLength(bs.len() as usize)))
    } else if bs[0] != 1 {
        Err(CidParseError::InvalidCidVersion(bs[0]))
    } else if bs[1] != 0x55 && bs[1] != 0x71 {
        Err(CidParseError::InvalidCodec(ParseCodecError::UnknownCodec(bs[1])))
    } else if bs[2] != 0x12 && bs[2] != 0x1e {
        Err(CidParseError::InvalidMultihash(MultihashParseError::UnknownHash(bs[2])))
    } else if bs.len() == 3 {
        Err(CidParseError::InvalidMultihash(MultihashParseError::InvalidLengthPrefix))
    } else if bs[3] == 0 {
        if bs.len() > 4 {
            Err(
                CidParseError::InvalidMultihash(
                    MultihashParseError::InvalidLength(bs.len() as usize),
                ),
            )
        } else {
            Ok(bs + Seq::new(32, |j: int| 0u8))
        }
    } else if bs[3] == 32 {
        if bs.len() != 36 {
            Err(
                CidParseError::InvalidMultihash(
                    MultihashParseError::InvalidLength(bs.len() as usize),
                ),
            )
        } else {
            Ok(bs)
        }
    } else {
        Err(CidParseError::InvalidMultihash(MultihashParseError::InvalidLengthPrefix))
    }
}

/// What decoding a multibase-prefixed binary CID yields: a leading zero
/// byte stripped, the rest as a raw record.
pub open spec fn spec_from_bytes(bs: Seq<u8>) -> Result<Seq<u8>, CidParseError> {
    if bs.len() == 0 {
        Err(CidParseError::TooShort)
    } else if bs[0] != 0 {
        Err(CidParseError::InvalidEncoding)
    } else {
        spec_from_bytes_raw(bs.skip(1))
    }
}

/// What parsing a textual CID yields: a leading `b`, then base32 of the
/// record.
pub open spec fn spec_parse_bytes(t: Seq<u8>) -> Result<Seq<u8>, CidParseError> {
    if t.len() == 0 || t[0] != 98 {
        Err(CidParseError::InvalidEncoding)
    } else {
        match base32::spec_decode(t.skip(1)) {
            None => Err(CidParseError::InvalidEncoding),
            Some(bs) => spec_from_bytes_raw(bs),
        }
    }
}

/// The first `n` bytes of a slice, copied.
fn take_vec(src: &[u8], n: usize) -> (r: Vec<u8>)
    requires
        n <= src@.len(),
    ensures
        r@ == src@.take(n as int),
{
    let mut r: Vec<u8> = Vec::new();
    proof {
        assert(r@ =~= src@.take(0));
    }
    let mut j: usize = 0;
    while j < n
        invariant
            j <= n <= src@.len(),
            r@ == src@.take(j as int),
        decreases n - j,
    {
        r.push(src[j]);
        j = j + 1;
        proof {
            assert(src@.take(j as int) =~= src@.take(j - 1).push(src@[j - 1]));
        }
    }
    r
}

impl Cid {
    /// Decodes a CID from its raw binary record.
    pub fn from_bytes_raw(bytes: &[u8]) -> (r: Result<Cid, CidParseError>)
        ensures
            match r {
                Ok(c) => cid_seq_wf(c@) && spec_from_bytes_raw(bytes@) == Ok::<Seq<u8>, CidParseError>(c@),
                Err(e) => spec_from_bytes_raw(bytes@) == Err::<Seq<u8>, CidParseError>(e),
            },
    {
        if bytes.len() < 3 {
            return Err(CidParseError::TooShort);
        }
        if bytes.len() > 36 {
            return Err(
                CidParseError::InvalidMultihash(MultihashParseError::InvalidLength(bytes.len())),
            );
        }
        if bytes[0] != 1 {
            return Err(CidParseError::InvalidCidVersion(bytes[0]));
        }
        if bytes[1] != 0x55 && bytes[1] != 0x71 {
            return Err(CidParseError::InvalidCodec(ParseCodecError::UnknownCodec(bytes[1])));
        }
        if bytes[2] != 0x12 && bytes[2] != 0x1e {
            return Err(CidParseError::InvalidMultihash(MultihashParseError::UnknownHash(bytes[2])));
        }
        if bytes.len() == 3 {
            return Err(CidParseError::InvalidMultihash(MultihashParseError::InvalidLengthPrefix));
        }
        if bytes[3] == 0 {
            if bytes.len() > 4 {
                return Err(
                    CidParseError::InvalidMultihash(
                        MultihashParseError::InvalidLength(bytes.len()),
                    ),
                );
            }
            let mut data = take_vec(bytes, 4);
            let mut j: usize = 0;
            while j < 32
                invariant
                    j <= 32,
                    data@ == bytes@.take(4) + Seq::new(j as nat, |k: int| 0u8),
                decreases 32 - j,
            {
                data.push(0);
                j = j + 1;
                proof {
                    assert(bytes@.take(4) + Seq::new(j as nat, |k: int| 0u8) =~= (bytes@.take(4)
                        + Seq::new((j - 1) as nat, |k: int| 0u8)).push(0u8));
                }
            }
            let c = Cid { data };
            proof {
                assert(bytes@.take(4) =~= bytes@);
                assert(c@ =~= bytes@ + Seq::new(32, |k: int| 0u8));
            }
            Ok(c)
        } else if bytes[3] == 32 {
            if bytes.len() != 36 {
                return Err(
                    CidParseError::InvalidMultihash(
                        MultihashParseError::InvalidLength(bytes.len()),
                    ),
                );
            }
            let data = take_vec(bytes, 36);
            let c = Cid { data };
            proof {
                assert(c@ =~= bytes@);
            }
            Ok(c)
        } else {
            Err(CidParseError::InvalidMultihash(MultihashParseError::InvalidLengthPrefix))
        }
    }

    /// Decodes a CID from binary with a leading multibase identity byte.
    pub fn from_bytes(bytes: &[u8]) -> (r: Result<Cid, CidParseError>)
        ensures
            match r {
                Ok(c) => cid_seq_wf(c@) && spec_from_bytes(bytes@) == Ok::<Seq<u8>, CidParseError>(c@),
                Err(e) => spec_from_bytes(bytes@) == Err::<Seq<u8>, CidParseError>(e),
            },
    {
        if bytes.len() == 0 {
            return Err(CidParseError::TooShort);
        }
        if bytes[0] != 0 {
            return Err(CidParseError::InvalidEncoding);
        }
        let (_, rest) = bytes.split_at(1);
        proof {
            assert(rest@ =~= bytes@.skip(1));
        }
        Self::from_bytes_raw(rest)
    }

    /// Parses a textual CID: `b` followed by base32 of the record.
    pub fn parse(s: &str) -> (r: Result<Cid, CidParseError>)
        ensures
            match r {
                Ok(c) => cid_seq_wf(c@) && spec_parse_bytes(s.spec_bytes()) == Ok::<
                    Seq<u8>,
                    CidParseError,
                >(c@),
                Err(e) => spec_parse_bytes(s.spec_bytes()) == Err::<Seq<u8>, CidParseError>(e),
            },
    {
        let tb = s.as_bytes();
        if tb.len() == 0 {
            return Err(CidParseError::InvalidEncoding);
        }
        if tb[0] != 98 {
            // not the base32 multibase prefix 'b'
            return Err(CidParseError::InvalidEncoding);
        }
        let (_, rest) = tb.split_at(1);
        proof {
            assert(rest@ =~= s.spec_bytes().skip(1));
        }
        match base32::decode(rest) {
            None => Err(CidParseError::InvalidEncoding),
            Some(v) => Self::from_bytes_raw(v.as_slice()),
        }
    }
}

impl core::str::FromStr for Cid {
    type Err = CidParseError;

    fn from_str(s: &str) -> (r: Result<Cid, CidParseError>) {
        Cid::parse(s)
    }
}

/// Relies on String::from_utf8: on valid UTF-8 input the returned String
/// holds exactly the given bytes.
#[verifier::external_body]
pub(crate) fn string_from_utf8(v: Vec<u8>) -> (r: String)
    requires
        vstd::utf8::valid_utf8(v@),
    ensures
        vstd::utf8::encode_utf8(r@) == v@,
{
    match String::from_utf8(v) {
        Ok(s) => s,
        Err(_) => String::new(),
    }
}

/// A sequence of bytes below 128 is valid UTF-8.
pub(crate) proof fn lemma_ascii_valid_utf8(bs: Seq<u8>)
    requires
        forall|j: int| 0 <= j < bs.len() ==> bs[j] < 128,
    ensures
        vstd::utf8::valid_utf8(bs),
{
    assert(bs.subrange(0, 0) =~= Seq::<u8>::empty());
    assert(vstd::utf8::partial_valid_utf8(bs, 0));
    assert forall|i: int|
        0 <= 0 <= i < bs.len() <= bs.len() implies #[trigger] vstd::utf8::is_leading_byte_width_1(
        bs[i],
    ) by {
        assert(bs[i] < 128);
    }
    vstd::utf8::partial_valid_utf8_extend_ascii_block(bs, 0, bs.len() as int);
    assert(bs.subrange(0, bs.len() as int) =~= bs);
}

impl Cid {
    /// The textual form: `b` followed by base32 of the logical record. The
    /// clause speaks of the string's UTF-8 bytes; every one of them is
    /// ASCII.
    pub fn to_string(&self) -> (r: String)
        ensures
            vstd::utf8::encode_utf8(r@) == seq![98u8] + base32::spec_encode(spec_record(self@)),
    {
        proof {
            use_type_invariant(self);
        }
        let rec = self.as_bytes();
        let e = base32::encode(rec.as_slice());
        let mut v: Vec<u8> = Vec::new();
        v.push(98);
        proof {
            assert(v@ =~= seq![98u8] + e@.take(0));
        }
        let mut j: usize = 0;
        while j < e.len()
            invariant
                j <= e@.len(),
                v@ == seq![98u8] + e@.take(j as int),
            decreases e.len() - j,
        {
            v.push(e[j]);
            j = j + 1;
            proof {
                assert(seq![98u8] + e@.take(j as int) =~= (seq![98u8] + e@.take(j - 1)).push(
                    e@[j - 1],
                ));
            }
        }
        proof {
            assert(e@.take(e@.len() as int) =~= e@);
            base32::lemma_encode_valid(rec@);
            assert forall|k: int| 0 <= k < v@.len() implies v@[k] < 128 by {
                if k >= 1 {
                    assert(base32::is_base32_char(e@[k - 1]));
                }
            }
            lemma_ascii_valid_utf8(v@);
        }
        string_from_utf8(v)
    }
}

/// Parsing a CID's textual form gives back the CID: with `t` the text bytes
/// `b` + base32(record), `spec_parse_bytes(t)` succeeds with the same CID.
pub proof fn lemma_text_roundtrip(c: Seq<u8>)
    requires
        cid_seq_wf(c),
    ensures
        spec_parse_bytes(seq![98u8] + base32::spec_encode(spec_record(c))) == Ok::<
            Seq<u8>,
            CidParseError,
        >(c),
{
    let rec = spec_record(c);
    let t = seq![98u8] + base32::spec_encode(rec);
    assert(t[0] == 98);
    assert(t.skip(1) =~= base32::spec_encode(rec));
    base32::lemma_decode_encode(rec);
    lemma_record_roundtrip(c);
}

/// Reading back a CID's own logical record gives back the CID.
pub proof fn lemma_record_roundtrip(c: Seq<u8>)
    requires
        cid_seq_wf(c),
    ensures
        spec_from_bytes_raw(spec_record(c)) == Ok::<Seq<u8>, CidParseError>(c),
{
    let rec = spec_record(c);
    if c[3] == 0 {
        assert(rec =~= c.take(4));
        assert(rec + Seq::new(32, |j: int| 0u8) =~= c);
    } else {
        assert(rec =~= c);
    }
}

/// A raw record that decodes successfully yields a well-formed 36-byte
/// form whose logical record is the input itself.
pub proof fn lemma_from_bytes_raw_wf(bs: Seq<u8>)
    requires
        spec_from_bytes_raw(bs) is Ok,
    ensures
        cid_seq_wf(spec_from_bytes_raw(bs)->Ok_0),
        spec_record(spec_from_bytes_raw(bs)->Ok_0) == bs,
{
    let full = spec_from_bytes_raw(bs)->Ok_0;
    if bs[3] == 0 {
        assert(full =~= bs + Seq::new(32, |j: int| 0u8));
        assert(spec_record(full) =~= bs);
    } else {
        assert(spec_record(full) =~= bs);
    }
}

/// The 32-byte SHA2-256 digest of a byte sequence; determined by the input
/// alone.
pub uninterp spec fn sha2_256_of(data: Seq<u8>) -> Seq<u8>;

/// The 32-byte BLAKE3 digest of a byte sequence; determined by the input
/// alone.
pub uninterp spec fn blake3_of(data: Seq<u8>) -> Seq<u8>;

/// Relies on sha2::Sha256::digest: a 32-byte digest, a function of the
/// input bytes alone.
#[verifier::external_body]
fn sha2_256(data: &[u8]) -> (r: Vec<u8>)
    ensures
        r@ == sha2_256_of(data@),
        r@.len() == 32,
{
    sha2::Sha256::digest(data).to_vec()
}

/// Relies on blake3::hash: a 32-byte digest, a function of the input bytes
/// alone.
#[verifier::external_body]
fn blake3_hash(data: &[u8]) -> (r: Vec<u8>)
    ensures
        r@ == blake3_of(data@),
        r@.len() == 32,
{
    blake3::hash(data).as_bytes().to_vec()
}

impl Cid {
    /// A CID over the SHA2-256 digest of `data`.
    pub fn digest_sha2(codec: Codec, data: &[u8]) -> (r: Cid)
        ensures
            cid_seq_wf(r@),
            r@ == seq![1u8, codec_byte(codec), 0x12u8, 32u8] + sha2_256_of(data@),
    {
        let h = sha2_256(data);
        let cb = if matches!(codec, Codec::Raw) {
            0x55
        } else {
            0x71
        };
        Cid { data: prefix_with_fill(cb, 0x12, 32, h.as_slice()) }
    }

    /// A CID over the BLAKE3 digest of `data`.
    pub fn digest_blake3(codec: Codec, data: &[u8]) -> (r: Cid)
        ensures
            cid_seq_wf(r@),
            r@ == seq![1u8, codec_byte(codec), 0x1eu8, 32u8] + blake3_of(data@),
    {
        let h = blake3_hash(data);
        let cb = if matches!(codec, Codec::Raw) {
            0x55
        } else {
            0x71
        };
        Cid { data: prefix_with_fill(cb, 0x1e, 32, h.as_slice()) }
    }
}

} // verus!
