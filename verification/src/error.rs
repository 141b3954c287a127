//! Errors of the DRISL codec.

use vstd::prelude::*;

use crate::cid::CidParseError;

verus! {

/// Why a value refuses to encode.
#[derive(Debug, Clone, Copy, PartialEq, Eq, Structural)]
pub enum EncodeError {
    /// An integer outside `[-2^64, 2^64 - 1]`.
    IntegerOutOfRange,
    /// A signalling NaN.
    SignallingNan,
}

/// Why a byte sequence refuses to decode.
#[derive(Debug, Clone, Copy, PartialEq, Eq, Structural)]
pub enum DecodeError {
    /// The input ends inside an item.
    Eof,
    /// A head byte with a reserved additional-information value.
    Mismatch(u8),
    /// An integer or length written in a longer form than needed.
    NonMinimal,
    /// An indefinite-length item or a break marker.
    IndefiniteSize,
    /// A half- or single-precision float.
    HalfOrSinglePrecisionFloat,
    /// A NaN other than the canonical quiet NaN.
    NonCanonicalNaN,
    /// A tag other than 42.
    UnknownTag(u64),
    /// Tag 42 wrapping something other than a byte string.
    TagPayloadNotByteString,
    /// Tag 42 contents not starting with the multibase identity byte.
    CidPrefixMissing,
    /// Tag 42 contents that are not a CID record.
    InvalidCid(CidParseError),
    /// A map key that is not a text string.
    NonTextMapKey,
    /// A map key below its predecessor.
    UnsortedMapKey,
    /// A map key repeated.
    DuplicateMapKey,
    /// Text bytes that are not valid UTF-8.
    InvalidUtf8,
    /// A simple value other than false, true, null.
    UnsupportedSimpleValue(u8),
    /// Nesting beyond the depth limit.
    DepthOverflow,
    /// Bytes after the first complete item.
    TrailingData,
}

/// Encode and decode errors combined.
#[derive(Debug, Clone, Copy, PartialEq, Eq, Structural)]
pub enum CodecError {
    Decode(DecodeError),
    Encode(EncodeError),
}

impl From<DecodeError> for CodecError {
    fn from(error: DecodeError) -> (r: CodecError) {
        CodecError::Decode(error)
    }
}

impl vstd::std_specs::convert::FromSpecImpl<DecodeError> for CodecError {
    open spec fn obeys_from_spec() -> bool {
        true
    }

    open spec fn from_spec(e: DecodeError) -> CodecError {
        CodecError::Decode(e)
    }
}

impl From<EncodeError> for CodecError {
    fn from(error: EncodeError) -> (r: CodecError) {
        CodecError::Encode(error)
    }
}

impl vstd::std_specs::convert::FromSpecImpl<EncodeError> for CodecError {
    open spec fn obeys_from_spec() -> bool {
        true
    }

    open spec fn from_spec(e: EncodeError) -> CodecError {
        CodecError::Encode(e)
    }
}

} // verus!
