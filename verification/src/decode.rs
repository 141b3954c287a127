//! The DRISL decoder: strict, canonical CBOR.
//!
//! `parse_value` is the specification: for every input position it names
//! either the value found there and the position after it, or the error.
//! The executable decoder returns exactly that. Any deviation from the
//! encoder's emission rules — longer-than-needed integer forms,
//! indefinite lengths, small floats, unknown tags or simple values,
//! unsorted or duplicate map keys, non-canonical NaNs — is refused.

use vstd::prelude::*;

use crate::error::DecodeError;
use crate::value::{canon_nan, is_nan_bits, key_lt, Val, Value};

verus! {

/// The default nesting budget: arrays, maps and tags may nest this deep.
pub const DEPTH_LIMIT: u32 = 128;

/// Reads the head's argument starting at the head byte `b[pos]`: the
/// argument value and the position after it, in the shortest form only.
pub open spec fn parse_arg(b: Seq<u8>, pos: int) -> Result<(u64, int), DecodeError>
    recommends
        0 <= pos < b.len(),
{
    let ai = b[pos] & 0x1f;
    if ai < 24 {
        Ok((ai as u64, pos + 1))
    } else if ai == 24 {
        if pos + 2 > b.len() {
            Err(DecodeError::Eof)
        } else {
            let x = b[pos + 1] as u64;
            if x < 24 {
                Err(DecodeError::NonMinimal)
            } else {
                Ok((x, pos + 2))
            }
        }
    } else if ai == 25 {
        if pos + 3 > b.len() {
            Err(DecodeError::Eof)
        } else {
            let x = ((b[pos + 1] as u64) << 8) | (b[pos + 2] as u64);
            if x < 0x100 {
                Err(DecodeError::NonMinimal)
            } else {
                Ok((x, pos + 3))
            }
        }
    } else if ai == 26 {
        if pos + 5 > b.len() {
            Err(DecodeError::Eof)
        } else {
            let x = ((b[pos + 1] as u64) << 24) | ((b[pos + 2] as u64) << 16) | ((b[pos
                + 3] as u64) << 8) | (b[pos + 4] as u64);
            if x < 0x10000 {
                Err(DecodeError::NonMinimal)
            } else {
                Ok((x, pos + 5))
            }
        }
    } else if ai == 27 {
        if pos + 9 > b.len() {
            Err(DecodeError::Eof)
        } else {
            let x = ((b[pos + 1] as u64) << 56) | ((b[pos + 2] as u64) << 48) | ((b[pos
                + 3] as u64) << 40) | ((b[pos + 4] as u64) << 32) | ((b[pos + 5] as u64) << 24) | (
            (b[pos + 6] as u64) << 16) | ((b[pos + 7] as u64) << 8) | (b[pos + 8] as u64);
            if x < 0x100000000 {
                Err(DecodeError::NonMinimal)
            } else {
                Ok((x, pos + 9))
            }
        }
    } else if ai <= 30 {
        Err(DecodeError::Mismatch(b[pos]))
    } else {
        Err(DecodeError::IndefiniteSize)
    }
}

/// The value found at `pos` with nesting budget `depth`, and the position
/// after it; or the first error on the way.
pub open spec fn parse_value(b: Seq<u8>, pos: int, depth: int) -> Result<(Val, int), DecodeError>
    decreases b.len() - pos, 0int, 0int,
{
    if pos < 0 || pos >= b.len() {
        Err(DecodeError::Eof)
    } else {
        let byte = b[pos];
        let mt = byte >> 5;
        let ai = byte & 0x1f;
        if mt == 0 {
            match parse_arg(b, pos) {
                Err(e) => Err(e),
                Ok((x, np)) => Ok((Val::Int(x as int), np)),
            }
        } else if mt == 1 {
            match parse_arg(b, pos) {
                Err(e) => Err(e),
                Ok((x, np)) => Ok((Val::Int(-1 - x as int), np)),
            }
        } else if mt == 2 {
            match parse_arg(b, pos) {
                Err(e) => Err(e),
                Ok((x, np)) => {
                    if np + x > b.len() {
                        Err(DecodeError::Eof)
                    } else {
                        Ok((Val::Bytes(b.subrange(np, np + x)), np + x))
                    }
                },
            }
        } else if mt == 3 {
            match parse_arg(b, pos) {
                Err(e) => Err(e),
                Ok((x, np)) => {
                    if np + x > b.len() {
                        Err(DecodeError::Eof)
                    } else if !vstd::utf8::valid_utf8(b.subrange(np, np + x)) {
                        Err(DecodeError::InvalidUtf8)
                    } else {
                        Ok((Val::Text(b.subrange(np, np + x)), np + x))
                    }
                },
            }
        } else if mt == 4 {
            match parse_arg(b, pos) {
                Err(e) => Err(e),
                Ok((n, np)) => {
                    if depth <= 0 {
                        Err(DecodeError::DepthOverflow)
                    } else {
                        match parse_elems(b, np, n, depth - 1) {
                            Err(e) => Err(e),
                            Ok((vs, end)) => Ok((Val::Array(vs), end)),
                        }
                    }
                },
            }
        } else if mt == 5 {
            match parse_arg(b, pos) {
                Err(e) => Err(e),
                Ok((n, np)) => {
                    if depth <= 0 {
                        Err(DecodeError::DepthOverflow)
                    } else {
                        match parse_entries(b, np, n, depth - 1, None) {
                            Err(e) => Err(e),
                            Ok((es, end)) => Ok((Val::Mapping(es), end)),
                        }
                    }
                },
            }
        } else if mt == 6 {
            match parse_arg(b, pos) {
                Err(e) => Err(e),
                Ok((t, np)) => {
                    if depth <= 0 {
                        Err(DecodeError::DepthOverflow)
                    } else if t != 42 {
                        Err(DecodeError::UnknownTag(t))
                    } else if np >= b.len() {
                        Err(DecodeError::Eof)
                    } else if b[np] >> 5 != 2 {
                        Err(DecodeError::TagPayloadNotByteString)
                    } else {
                        match parse_arg(b, np) {
                            Err(e) => Err(e),
                            Ok((x, np2)) => {
                                if np2 + x > b.len() {
                                    Err(DecodeError::Eof)
                                } else {
                                    let content = b.subrange(np2, np2 + x);
                                    if content.len() == 0 || content[0] != 0 {
                                        Err(DecodeError::CidPrefixMissing)
                                    } else {
                                        match crate::cid::spec_from_bytes_raw(content.skip(1)) {
                                            Ok(full) => Ok((Val::Cid(full), np2 + x)),
                                            Err(ce) => Err(DecodeError::InvalidCid(ce)),
                                        }
                                    }
                                }
                            },
                        }
                    }
                },
            }
        } else {
            if ai == 20 {
                Ok((Val::Bool(false), pos + 1))
            } else if ai == 21 {
                Ok((Val::Bool(true), pos + 1))
            } else if ai == 22 {
                Ok((Val::Null, pos + 1))
            } else if ai < 20 || ai == 23 {
                Err(DecodeError::UnsupportedSimpleValue(ai))
            } else if ai == 24 {
                if pos + 2 > b.len() {
                    Err(DecodeError::Eof)
                } else {
                    Err(DecodeError::UnsupportedSimpleValue(b[pos + 1]))
                }
            } else if ai == 25 || ai == 26 {
                Err(DecodeError::HalfOrSinglePrecisionFloat)
            } else if ai == 27 {
                if pos + 9 > b.len() {
                    Err(DecodeError::Eof)
                } else {
                    let bits = ((b[pos + 1] as u64) << 56) | ((b[pos + 2] as u64) << 48) | ((b[pos
                        + 3] as u64) << 40) | ((b[pos + 4] as u64) << 32) | ((b[pos
                        + 5] as u64) << 24) | ((b[pos + 6] as u64) << 16) | ((b[pos
                        + 7] as u64) << 8) | (b[pos + 8] as u64);
                    if is_nan_bits(bits) && bits != canon_nan() {
                        Err(DecodeError::NonCanonicalNaN)
                    } else {
                        Ok((Val::Float(bits), pos + 9))
                    }
                }
            } else if ai <= 30 {
                Err(DecodeError::Mismatch(byte))
            } else {
                Err(DecodeError::IndefiniteSize)
            }
        }
    }
}

/// `count` array elements starting at `pos`, and the position after them.
pub open spec fn parse_elems(b: Seq<u8>, pos: int, count: u64, depth: int) -> Result<
    (Seq<Val>, int),
    DecodeError,
>
    decreases b.len() - pos, 1int, 1 + count,
{
    if count == 0 {
        Ok((Seq::empty(), pos))
    } else {
        match parse_value(b, pos, depth) {
            Err(e) => Err(e),
            Ok((v, np)) => {
                if np <= pos || np > b.len() {
                    // a parsed item always moves forward; this arm is dead
                    Err(DecodeError::Eof)
                } else {
                    match parse_elems(b, np, (count - 1) as u64, depth) {
                        Err(e) => Err(e),
                        Ok((vs, end)) => Ok((seq![v] + vs, end)),
                    }
                }
            },
        }
    }
}

/// `count` map entries starting at `pos`, each a text key above `prev` and
/// a value; and the position after them.
pub open spec fn parse_entries(
    b: Seq<u8>,
    pos: int,
    count: u64,
    depth: int,
    prev: Option<Seq<u8>>,
) -> Result<(Seq<(Seq<u8>, Val)>, int), DecodeError>
    decreases b.len() - pos, 1int, 1 + count,
{
    if count == 0 {
        Ok((Seq::empty(), pos))
    } else if pos >= b.len() {
        Err(DecodeError::Eof)
    } else if b[pos] >> 5 != 3 {
        Err(DecodeError::NonTextMapKey)
    } else {
        match parse_arg(b, pos) {
            Err(e) => Err(e),
            Ok((klen, kp)) => {
                if kp + klen > b.len() {
                    Err(DecodeError::Eof)
                } else {
                    let key = b.subrange(kp, kp + klen);
                    if !vstd::utf8::valid_utf8(key) {
                        Err(DecodeError::InvalidUtf8)
                    } else if prev is Some && prev->0 == key {
                        Err(DecodeError::DuplicateMapKey)
                    } else if prev is Some && !key_lt(prev->0, key) {
                        Err(DecodeError::UnsortedMapKey)
                    } else {
                        match parse_value(b, kp + klen, depth) {
                            Err(e) => Err(e),
                            Ok((v, np)) => {
                                if np <= pos || np > b.len() {
                                    // a parsed item always moves forward; this arm is dead
                                    Err(DecodeError::Eof)
                                } else {
                                    match parse_entries(b, np, (count - 1) as u64, depth, Some(key)) {
                                        Err(e) => Err(e),
                                        Ok((es, end)) => Ok((seq![(key, v)] + es, end)),
                                    }
                                }
                            },
                        }
                    }
                }
            },
        }
    }
}

/// Whether `v` is valid UTF-8, checked one scalar at a time against the
/// encoding's bit patterns: a leading byte, its continuation bytes, no
/// overlong form, no surrogate.
fn utf8_check(v: &[u8]) -> (r: bool)
    ensures
        r == vstd::utf8::valid_utf8(v@),
{
    let n = v.len();
    let mut i: usize = 0;
    proof {
        assert(v@.subrange(0, 0) =~= Seq::<u8>::empty());
    }
    while i < n
        invariant
            i <= n,
            n == v@.len(),
            vstd::utf8::partial_valid_utf8(v@, i as int),
        decreases n - i,
    {
        let ghost suf = v@.subrange(i as int, v@.len() as int);
        proof {
            assert(suf[0] == v@[i as int]);
            if i + 1 < n {
                assert(suf[1] == v@[i + 1]);
            }
            if i + 2 < n {
                assert(suf[2] == v@[i + 2]);
            }
            if i + 3 < n {
                assert(suf[3] == v@[i + 3]);
            }
        }
        let b0 = v[i];
        let width: usize = if b0 <= 0x7f {
            1
        } else if 0xc0 <= b0 && b0 <= 0xdf {
            2
        } else if 0xe0 <= b0 && b0 <= 0xef {
            3
        } else if 0xf0 <= b0 && b0 <= 0xf7 {
            4
        } else {
            // a stray continuation byte or an impossible leading byte
            proof {
                assert(!vstd::utf8::valid_first_scalar(suf));
                vstd::utf8::partial_valid_partial_invalid_utf8(v@, i as int);
            }
            return false;
        };
        if width > n - i {
            // the input ends inside this scalar's encoding
            proof {
                assert(!vstd::utf8::valid_first_scalar(suf));
                vstd::utf8::partial_valid_partial_invalid_utf8(v@, i as int);
            }
            return false;
        }
        let mut k: usize = 1;
        while k < width
            invariant
                1 <= k <= width <= 4,
                i + width <= n == v@.len(),
                suf == v@.subrange(i as int, v@.len() as int),
                vstd::utf8::partial_valid_utf8(v@, i as int),
                b0 == suf[0],
                width == 2 ==> vstd::utf8::is_leading_byte_width_2(b0),
                width == 3 ==> vstd::utf8::is_leading_byte_width_3(b0),
                width == 4 ==> vstd::utf8::is_leading_byte_width_4(b0),
                forall|j: int| 1 <= j < k ==> vstd::utf8::is_continuation_byte(suf[j]),
            decreases width - k,
        {
            let bk = v[i + k];
            proof {
                assert(suf[k as int] == v@[i + k]);
            }
            if !(0x80 <= bk && bk <= 0xbf) {
                proof {
                    assert(!vstd::utf8::is_continuation_byte(suf[k as int]));
                    assert(!vstd::utf8::valid_first_scalar(suf));
                    vstd::utf8::partial_valid_partial_invalid_utf8(v@, i as int);
                }
                return false;
            }
            k = k + 1;
        }
        proof {
            assert(suf[0] == v@[i as int]);
            if i + 1 < n {
                assert(suf[1] == v@[i + 1]);
            }
            if i + 2 < n {
                assert(suf[2] == v@[i + 2]);
            }
            if i + 3 < n {
                assert(suf[3] == v@[i + 3]);
            }
        }
        let cp: u32 = if width == 1 {
            (b0 & 0x7F) as u32
        } else if width == 2 {
            (((b0 & 0x1F) as u32) << 6) | ((v[i + 1] & 0x3f) as u32)
        } else if width == 3 {
            (((b0 & 0x0F) as u32) << 12) | (((v[i + 1] & 0x3f) as u32) << 6) | ((v[i + 2]
                & 0x3f) as u32)
        } else {
            (((b0 & 0x07) as u32) << 18) | (((v[i + 1] & 0x3f) as u32) << 12) | (((v[i + 2]
                & 0x3f) as u32) << 6) | ((v[i + 3] & 0x3f) as u32)
        };
        proof {
            assert(vstd::utf8::valid_leading_and_continuation_bytes_first_codepoint(suf));
            assert(vstd::utf8::length_of_first_codepoint(suf) == width as int);
            assert(vstd::utf8::decode_first_codepoint(suf) == cp);
        }
        let overlong = (width == 2 && cp < 0x80) || (width == 3 && cp < 0x800) || (width == 4 && (
        cp < 0x10000 || cp > 0x10ffff));
        let surrogate = 0xD800 <= cp && cp <= 0xDFFF;
        if overlong || surrogate {
            proof {
                assert(!vstd::utf8::valid_first_scalar(suf));
                vstd::utf8::partial_valid_partial_invalid_utf8(v@, i as int);
            }
            return false;
        }
        proof {
            assert(vstd::utf8::valid_first_scalar(suf));
            assert(vstd::utf8::length_of_first_scalar(suf) == width as int);
            vstd::utf8::partial_valid_utf8_extend(v@, i as int);
        }
        i = i + width;
    }
    proof {
        assert(v@.subrange(0, n as int) =~= v@);
    }
    true
}

/// A copy of `b[from..to]`.
fn copy_range(b: &[u8], from: usize, to: usize) -> (r: Vec<u8>)
    requires
        from <= to <= b@.len(),
    ensures
        r@ == b@.subrange(from as int, to as int),
{
    let mut r: Vec<u8> = Vec::new();
    proof {
        assert(r@ =~= b@.subrange(from as int, from as int));
    }
    let mut j: usize = from;
    while j < to
        invariant
            from <= j <= to <= b@.len(),
            r@ == b@.subrange(from as int, j as int),
        decreases to - j,
    {
        r.push(b[j]);
        j = j + 1;
        proof {
            assert(b@.subrange(from as int, j as int) =~= b@.subrange(from as int, j - 1).push(
                b@[j - 1],
            ));
        }
    }
    r
}

/// Reads a head's argument, in the shortest form only.
fn read_arg(b: &[u8], pos: usize) -> (r: Result<(u64, usize), DecodeError>)
    requires
        pos < b@.len(),
    ensures
        match r {
            Ok((x, np)) => parse_arg(b@, pos as int) == Ok::<(u64, int), DecodeError>(
                (x, np as int),
            ) && pos < np <= b@.len(),
            Err(e) => parse_arg(b@, pos as int) == Err::<(u64, int), DecodeError>(e),
        },
{
    let ai = b[pos] & 0x1f;
    if ai < 24 {
        Ok(((ai as u64), pos + 1))
    } else if ai == 24 {
        if b.len() - pos < 2 {
            return Err(DecodeError::Eof);
        }
        let x = b[pos + 1] as u64;
        if x < 24 {
            Err(DecodeError::NonMinimal)
        } else {
            Ok((x, pos + 2))
        }
    } else if ai == 25 {
        if b.len() - pos < 3 {
            return Err(DecodeError::Eof);
        }
        let x = ((b[pos + 1] as u64) << 8) | (b[pos + 2] as u64);
        if x < 0x100 {
            Err(DecodeError::NonMinimal)
        } else {
            Ok((x, pos + 3))
        }
    } else if ai == 26 {
        if b.len() - pos < 5 {
            return Err(DecodeError::Eof);
        }
        let x = ((b[pos + 1] as u64) << 24) | ((b[pos + 2] as u64) << 16) | ((b[pos
            + 3] as u64) << 8) | (b[pos + 4] as u64);
        if x < 0x10000 {
            Err(DecodeError::NonMinimal)
        } else {
            Ok((x, pos + 5))
        }
    } else if ai == 27 {
        if b.len() - pos < 9 {
            return Err(DecodeError::Eof);
        }
        let x = ((b[pos + 1] as u64) << 56) | ((b[pos + 2] as u64) << 48) | ((b[pos
            + 3] as u64) << 40) | ((b[pos + 4] as u64) << 32) | ((b[pos + 5] as u64) << 24) | ((
        b[pos + 6] as u64) << 16) | ((b[pos + 7] as u64) << 8) | (b[pos + 8] as u64);
        if x < 0x100000000 {
            Err(DecodeError::NonMinimal)
        } else {
            Ok((x, pos + 9))
        }
    } else if ai <= 30 {
        Err(DecodeError::Mismatch(b[pos]))
    } else {
        Err(DecodeError::IndefiniteSize)
    }
}

/// The model of a possibly absent previous key.
pub open spec fn prev_view(p: Option<Vec<u8>>) -> Option<Seq<u8>> {
    match p {
        None => None,
        Some(v) => Some(v@),
    }
}

/// Decodes the value at `pos` with nesting budget `depth`, returning it
/// with the position after it; exactly as `parse_value` names it.
pub fn decode_value(b: &[u8], pos: usize, depth: u32) -> (r: Result<(Value, usize), DecodeError>)
    ensures
        match r {
            Ok(p) => parse_value(b@, pos as int, depth as int) == Ok::<(Val, int), DecodeError>(
                (p.0@, p.1 as int),
            ) && pos < p.1 <= b@.len(),
            Err(e) => parse_value(b@, pos as int, depth as int) == Err::<(Val, int), DecodeError>(
                e,
            ),
        },
    decreases b@.len() - pos, 0int, 0int,
{
    if pos >= b.len() {
        return Err(DecodeError::Eof);
    }
    let byte = b[pos];
    let mt = byte >> 5;
    let ai = byte & 0x1f;
    if mt == 0 {
        match read_arg(b, pos) {
            Err(e) => Err(e),
            Ok((x, np)) => Ok((Value::Integer(x as i128), np)),
        }
    } else if mt == 1 {
        match read_arg(b, pos) {
            Err(e) => Err(e),
            Ok((x, np)) => Ok((Value::Integer(-1 - (x as i128), ), np)),
        }
    } else if mt == 2 {
        match read_arg(b, pos) {
            Err(e) => Err(e),
            Ok((x, np)) => {
                if x > (b.len() - np) as u64 {
                    Err(DecodeError::Eof)
                } else {
                    let body = copy_range(b, np, np + (x as usize));
                    Ok((Value::Bytes(body), np + (x as usize)))
                }
            },
        }
    } else if mt == 3 {
        match read_arg(b, pos) {
            Err(e) => Err(e),
            Ok((x, np)) => {
                if x > (b.len() - np) as u64 {
                    Err(DecodeError::Eof)
                } else {
                    let body = copy_range(b, np, np + (x as usize));
                    if !utf8_check(body.as_slice()) {
                        Err(DecodeError::InvalidUtf8)
                    } else {
                        let s = crate::cid::string_from_utf8(body);
                        Ok((Value::Text(s), np + (x as usize)))
                    }
                }
            },
        }
    } else if mt == 4 {
        match read_arg(b, pos) {
            Err(e) => Err(e),
            Ok((n, np)) => {
                if depth == 0 {
                    Err(DecodeError::DepthOverflow)
                } else {
                    match decode_elems(b, np, n, depth - 1) {
                        Err(e) => Err(e),
                        Ok((vs, end)) => Ok((Value::Array(vs), end)),
                    }
                }
            },
        }
    } else if mt == 5 {
        match read_arg(b, pos) {
            Err(e) => Err(e),
            Ok((n, np)) => {
                if depth == 0 {
                    Err(DecodeError::DepthOverflow)
                } else {
                    match decode_entries(b, np, n, depth - 1) {
                        Err(e) => Err(e),
                        Ok((es, end)) => Ok((Value::Mapping(es), end)),
                    }
                }
            },
        }
    } else if mt == 6 {
        match read_arg(b, pos) {
            Err(e) => Err(e),
            Ok((t, np)) => {
                if depth == 0 {
                    Err(DecodeError::DepthOverflow)
                } else if t != 42 {
                    Err(DecodeError::UnknownTag(t))
                } else if np >= b.len() {
                    Err(DecodeError::Eof)
                } else if b[np] >> 5 != 2 {
                    Err(DecodeError::TagPayloadNotByteString)
                } else {
                    match read_arg(b, np) {
                        Err(e) => Err(e),
                        Ok((x, np2)) => {
                            if x > (b.len() - np2) as u64 {
                                Err(DecodeError::Eof)
                            } else {
                                let content = copy_range(b, np2, np2 + (x as usize));
                                if content.len() == 0 {
                                    Err(DecodeError::CidPrefixMissing)
                                } else if content[0] != 0 {
                                    Err(DecodeError::CidPrefixMissing)
                                } else {
                                    let (_, rest) = content.as_slice().split_at(1);
                                    proof {
                                        assert(rest@ =~= b@.subrange(
                                            np2 as int,
                                            np2 + x,
                                        ).skip(1));
                                    }
                                    match crate::cid::Cid::from_bytes_raw(rest) {
                                        Ok(c) => Ok((Value::Cid(c), np2 + (x as usize))),
                                        Err(ce) => Err(DecodeError::InvalidCid(ce)),
                                    }
                                }
                            }
                        },
                    }
                }
            },
        }
    } else {
        if ai == 20 {
            Ok((Value::Bool(false), pos + 1))
        } else if ai == 21 {
            Ok((Value::Bool(true), pos + 1))
        } else if ai == 22 {
            Ok((Value::Null, pos + 1))
        } else if ai < 20 || ai == 23 {
            Err(DecodeError::UnsupportedSimpleValue(ai))
        } else if ai == 24 {
            if b.len() - pos < 2 {
                Err(DecodeError::Eof)
            } else {
                Err(DecodeError::UnsupportedSimpleValue(b[pos + 1]))
            }
        } else if ai == 25 || ai == 26 {
            Err(DecodeError::HalfOrSinglePrecisionFloat)
        } else if ai == 27 {
            if b.len() - pos < 9 {
                Err(DecodeError::Eof)
            } else {
                let bits = ((b[pos + 1] as u64) << 56) | ((b[pos + 2] as u64) << 48) | ((b[pos
                    + 3] as u64) << 40) | ((b[pos + 4] as u64) << 32) | ((b[pos + 5] as u64) << 24)
                    | ((b[pos + 6] as u64) << 16) | ((b[pos + 7] as u64) << 8) | (b[pos
                    + 8] as u64);
                let nan = ((bits >> 52) & 0x7ff) == 0x7ff && (bits & 0xfffffffffffff) != 0;
                if nan && bits != 0x7ff8000000000000 {
                    Err(DecodeError::NonCanonicalNaN)
                } else {
                    Ok((Value::Float(bits), pos + 9))
                }
            }
        } else if ai <= 30 {
            Err(DecodeError::Mismatch(byte))
        } else {
            Err(DecodeError::IndefiniteSize)
        }
    }
}

/// Decodes `count` array elements starting at `pos`.
fn decode_elems(b: &[u8], pos: usize, count: u64, depth: u32) -> (r: Result<
    (Vec<Value>, usize),
    DecodeError,
>)
    requires
        pos <= b@.len(),
    ensures
        match r {
            Ok(p) => parse_elems(b@, pos as int, count, depth as int) == Ok::<
                (Seq<Val>, int),
                DecodeError,
            >((crate::value::vals_of(p.0@), p.1 as int)) && pos <= p.1 <= b@.len(),
            Err(e) => parse_elems(b@, pos as int, count, depth as int) == Err::<
                (Seq<Val>, int),
                DecodeError,
            >(e),
        },
    decreases b@.len() - pos, 1int, 0int,
{
    let mut vs: Vec<Value> = Vec::new();
    let mut cur: usize = pos;
    let mut k: u64 = 0;
    proof {
        assert(crate::value::vals_of(Seq::<Value>::empty()) =~= Seq::<Val>::empty());
    }
    while k < count
        invariant
            k <= count,
            pos <= cur <= b@.len(),
            parse_elems(b@, pos as int, count, depth as int) == (match parse_elems(
                b@,
                cur as int,
                (count - k) as u64,
                depth as int,
            ) {
                Ok(p) => Ok::<(Seq<Val>, int), DecodeError>(
                    (crate::value::vals_of(vs@) + p.0, p.1),
                ),
                Err(e) => Err(e),
            }),
        decreases count - k,
    {
        let ghost old_vs = vs@;
        match decode_value(b, cur, depth) {
            Err(e) => {
                return Err(e);
            },
            Ok((v, np)) => {
                proof {
                    crate::value::lemma_vals_of_push_tail(old_vs, v);
                    let sub = parse_elems(b@, np as int, (count - k - 1) as u64, depth as int);
                    if sub is Ok {
                        let tail = sub->Ok_0.0;
                        assert(crate::value::vals_of(old_vs).push(v@) + tail =~= crate::value::vals_of(
                            old_vs,
                        ) + (seq![v@] + tail));
                    }
                }
                vs.push(v);
                cur = np;
                k = k + 1;
            },
        }
    }
    proof {
        assert(crate::value::vals_of(vs@) + Seq::<Val>::empty() =~= crate::value::vals_of(vs@));
    }
    Ok((vs, cur))
}

/// Decodes `count` map entries starting at `pos`, each a text key in
/// strictly ascending canonical order, then a value.
fn decode_entries(b: &[u8], pos: usize, count: u64, depth: u32) -> (r: Result<
    (Vec<(String, Value)>, usize),
    DecodeError,
>)
    requires
        pos <= b@.len(),
    ensures
        match r {
            Ok(p) => parse_entries(b@, pos as int, count, depth as int, None) == Ok::<
                (Seq<(Seq<u8>, Val)>, int),
                DecodeError,
            >((crate::value::entries_of(p.0@), p.1 as int)) && pos <= p.1 <= b@.len(),
            Err(e) => parse_entries(b@, pos as int, count, depth as int, None) == Err::<
                (Seq<(Seq<u8>, Val)>, int),
                DecodeError,
            >(e),
        },
    decreases b@.len() - pos, 1int, 0int,
{
    let mut es: Vec<(String, Value)> = Vec::new();
    let mut cur: usize = pos;
    let mut k: u64 = 0;
    let mut prev: Option<Vec<u8>> = None;
    proof {
        assert(crate::value::entries_of(Seq::<(String, Value)>::empty()) =~= Seq::<
            (Seq<u8>, Val),
        >::empty());
    }
    while k < count
        invariant
            k <= count,
            pos <= cur <= b@.len(),
            parse_entries(b@, pos as int, count, depth as int, None) == (match parse_entries(
                b@,
                cur as int,
                (count - k) as u64,
                depth as int,
                prev_view(prev),
            ) {
                Ok(p) => Ok::<(Seq<(Seq<u8>, Val)>, int), DecodeError>(
                    (crate::value::entries_of(es@) + p.0, p.1),
                ),
                Err(e) => Err(e),
            }),
        decreases count - k,
    {
        if cur >= b.len() {
            return Err(DecodeError::Eof);
        }
        if b[cur] >> 5 != 3 {
            return Err(DecodeError::NonTextMapKey);
        }
        let (klen, kp) = match read_arg(b, cur) {
            Err(e) => {
                return Err(e);
            },
            Ok(p) => p,
        };
        if klen > (b.len() - kp) as u64 {
            return Err(DecodeError::Eof);
        }
        let kend = kp + (klen as usize);
        let kvec = copy_range(b, kp, kend);
        if !utf8_check(kvec.as_slice()) {
            return Err(DecodeError::InvalidUtf8);
        }
        match &prev {
            Some(pv) => {
                let c = crate::value::key_cmp(pv.as_slice(), kvec.as_slice());
                if c == 0 {
                    return Err(DecodeError::DuplicateMapKey);
                }
                if c == 1 {
                    return Err(DecodeError::UnsortedMapKey);
                }
            },
            None => {},
        }
        let ghost old_es = es@;
        match decode_value(b, kend, depth) {
            Err(e) => {
                return Err(e);
            },
            Ok((v, np)) => {
                let ks = crate::cid::string_from_utf8(kvec.clone());
                proof {
                    crate::value::lemma_entries_of_push_tail(old_es, (ks, v));
                    vstd::utf8::decode_utf8_encode_utf8(kvec@);
                    let key = b@.subrange(kp as int, kend as int);
                    let sub = parse_entries(
                        b@,
                        np as int,
                        (count - k - 1) as u64,
                        depth as int,
                        Some(key),
                    );
                    if sub is Ok {
                        let tail = sub->Ok_0.0;
                        assert(crate::value::entries_of(old_es).push((key, v@)) + tail
                            =~= crate::value::entries_of(old_es) + (seq![(key, v@)] + tail));
                    }
                }
                es.push((ks, v));
                prev = Some(kvec);
                cur = np;
                k = k + 1;
            },
        }
    }
    proof {
        assert(crate::value::entries_of(es@) + Seq::<(Seq<u8>, Val)>::empty()
            =~= crate::value::entries_of(es@));
    }
    Ok((es, cur))
}

/// What decoding one whole top-level item yields: the value, with nothing
/// after it.
pub open spec fn spec_decode_one(b: Seq<u8>) -> Result<Val, DecodeError> {
    match parse_value(b, 0, DEPTH_LIMIT as int) {
        Err(e) => Err(e),
        Ok((v, end)) => {
            if end == b.len() {
                Ok(v)
            } else {
                Err(DecodeError::TrailingData)
            }
        },
    }
}

/// Decodes one value filling the whole input; any byte past the first
/// complete item is refused as trailing data.
pub fn decode_from_bytes(b: &[u8]) -> (r: Result<Value, DecodeError>)
    ensures
        match r {
            Ok(v) => spec_decode_one(b@) == Ok::<Val, DecodeError>(v@),
            Err(e) => spec_decode_one(b@) == Err::<Val, DecodeError>(e),
        },
{
    match decode_value(b, 0, DEPTH_LIMIT) {
        Err(e) => Err(e),
        Ok((v, end)) => {
            if end != b.len() {
                Err(DecodeError::TrailingData)
            } else {
                Ok(v)
            }
        },
    }
}

/// Pulls top-level values one after another out of a byte sequence,
/// stopping cleanly at the end of the input between items.
pub struct StreamDecoder {
    bytes: Vec<u8>,
    pos: usize,
}

impl StreamDecoder {
    /// The whole input.
    pub closed spec fn input(&self) -> Seq<u8> {
        self.bytes@
    }

    /// Where the next item starts.
    pub closed spec fn position(&self) -> int {
        self.pos as int
    }

    #[verifier::type_invariant]
    closed spec fn stream_wf(self) -> bool {
        self.pos <= self.bytes@.len()
    }

    /// A decoder at the start of `bytes`.
    pub fn new(bytes: Vec<u8>) -> (r: StreamDecoder)
        ensures
            r.input() == bytes@,
            r.position() == 0,
    {
        StreamDecoder { bytes, pos: 0 }
    }

    /// The next item: `None` at a clean end of input; after an error the
    /// stream is exhausted.
    pub fn next_value(&mut self) -> (r: Option<Result<Value, DecodeError>>)
        ensures
            final(self).input() == old(self).input(),
            match r {
                None => old(self).position() == old(self).input().len() && final(self).position()
                    == old(self).position(),
                Some(Ok(v)) => parse_value(
                    old(self).input(),
                    old(self).position(),
                    DEPTH_LIMIT as int,
                ) == Ok::<(Val, int), DecodeError>((v@, final(self).position()))
                    && old(self).position() < final(self).position()
                    && final(self).position() <= final(self).input().len(),
                Some(Err(e)) => parse_value(
                    old(self).input(),
                    old(self).position(),
                    DEPTH_LIMIT as int,
                ) == Err::<(Val, int), DecodeError>(e)
                    && final(self).position() == final(self).input().len(),
            },
    {
        proof {
            use_type_invariant(&*self);
        }
        if self.pos >= self.bytes.len() {
            return None;
        }
        match decode_value(self.bytes.as_slice(), self.pos, DEPTH_LIMIT) {
            Ok((v, end)) => {
                self.pos = end;
                Some(Ok(v))
            },
            Err(e) => {
                self.pos = self.bytes.len();
                Some(Err(e))
            },
        }
    }
}

} // verus!
