//! RFC 4648 base32, lower-case alphabet, no padding.
//!
//! Five input bytes become eight symbols; a final partial group of 1, 2, 3 or
//! 4 bytes becomes 2, 4, 5 or 7 symbols. Decoding accepts upper- and
//! lower-case symbols and requires the unused trailing bits of the last
//! symbol to be zero.

use vstd::prelude::*;

verus! {

/// True for the ASCII bytes the decoder accepts: `a-z`, `A-Z`, `2-7`.
pub open spec fn is_base32_char(c: u8) -> bool {
    (97 <= c <= 122) || (65 <= c <= 90) || (50 <= c <= 55)
}

/// Lower-case symbol for a 5-bit group.
pub open spec fn char_of_digit(d: u8) -> u8
    recommends
        d < 32,
{
    if d < 26 {
        (97 + d) as u8
    } else {
        (24 + d) as u8
    }
}

/// 5-bit group denoted by a symbol.
pub open spec fn digit_of_char(c: u8) -> u8
    recommends
        is_base32_char(c),
{
    if 97 <= c <= 122 {
        (c - 97) as u8
    } else if 65 <= c <= 90 {
        (c - 65) as u8
    } else {
        (c - 24) as u8
    }
}

/// Symbols of one full 5-byte group.
pub open spec fn encode_group5(b0: u8, b1: u8, b2: u8, b3: u8, b4: u8) -> Seq<u8> {
    seq![
        char_of_digit(b0 >> 3),
        char_of_digit(((b0 & 0x07) << 2) | (b1 >> 6)),
        char_of_digit((b1 >> 1) & 0x1f),
        char_of_digit(((b1 & 0x01) << 4) | (b2 >> 4)),
        char_of_digit(((b2 & 0x0f) << 1) | (b3 >> 7)),
        char_of_digit((b3 >> 2) & 0x1f),
        char_of_digit(((b3 & 0x03) << 3) | (b4 >> 5)),
        char_of_digit(b4 & 0x1f),
    ]
}

/// Symbols of a final group of 1 to 4 bytes.
pub open spec fn encode_tail(bs: Seq<u8>) -> Seq<u8>
    recommends
        1 <= bs.len() <= 4,
{
    if bs.len() == 1 {
        seq![char_of_digit(bs[0] >> 3), char_of_digit((bs[0] & 0x07) << 2)]
    } else if bs.len() == 2 {
        seq![
            char_of_digit(bs[0] >> 3),
            char_of_digit(((bs[0] & 0x07) << 2) | (bs[1] >> 6)),
            char_of_digit((bs[1] >> 1) & 0x1f),
            char_of_digit((bs[1] & 0x01) << 4),
        ]
    } else if bs.len() == 3 {
        seq![
            char_of_digit(bs[0] >> 3),
            char_of_digit(((bs[0] & 0x07) << 2) | (bs[1] >> 6)),
            char_of_digit((bs[1] >> 1) & 0x1f),
            char_of_digit(((bs[1] & 0x01) << 4) | (bs[2] >> 4)),
            char_of_digit((bs[2] & 0x0f) << 1),
        ]
    } else {
        seq![
            char_of_digit(bs[0] >> 3),
            char_of_digit(((bs[0] & 0x07) << 2) | (bs[1] >> 6)),
            char_of_digit((bs[1] >> 1) & 0x1f),
            char_of_digit(((bs[1] & 0x01) << 4) | (bs[2] >> 4)),
            char_of_digit(((bs[2] & 0x0f) << 1) | (bs[3] >> 7)),
            char_of_digit((bs[3] >> 2) & 0x1f),
            char_of_digit((bs[3] & 0x03) << 3),
        ]
    }
}

/// The base32 text (as ASCII bytes) of a byte sequence.
pub open spec fn spec_encode(bs: Seq<u8>) -> Seq<u8>
    decreases bs.len(),
{
    if bs.len() == 0 {
        Seq::empty()
    } else if bs.len() >= 5 {
        encode_group5(bs[0], bs[1], bs[2], bs[3], bs[4]) + spec_encode(bs.skip(5))
    } else {
        encode_tail(bs)
    }
}

/// True when every byte of `s` is an accepted base32 symbol.
pub open spec fn chars_valid(s: Seq<u8>) -> bool {
    forall|j: int| 0 <= j < s.len() ==> is_base32_char(#[trigger] s[j])
}

/// Bytes of one full group of eight 5-bit values.
pub open spec fn group8_bytes(d0: u8, d1: u8, d2: u8, d3: u8, d4: u8, d5: u8, d6: u8, d7: u8) -> Seq<
    u8,
> {
    seq![
        (d0 << 3) | (d1 >> 2),
        ((d1 & 0x03) << 6) | (d2 << 1) | (d3 >> 4),
        ((d3 & 0x0f) << 4) | (d4 >> 1),
        ((d4 & 0x01) << 7) | (d5 << 2) | (d6 >> 3),
        ((d6 & 0x07) << 5) | d7,
    ]
}

/// Bytes denoted by a final group of 1 to 7 symbols, or `None` when the
/// group's length is impossible or its unused trailing bits are not zero.
pub open spec fn decode_tail(s: Seq<u8>) -> Option<Seq<u8>>
    recommends
        1 <= s.len() <= 7,
{
    if !chars_valid(s) {
        None
    } else {
        let d = |j: int| digit_of_char(s[j]);
        if s.len() == 2 {
            if d(1) & 0x03 == 0 {
                Some(seq![(d(0) << 3) | (d(1) >> 2)])
            } else {
                None
            }
        } else if s.len() == 4 {
            if d(3) & 0x0f == 0 {
                Some(
                    seq![
                        (d(0) << 3) | (d(1) >> 2),
                        ((d(1) & 0x03) << 6) | (d(2) << 1) | (d(3) >> 4),
                    ],
                )
            } else {
                None
            }
        } else if s.len() == 5 {
            if d(4) & 0x01 == 0 {
                Some(
                    seq![
                        (d(0) << 3) | (d(1) >> 2),
                        ((d(1) & 0x03) << 6) | (d(2) << 1) | (d(3) >> 4),
                        ((d(3) & 0x0f) << 4) | (d(4) >> 1),
                    ],
                )
            } else {
                None
            }
        } else if s.len() == 7 {
            if d(6) & 0x07 == 0 {
                Some(
                    seq![
                        (d(0) << 3) | (d(1) >> 2),
                        ((d(1) & 0x03) << 6) | (d(2) << 1) | (d(3) >> 4),
                        ((d(3) & 0x0f) << 4) | (d(4) >> 1),
                        ((d(4) & 0x01) << 7) | (d(5) << 2) | (d(6) >> 3),
                    ],
                )
            } else {
                None
            }
        } else {
            None
        }
    }
}

/// The bytes a base32 text denotes, or `None` when a symbol is outside the
/// alphabet, the length is impossible, or a trailing bit is set.
pub open spec fn spec_decode(s: Seq<u8>) -> Option<Seq<u8>>
    decreases s.len(),
{
    if s.len() == 0 {
        Some(Seq::empty())
    } else if s.len() >= 8 {
        if !chars_valid(s.take(8)) {
            None
        } else {
            let d = |j: int| digit_of_char(s[j]);
            match spec_decode(s.skip(8)) {
                Some(rest) => Some(
                    group8_bytes(d(0), d(1), d(2), d(3), d(4), d(5), d(6), d(7)) + rest,
                ),
                None => None,
            }
        }
    } else {
        decode_tail(s)
    }
}

/// Every 5-bit group read out of two adjacent bytes is below 32.
proof fn lemma_digit_bounds(x: u8, y: u8)
    ensures
        (x >> 3) < 32,
        (((x & 0x07) << 2) | (y >> 6)) < 32,
        ((x >> 1) & 0x1f) < 32,
        (((x & 0x01) << 4) | (y >> 4)) < 32,
        (((x & 0x0f) << 1) | (y >> 7)) < 32,
        ((x >> 2) & 0x1f) < 32,
        (((x & 0x03) << 3) | (y >> 5)) < 32,
        (x & 0x1f) < 32,
        ((x & 0x07) << 2) < 32,
        ((x & 0x01) << 4) < 32,
        ((x & 0x0f) << 1) < 32,
        ((x & 0x03) << 3) < 32,
{
    assert((x >> 3) < 32 && (((x & 0x07) << 2) | (y >> 6)) < 32 && ((x >> 1) & 0x1f) < 32 && (((x
        & 0x01) << 4) | (y >> 4)) < 32 && (((x & 0x0f) << 1) | (y >> 7)) < 32 && ((x >> 2) & 0x1f)
        < 32 && (((x & 0x03) << 3) | (y >> 5)) < 32 && (x & 0x1f) < 32 && ((x & 0x07) << 2) < 32
        && ((x & 0x01) << 4) < 32 && ((x & 0x0f) << 1) < 32 && ((x & 0x03) << 3) < 32)
        by (bit_vector);
}

/// Lower-case symbol for a 5-bit group.
fn digit_char(d: u8) -> (c: u8)
    requires
        d < 32,
    ensures
        c == char_of_digit(d),
{
    if d < 26 {
        97 + d
    } else {
        24 + d
    }
}

/// Base32 text, as ASCII bytes, of `bs`: lower case, no padding.
pub fn encode(bs: &[u8]) -> (r: Vec<u8>)
    ensures
        r@ == spec_encode(bs@),
{
    let mut out: Vec<u8> = Vec::new();
    let mut i: usize = 0;
    proof {
        assert(bs@.skip(0) =~= bs@);
    }
    while bs.len() - i >= 5
        invariant
            i <= bs.len(),
            i % 5 == 0,
            spec_encode(bs@) == out@ + spec_encode(bs@.skip(i as int)),
        decreases bs.len() - i,
    {
        let b0 = bs[i];
        let b1 = bs[i + 1];
        let b2 = bs[i + 2];
        let b3 = bs[i + 3];
        let b4 = bs[i + 4];
        let ghost rest = bs@.skip(i as int);
        proof {
            lemma_digit_bounds(b0, b1);
            lemma_digit_bounds(b1, b2);
            lemma_digit_bounds(b2, b3);
            lemma_digit_bounds(b3, b4);
            lemma_digit_bounds(b4, 0);
        }
        out.push(digit_char(b0 >> 3));
        out.push(digit_char(((b0 & 0x07) << 2) | (b1 >> 6)));
        out.push(digit_char((b1 >> 1) & 0x1f));
        out.push(digit_char(((b1 & 0x01) << 4) | (b2 >> 4)));
        out.push(digit_char(((b2 & 0x0f) << 1) | (b3 >> 7)));
        out.push(digit_char((b3 >> 2) & 0x1f));
        out.push(digit_char(((b3 & 0x03) << 3) | (b4 >> 5)));
        out.push(digit_char(b4 & 0x1f));
        i = i + 5;
        proof {
            assert(rest.skip(5) =~= bs@.skip(i as int));
            assert(spec_encode(rest) =~= encode_group5(b0, b1, b2, b3, b4) + spec_encode(
                bs@.skip(i as int),
            ));
        }
    }
    let n = bs.len();
    let ghost tail = bs@.skip(i as int);
    if i < n {
        let b0 = bs[i];
        proof {
            lemma_digit_bounds(b0, 0);
        }
        out.push(digit_char(b0 >> 3));
        if i + 1 == n {
            out.push(digit_char((b0 & 0x07) << 2));
        } else {
            let b1 = bs[i + 1];
            proof {
                lemma_digit_bounds(b0, b1);
                lemma_digit_bounds(b1, 0);
            }
            out.push(digit_char(((b0 & 0x07) << 2) | (b1 >> 6)));
            out.push(digit_char((b1 >> 1) & 0x1f));
            if i + 2 == n {
                out.push(digit_char((b1 & 0x01) << 4));
            } else {
                let b2 = bs[i + 2];
                proof {
                    lemma_digit_bounds(b1, b2);
                    lemma_digit_bounds(b2, 0);
                }
                out.push(digit_char(((b1 & 0x01) << 4) | (b2 >> 4)));
                if i + 3 == n {
                    out.push(digit_char((b2 & 0x0f) << 1));
                } else {
                    let b3 = bs[i + 3];
                    proof {
                        lemma_digit_bounds(b2, b3);
                        lemma_digit_bounds(b3, 0);
                    }
                    out.push(digit_char(((b2 & 0x0f) << 1) | (b3 >> 7)));
                    out.push(digit_char((b3 >> 2) & 0x1f));
                    out.push(digit_char((b3 & 0x03) << 3));
                }
            }
        }
        proof {
            assert(spec_encode(tail) =~= encode_tail(tail));
        }
    }
    out
}

/// `pre` glued onto a decode result that may have failed.
pub open spec fn opt_concat(pre: Seq<u8>, o: Option<Seq<u8>>) -> Option<Seq<u8>> {
    match o {
        Some(b) => Some(pre + b),
        None => None,
    }
}

/// One byte outside the alphabet spoils a whole group.
proof fn lemma_not_valid(s: Seq<u8>, j: int)
    requires
        0 <= j < s.len(),
        !is_base32_char(s[j]),
    ensures
        !chars_valid(s),
{
}

/// 5-bit group denoted by a symbol, or 255 for a byte outside the alphabet.
fn char_digit(c: u8) -> (d: u8)
    ensures
        is_base32_char(c) ==> d == digit_of_char(c) && d < 32,
        !is_base32_char(c) ==> d == 255,
{
    if 97 <= c && c <= 122 {
        c - 97
    } else if 65 <= c && c <= 90 {
        c - 65
    } else if 50 <= c && c <= 55 {
        c - 24
    } else {
        255
    }
}

/// Bytes denoted by the base32 text `s`, or `None` when `s` is not a base32
/// text: a symbol outside `a-z`, `A-Z`, `2-7`, an impossible length, or a
/// set trailing bit.
pub fn decode(s: &[u8]) -> (r: Option<Vec<u8>>)
    ensures
        match r {
            Some(v) => spec_decode(s@) == Some(v@),
            None => spec_decode(s@) is None,
        },
{
    let mut out: Vec<u8> = Vec::new();
    let mut i: usize = 0;
    proof {
        assert(s@.skip(0) =~= s@);
        assert(out@ + spec_decode(s@)->Some_0 =~= spec_decode(s@)->Some_0);
    }
    while s.len() - i >= 8
        invariant
            i <= s.len(),
            spec_decode(s@) == opt_concat(out@, spec_decode(s@.skip(i as int))),
        decreases s.len() - i,
    {
        let ghost rest = s@.skip(i as int);
        let d0 = char_digit(s[i]);
        let d1 = char_digit(s[i + 1]);
        let d2 = char_digit(s[i + 2]);
        let d3 = char_digit(s[i + 3]);
        let d4 = char_digit(s[i + 4]);
        let d5 = char_digit(s[i + 5]);
        let d6 = char_digit(s[i + 6]);
        let d7 = char_digit(s[i + 7]);
        if d0 == 255 || d1 == 255 || d2 == 255 || d3 == 255 || d4 == 255 || d5 == 255 || d6 == 255
            || d7 == 255 {
            proof {
                let g = rest.take(8);
                assert(g[0] == s@[i as int] && g[1] == s@[i + 1] && g[2] == s@[i + 2] && g[3]
                    == s@[i + 3] && g[4] == s@[i + 4] && g[5] == s@[i + 5] && g[6] == s@[i + 6]
                    && g[7] == s@[i + 7]);
                if d0 == 255 {
                    lemma_not_valid(g, 0);
                } else if d1 == 255 {
                    lemma_not_valid(g, 1);
                } else if d2 == 255 {
                    lemma_not_valid(g, 2);
                } else if d3 == 255 {
                    lemma_not_valid(g, 3);
                } else if d4 == 255 {
                    lemma_not_valid(g, 4);
                } else if d5 == 255 {
                    lemma_not_valid(g, 5);
                } else if d6 == 255 {
                    lemma_not_valid(g, 6);
                } else {
                    lemma_not_valid(g, 7);
                }
            }
            return None;
        }
        out.push((d0 << 3) | (d1 >> 2));
        out.push(((d1 & 0x03) << 6) | (d2 << 1) | (d3 >> 4));
        out.push(((d3 & 0x0f) << 4) | (d4 >> 1));
        out.push(((d4 & 0x01) << 7) | (d5 << 2) | (d6 >> 3));
        out.push(((d6 & 0x07) << 5) | d7);
        i = i + 8;
        proof {
            assert(chars_valid(rest.take(8)));
            assert(rest.skip(8) =~= s@.skip(i as int));
            if spec_decode(s@.skip(i as int)) is Some {
                assert(out@ + spec_decode(s@.skip(i as int))->Some_0 =~= out@.subrange(
                    0,
                    out@.len() - 5,
                ) + spec_decode(rest)->Some_0);
            }
        }
    }
    let n = s.len() - i;
    let ghost tail = s@.skip(i as int);
    if n == 0 {
        proof {
            assert(out@ + Seq::<u8>::empty() =~= out@);
        }
        return Some(out);
    }
    if n != 2 && n != 4 && n != 5 && n != 7 {
        return None;
    }
    let d0 = char_digit(s[i]);
    let d1 = char_digit(s[i + 1]);
    if d0 == 255 || d1 == 255 {
        proof {
            assert(tail[0] == s@[i as int] && tail[1] == s@[i + 1]);
            if d0 == 255 {
                lemma_not_valid(tail, 0);
            } else {
                lemma_not_valid(tail, 1);
            }
        }
        return None;
    }
    if n == 2 {
        if d1 & 0x03 != 0 {
            return None;
        }
        out.push((d0 << 3) | (d1 >> 2));
        proof {
            assert(chars_valid(tail));
            assert(out@ =~= out@.subrange(0, out@.len() - 1) + decode_tail(tail)->Some_0);
        }
        return Some(out);
    }
    let d2 = char_digit(s[i + 2]);
    let d3 = char_digit(s[i + 3]);
    if d2 == 255 || d3 == 255 {
        proof {
            assert(tail[2] == s@[i + 2] && tail[3] == s@[i + 3]);
            if d2 == 255 {
                lemma_not_valid(tail, 2);
            } else {
                lemma_not_valid(tail, 3);
            }
        }
        return None;
    }
    if n == 4 {
        if d3 & 0x0f != 0 {
            return None;
        }
        out.push((d0 << 3) | (d1 >> 2));
        out.push(((d1 & 0x03) << 6) | (d2 << 1) | (d3 >> 4));
        proof {
            assert(chars_valid(tail));
            assert(out@ =~= out@.subrange(0, out@.len() - 2) + decode_tail(tail)->Some_0);
        }
        return Some(out);
    }
    let d4 = char_digit(s[i + 4]);
    if d4 == 255 {
        proof {
            assert(tail[4] == s@[i + 4]);
            lemma_not_valid(tail, 4);
        }
        return None;
    }
    if n == 5 {
        if d4 & 0x01 != 0 {
            return None;
        }
        out.push((d0 << 3) | (d1 >> 2));
        out.push(((d1 & 0x03) << 6) | (d2 << 1) | (d3 >> 4));
        out.push(((d3 & 0x0f) << 4) | (d4 >> 1));
        proof {
            assert(chars_valid(tail));
            assert(out@ =~= out@.subrange(0, out@.len() - 3) + decode_tail(tail)->Some_0);
        }
        return Some(out);
    }
    let d5 = char_digit(s[i + 5]);
    let d6 = char_digit(s[i + 6]);
    if d5 == 255 || d6 == 255 {
        proof {
            assert(tail[5] == s@[i + 5] && tail[6] == s@[i + 6]);
            if d5 == 255 {
                lemma_not_valid(tail, 5);
            } else {
                lemma_not_valid(tail, 6);
            }
        }
        return None;
    }
    if d6 & 0x07 != 0 {
        return None;
    }
    out.push((d0 << 3) | (d1 >> 2));
    out.push(((d1 & 0x03) << 6) | (d2 << 1) | (d3 >> 4));
    out.push(((d3 & 0x0f) << 4) | (d4 >> 1));
    out.push(((d4 & 0x01) << 7) | (d5 << 2) | (d6 >> 3));
    proof {
        assert(chars_valid(tail));
        assert(out@ =~= out@.subrange(0, out@.len() - 4) + decode_tail(tail)->Some_0);
    }
    Some(out)
}

/// A symbol written for a 5-bit group reads back as that group.
proof fn lemma_char_digit_roundtrip(d: u8)
    requires
        d < 32,
    ensures
        is_base32_char(char_of_digit(d)),
        digit_of_char(char_of_digit(d)) == d,
{
}

/// Decoding undoes encoding: the base32 text of any byte sequence denotes
/// exactly that sequence.
pub proof fn lemma_decode_encode(bs: Seq<u8>)
    ensures
        spec_decode(spec_encode(bs)) == Some(bs),
    decreases bs.len(),
{
    let e = spec_encode(bs);
    if bs.len() == 0 {
        assert(e =~= Seq::empty());
        assert(spec_decode(e) == Some(bs));
    } else if bs.len() >= 5 {
        let b0 = bs[0];
        let b1 = bs[1];
        let b2 = bs[2];
        let b3 = bs[3];
        let b4 = bs[4];
        lemma_digit_bounds(b0, b1);
        lemma_digit_bounds(b1, b2);
        lemma_digit_bounds(b2, b3);
        lemma_digit_bounds(b3, b4);
        lemma_digit_bounds(b4, 0);
        let g = encode_group5(b0, b1, b2, b3, b4);
        let d0 = b0 >> 3;
        let d1 = ((b0 & 0x07) << 2) | (b1 >> 6);
        let d2 = (b1 >> 1) & 0x1f;
        let d3 = ((b1 & 0x01) << 4) | (b2 >> 4);
        let d4 = ((b2 & 0x0f) << 1) | (b3 >> 7);
        let d5 = (b3 >> 2) & 0x1f;
        let d6 = ((b3 & 0x03) << 3) | (b4 >> 5);
        let d7 = b4 & 0x1f;
        lemma_char_digit_roundtrip(d0);
        lemma_char_digit_roundtrip(d1);
        lemma_char_digit_roundtrip(d2);
        lemma_char_digit_roundtrip(d3);
        lemma_char_digit_roundtrip(d4);
        lemma_char_digit_roundtrip(d5);
        lemma_char_digit_roundtrip(d6);
        lemma_char_digit_roundtrip(d7);
        assert(e.take(8) =~= g);
        assert(e.skip(8) =~= spec_encode(bs.skip(5)));
        assert(chars_valid(e.take(8)));
        lemma_decode_encode(bs.skip(5));
        assert((d0 << 3) | (d1 >> 2) == b0 && ((d1 & 0x03) << 6) | (d2 << 1) | (d3 >> 4) == b1 && (
        (d3 & 0x0f) << 4) | (d4 >> 1) == b2 && ((d4 & 0x01) << 7) | (d5 << 2) | (d6 >> 3) == b3 && (
        (d6 & 0x07) << 5) | d7 == b4) by (bit_vector)
            requires
                d0 == (b0 >> 3) && d1 == (((b0 & 0x07) << 2) | (b1 >> 6)) && d2 == ((b1 >> 1)
                    & 0x1f) && d3 == (((b1 & 0x01) << 4) | (b2 >> 4)) && d4 == (((b2 & 0x0f) << 1)
                    | (b3 >> 7)) && d5 == ((b3 >> 2) & 0x1f) && d6 == (((b3 & 0x03) << 3) | (b4
                    >> 5)) && d7 == (b4 & 0x1f),
        ;
        assert(group8_bytes(d0, d1, d2, d3, d4, d5, d6, d7) + bs.skip(5) =~= bs);
    } else {
        let b0 = bs[0];
        lemma_digit_bounds(b0, 0);
        let d0 = b0 >> 3;
        lemma_char_digit_roundtrip(d0);
        if bs.len() == 1 {
            let d1 = (b0 & 0x07) << 2;
            lemma_char_digit_roundtrip(d1);
            assert(chars_valid(e));
            assert(d1 & 0x03 == 0 && (d0 << 3) | (d1 >> 2) == b0) by (bit_vector)
                requires
                    d0 == (b0 >> 3) && d1 == ((b0 & 0x07) << 2),
            ;
            assert(seq![(d0 << 3) | (d1 >> 2)] =~= bs);
        } else {
            let b1 = bs[1];
            lemma_digit_bounds(b0, b1);
            lemma_digit_bounds(b1, b2_or(bs, 2));
            let d1 = ((b0 & 0x07) << 2) | (b1 >> 6);
            let d2 = (b1 >> 1) & 0x1f;
            lemma_char_digit_roundtrip(d1);
            lemma_char_digit_roundtrip(d2);
            if bs.len() == 2 {
                let d3 = (b1 & 0x01) << 4;
                lemma_char_digit_roundtrip(d3);
                assert(chars_valid(e));
                assert(d3 & 0x0f == 0 && (d0 << 3) | (d1 >> 2) == b0 && ((d1 & 0x03) << 6) | (d2
                    << 1) | (d3 >> 4) == b1) by (bit_vector)
                    requires
                        d0 == (b0 >> 3) && d1 == (((b0 & 0x07) << 2) | (b1 >> 6)) && d2 == ((b1
                            >> 1) & 0x1f) && d3 == ((b1 & 0x01) << 4),
                ;
                assert(seq![(d0 << 3) | (d1 >> 2), ((d1 & 0x03) << 6) | (d2 << 1) | (d3 >> 4)]
                    =~= bs);
            } else {
                let b2 = bs[2];
                lemma_digit_bounds(b2, b2_or(bs, 3));
                let d3 = ((b1 & 0x01) << 4) | (b2 >> 4);
                lemma_char_digit_roundtrip(d3);
                if bs.len() == 3 {
                    let d4 = (b2 & 0x0f) << 1;
                    lemma_char_digit_roundtrip(d4);
                    assert(chars_valid(e));
                    assert(d4 & 0x01 == 0 && (d0 << 3) | (d1 >> 2) == b0 && ((d1 & 0x03) << 6) | (
                    d2 << 1) | (d3 >> 4) == b1 && ((d3 & 0x0f) << 4) | (d4 >> 1) == b2)
                        by (bit_vector)
                        requires
                            d0 == (b0 >> 3) && d1 == (((b0 & 0x07) << 2) | (b1 >> 6)) && d2 == ((b1
                                >> 1) & 0x1f) && d3 == (((b1 & 0x01) << 4) | (b2 >> 4)) && d4 == ((
                            b2 & 0x0f) << 1),
                    ;
                    assert(seq![
                        (d0 << 3) | (d1 >> 2),
                        ((d1 & 0x03) << 6) | (d2 << 1) | (d3 >> 4),
                        ((d3 & 0x0f) << 4) | (d4 >> 1),
                    ] =~= bs);
                } else {
                    let b3 = bs[3];
                    lemma_digit_bounds(b3, 0);
                    let d4 = ((b2 & 0x0f) << 1) | (b3 >> 7);
                    let d5 = (b3 >> 2) & 0x1f;
                    let d6 = (b3 & 0x03) << 3;
                    lemma_char_digit_roundtrip(d4);
                    lemma_char_digit_roundtrip(d5);
                    lemma_char_digit_roundtrip(d6);
                    assert(chars_valid(e));
                    assert(d6 & 0x07 == 0 && (d0 << 3) | (d1 >> 2) == b0 && ((d1 & 0x03) << 6) | (
                    d2 << 1) | (d3 >> 4) == b1 && ((d3 & 0x0f) << 4) | (d4 >> 1) == b2 && ((d4
                        & 0x01) << 7) | (d5 << 2) | (d6 >> 3) == b3) by (bit_vector)
                        requires
                            d0 == (b0 >> 3) && d1 == (((b0 & 0x07) << 2) | (b1 >> 6)) && d2 == ((b1
                                >> 1) & 0x1f) && d3 == (((b1 & 0x01) << 4) | (b2 >> 4)) && d4 == ((
                            (b2 & 0x0f) << 1) | (b3 >> 7)) && d5 == ((b3 >> 2) & 0x1f) && d6 == ((
                            b3 & 0x03) << 3),
                    ;
                    assert(seq![
                        (d0 << 3) | (d1 >> 2),
                        ((d1 & 0x03) << 6) | (d2 << 1) | (d3 >> 4),
                        ((d3 & 0x0f) << 4) | (d4 >> 1),
                        ((d4 & 0x01) << 7) | (d5 << 2) | (d6 >> 3),
                    ] =~= bs);
                }
            }
        }
    }
}

/// Encoding writes only symbols of the alphabet.
pub proof fn lemma_encode_valid(bs: Seq<u8>)
    ensures
        chars_valid(spec_encode(bs)),
    decreases bs.len(),
{
    let e = spec_encode(bs);
    if bs.len() == 0 {
    } else if bs.len() >= 5 {
        lemma_digit_bounds(bs[0], bs[1]);
        lemma_digit_bounds(bs[1], bs[2]);
        lemma_digit_bounds(bs[2], bs[3]);
        lemma_digit_bounds(bs[3], bs[4]);
        lemma_digit_bounds(bs[4], 0);
        lemma_encode_valid(bs.skip(5));
        assert forall|j: int| 0 <= j < e.len() implies is_base32_char(e[j]) by {
            if j >= 8 {
                assert(e[j] == spec_encode(bs.skip(5))[j - 8]);
            }
        }
    } else {
        lemma_digit_bounds(bs[0], b2_or(bs, 1));
        lemma_digit_bounds(b2_or(bs, 1), b2_or(bs, 2));
        lemma_digit_bounds(b2_or(bs, 2), b2_or(bs, 3));
        lemma_digit_bounds(b2_or(bs, 3), 0);
    }
}

/// The byte at `j`, or zero past the end; only to keep lemma calls total.
spec fn b2_or(bs: Seq<u8>, j: int) -> u8 {
    if 0 <= j < bs.len() {
        bs[j]
    } else {
        0
    }
}

} // verus!
