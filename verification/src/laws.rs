//! The codec's laws: what decoding guarantees about encoding and the
//! other way round.
//!
//! Decoding is sound: whatever it accepts re-encodes to exactly the bytes
//! it consumed, so the codec accepts canonical form only. It is also
//! complete: a well-formed value's canonical encoding, read anywhere in a
//! larger input with enough nesting budget, parses back to that value —
//! which is what lets concatenated encodings stream out again one by one.
//! And the nesting budget is real: one array too many fails with exactly
//! a depth overflow.

use vstd::prelude::*;

use crate::cid::{lemma_from_bytes_raw_wf, spec_from_bytes_raw, spec_record};
use crate::decode::{parse_arg, parse_elems, parse_entries, parse_value, spec_decode_one,
    DEPTH_LIMIT};
use crate::encode::{be8, enc_entries, enc_result, enc_seq, head, norm_float};
use crate::error::{DecodeError, EncodeError};
use crate::value::{canon, canon_entries, canon_nan, canon_seq, depth_entries, depth_seq,
    is_nan_bits, is_snan_bits, key_lt, val_depth, wf, wf_entries, wf_seq, Val};

verus! {

/// Eight bytes written big-endian read back as themselves.
proof fn lemma_be8_bytes(x: u64, b1: u8, b2: u8, b3: u8, b4: u8, b5: u8, b6: u8, b7: u8, b8: u8)
    requires
        x == ((b1 as u64) << 56) | ((b2 as u64) << 48) | ((b3 as u64) << 40) | ((b4 as u64) << 32)
            | ((b5 as u64) << 24) | ((b6 as u64) << 16) | ((b7 as u64) << 8) | (b8 as u64),
    ensures
        be8(x) == seq![b1, b2, b3, b4, b5, b6, b7, b8],
{
    assert(((x >> 56) & 0xff) == b1 as u64 && ((x >> 48) & 0xff) == b2 as u64 && ((x >> 40) & 0xff)
        == b3 as u64 && ((x >> 32) & 0xff) == b4 as u64 && ((x >> 24) & 0xff) == b5 as u64 && ((x
        >> 16) & 0xff) == b6 as u64 && ((x >> 8) & 0xff) == b7 as u64 && (x & 0xff) == b8 as u64)
        by (bit_vector)
        requires
            x == ((b1 as u64) << 56) | ((b2 as u64) << 48) | ((b3 as u64) << 40) | ((b4 as u64)
                << 32) | ((b5 as u64) << 24) | ((b6 as u64) << 16) | ((b7 as u64) << 8) | (
            b8 as u64),
    ;
    assert(be8(x) =~= seq![b1, b2, b3, b4, b5, b6, b7, b8]);
}

/// An argument read in shortest form re-encodes to the bytes it came from,
/// under the head byte's own major bits.
proof fn lemma_arg_sound(b: Seq<u8>, pos: int)
    requires
        0 <= pos < b.len(),
        parse_arg(b, pos) is Ok,
    ensures
        ({
            let (x, np) = parse_arg(b, pos)->Ok_0;
            &&& pos < np <= b.len()
            &&& head((b[pos] & 0xe0), x) == b.subrange(pos, np)
        }),
{
    let byte = b[pos];
    let ai = byte & 0x1f;
    let mb = byte & 0xe0;
    let (x, np) = parse_arg(b, pos)->Ok_0;
    assert((byte & 0xe0) + (byte & 0x1f) == byte && (byte & 0x1f) < 32) by (bit_vector);
    if ai < 24 {
        assert(head(mb, x) =~= seq![byte]);
        assert(b.subrange(pos, pos + 1) =~= seq![byte]);
    } else if ai == 24 {
        assert(head(mb, x) =~= seq![byte, b[pos + 1]]);
        assert(b.subrange(pos, pos + 2) =~= seq![byte, b[pos + 1]]);
    } else if ai == 25 {
        let b1 = b[pos + 1];
        let b2 = b[pos + 2];
        assert(x < 0x10000 && ((x >> 8) & 0xff) == b1 as u64 && (x & 0xff) == b2 as u64)
            by (bit_vector)
            requires
                x == ((b1 as u64) << 8) | (b2 as u64),
        ;
        assert(head(mb, x) =~= seq![byte, b1, b2]);
        assert(b.subrange(pos, pos + 3) =~= seq![byte, b1, b2]);
    } else if ai == 26 {
        let b1 = b[pos + 1];
        let b2 = b[pos + 2];
        let b3 = b[pos + 3];
        let b4 = b[pos + 4];
        assert(x < 0x100000000 && ((x >> 24) & 0xff) == b1 as u64 && ((x >> 16) & 0xff)
            == b2 as u64 && ((x >> 8) & 0xff) == b3 as u64 && (x & 0xff) == b4 as u64)
            by (bit_vector)
            requires
                x == ((b1 as u64) << 24) | ((b2 as u64) << 16) | ((b3 as u64) << 8) | (b4 as u64),
        ;
        assert(head(mb, x) =~= seq![byte, b1, b2, b3, b4]);
        assert(b.subrange(pos, pos + 5) =~= seq![byte, b1, b2, b3, b4]);
    } else {
        let b1 = b[pos + 1];
        let b2 = b[pos + 2];
        let b3 = b[pos + 3];
        let b4 = b[pos + 4];
        let b5 = b[pos + 5];
        let b6 = b[pos + 6];
        let b7 = b[pos + 7];
        let b8 = b[pos + 8];
        lemma_be8_bytes(x, b1, b2, b3, b4, b5, b6, b7, b8);
        assert(head(mb, x) =~= seq![byte] + be8(x));
        assert(head(mb, x) =~= seq![byte, b1, b2, b3, b4, b5, b6, b7, b8]);
        assert(b.subrange(pos, pos + 9) =~= seq![byte, b1, b2, b3, b4, b5, b6, b7, b8]);
    }
}

/// Soundness of the parser: an accepted value is well formed, carries only
/// canonical floats, fits the nesting budget, and re-encodes to exactly
/// the bytes it was read from.
#[verifier::rlimit(100)]
pub proof fn lemma_parse_value_sound(b: Seq<u8>, pos: int, depth: int)
    requires
        parse_value(b, pos, depth) is Ok,
    ensures
        ({
            let r = parse_value(b, pos, depth)->Ok_0;
            &&& 0 <= pos < r.1 <= b.len()
            &&& wf(r.0)
            &&& canon(r.0)
            &&& (depth >= 0 ==> val_depth(r.0) <= depth)
            &&& enc_result(r.0) == Ok::<Seq<u8>, EncodeError>(b.subrange(pos, r.1))
        }),
    decreases b.len() - pos, 0int, 0int,
{
    let byte = b[pos];
    let mt = byte >> 5;
    let ai = byte & 0x1f;
    let (v, end) = parse_value(b, pos, depth)->Ok_0;
    assert((byte >> 5) < 8 && (byte & 0xe0) == (byte >> 5) << 5 && (byte & 0x1f) < 32 && byte == (
    (byte >> 5) << 5) + (byte & 0x1f)) by (bit_vector);
    if mt == 0 {
        lemma_arg_sound(b, pos);
        assert(byte & 0xe0 == 0x00) by (bit_vector)
            requires
                byte >> 5 == 0u8,
        ;
    } else if mt == 1 {
        lemma_arg_sound(b, pos);
        assert(byte & 0xe0 == 0x20) by (bit_vector)
            requires
                byte >> 5 == 1u8,
        ;
        let (x, np) = parse_arg(b, pos)->Ok_0;
        assert(-1 - (-1 - x as int) == x as int);
    } else if mt == 2 {
        lemma_arg_sound(b, pos);
        assert(byte & 0xe0 == 0x40) by (bit_vector)
            requires
                byte >> 5 == 2u8,
        ;
        let (x, np) = parse_arg(b, pos)->Ok_0;
        let bs = b.subrange(np, np + x);
        assert(bs.len() as u64 == x);
        assert(b.subrange(pos, np + x) =~= b.subrange(pos, np) + bs);
    } else if mt == 3 {
        lemma_arg_sound(b, pos);
        assert(byte & 0xe0 == 0x60) by (bit_vector)
            requires
                byte >> 5 == 3u8,
        ;
        let (x, np) = parse_arg(b, pos)->Ok_0;
        let bs = b.subrange(np, np + x);
        assert(bs.len() as u64 == x);
        assert(b.subrange(pos, np + x) =~= b.subrange(pos, np) + bs);
    } else if mt == 4 {
        lemma_arg_sound(b, pos);
        assert(byte & 0xe0 == 0x80) by (bit_vector)
            requires
                byte >> 5 == 4u8,
        ;
        let (n, np) = parse_arg(b, pos)->Ok_0;
        lemma_parse_elems_sound(b, np, n, depth - 1);
        let (vs, e2) = parse_elems(b, np, n, depth - 1)->Ok_0;
        assert(vs.len() as u64 == n);
        assert(b.subrange(pos, e2) =~= b.subrange(pos, np) + b.subrange(np, e2));
    } else if mt == 5 {
        lemma_arg_sound(b, pos);
        assert(byte & 0xe0 == 0xa0) by (bit_vector)
            requires
                byte >> 5 == 5u8,
        ;
        let (n, np) = parse_arg(b, pos)->Ok_0;
        lemma_parse_entries_sound(b, np, n, depth - 1, None);
        let (es, e2) = parse_entries(b, np, n, depth - 1, None)->Ok_0;
        assert(es.len() as u64 == n);
        assert(b.subrange(pos, e2) =~= b.subrange(pos, np) + b.subrange(np, e2));
    } else if mt == 6 {
        lemma_arg_sound(b, pos);
        assert(byte & 0xe0 == 0xc0) by (bit_vector)
            requires
                byte >> 5 == 6u8,
        ;
        let (t, np) = parse_arg(b, pos)->Ok_0;
        lemma_arg_sound(b, np);
        let pb = b[np];
        assert(pb & 0xe0 == 0x40) by (bit_vector)
            requires
                pb >> 5 == 2u8,
        ;
        let (x, np2) = parse_arg(b, np)->Ok_0;
        let content = b.subrange(np2, np2 + x);
        lemma_from_bytes_raw_wf(content.skip(1));
        let full = spec_from_bytes_raw(content.skip(1))->Ok_0;
        let rec = spec_record(full);
        assert(rec == content.skip(1));
        assert(content.len() as u64 == x);
        assert((rec.len() + 1) as u64 == x);
        assert(seq![0u8] + rec =~= content);
        assert(head(0xc0, 42) == b.subrange(pos, np));
        assert(head(0x40, (rec.len() + 1) as u64) == b.subrange(np, np2));
        assert(b.subrange(pos, np2 + x) =~= b.subrange(pos, np) + b.subrange(np, np2) + content);
        assert(head(0xc0, 42) + head(0x40, (rec.len() + 1) as u64) + seq![0u8] + rec =~= b.subrange(
            pos,
            np,
        ) + b.subrange(np, np2) + content);
    } else {
        if ai == 20 {
            assert(byte == 0xf4) by (bit_vector)
                requires
                    byte >> 5 == 7u8 && byte & 0x1f == 20u8,
            ;
            assert(b.subrange(pos, pos + 1) =~= seq![0xf4u8]);
        } else if ai == 21 {
            assert(byte == 0xf5) by (bit_vector)
                requires
                    byte >> 5 == 7u8 && byte & 0x1f == 21u8,
            ;
            assert(b.subrange(pos, pos + 1) =~= seq![0xf5u8]);
        } else if ai == 22 {
            assert(byte == 0xf6) by (bit_vector)
                requires
                    byte >> 5 == 7u8 && byte & 0x1f == 22u8,
            ;
            assert(b.subrange(pos, pos + 1) =~= seq![0xf6u8]);
        } else {
            assert(byte == 0xfb) by (bit_vector)
                requires
                    byte >> 5 == 7u8 && byte & 0x1f == 27u8,
            ;
            let bits = ((b[pos + 1] as u64) << 56) | ((b[pos + 2] as u64) << 48) | ((b[pos
                + 3] as u64) << 40) | ((b[pos + 4] as u64) << 32) | ((b[pos + 5] as u64) << 24) | (
            (b[pos + 6] as u64) << 16) | ((b[pos + 7] as u64) << 8) | (b[pos + 8] as u64);
            assert((0x7ff8000000000000u64 & 0x8000000000000u64) != 0) by (bit_vector);
            assert(!is_snan_bits(bits));
            lemma_be8_bytes(
                bits,
                b[pos + 1],
                b[pos + 2],
                b[pos + 3],
                b[pos + 4],
                b[pos + 5],
                b[pos + 6],
                b[pos + 7],
                b[pos + 8],
            );
            assert(seq![0xfbu8] + be8(bits) =~= b.subrange(pos, pos + 9));
        }
    }
}

/// Soundness for a run of array elements.
pub proof fn lemma_parse_elems_sound(b: Seq<u8>, pos: int, count: u64, depth: int)
    requires
        0 <= pos <= b.len(),
        parse_elems(b, pos, count, depth) is Ok,
    ensures
        ({
            let r = parse_elems(b, pos, count, depth)->Ok_0;
            &&& pos <= r.1 <= b.len()
            &&& r.0.len() == count
            &&& wf_seq(r.0)
            &&& canon_seq(r.0)
            &&& (depth >= 0 ==> depth_seq(r.0) <= depth)
            &&& enc_seq(r.0) == Ok::<Seq<u8>, EncodeError>(b.subrange(pos, r.1))
        }),
    decreases b.len() - pos, 1int, 1 + count,
{
    if count == 0 {
        assert(b.subrange(pos, pos) =~= Seq::<u8>::empty());
    } else {
        lemma_parse_value_sound(b, pos, depth);
        let (v, np) = parse_value(b, pos, depth)->Ok_0;
        lemma_parse_elems_sound(b, np, (count - 1) as u64, depth);
        let (vs2, end) = parse_elems(b, np, (count - 1) as u64, depth)->Ok_0;
        let vs = seq![v] + vs2;
        assert(vs.drop_first() =~= vs2);
        assert(vs[0] == v);
        assert(b.subrange(pos, end) =~= b.subrange(pos, np) + b.subrange(np, end));
    }
}

/// Soundness for a run of map entries: as many as asked, keys strictly
/// ascending and above `prev`, and the concatenation of their canonical
/// encodings.
pub proof fn lemma_parse_entries_sound(
    b: Seq<u8>,
    pos: int,
    count: u64,
    depth: int,
    prev: Option<Seq<u8>>,
)
    requires
        0 <= pos <= b.len(),
        parse_entries(b, pos, count, depth, prev) is Ok,
    ensures
        ({
            let r = parse_entries(b, pos, count, depth, prev)->Ok_0;
            &&& pos <= r.1 <= b.len()
            &&& r.0.len() == count
            &&& wf_entries(r.0)
            &&& canon_entries(r.0)
            &&& (depth >= 0 ==> depth_entries(r.0) <= depth)
            &&& (count > 0 && prev is Some ==> key_lt(prev->0, r.0[0].0))
            &&& enc_entries(r.0) == Ok::<Seq<u8>, EncodeError>(b.subrange(pos, r.1))
        }),
    decreases b.len() - pos, 1int, 1 + count,
{
    if count == 0 {
        assert(b.subrange(pos, pos) =~= Seq::<u8>::empty());
    } else {
        let kb = b[pos];
        assert(kb & 0xe0 == 0x60) by (bit_vector)
            requires
                kb >> 5 == 3u8,
        ;
        lemma_arg_sound(b, pos);
        let (klen, kp) = parse_arg(b, pos)->Ok_0;
        let key = b.subrange(kp, kp + klen);
        assert(key.len() as u64 == klen);
        lemma_parse_value_sound(b, kp + klen, depth);
        let (v, np) = parse_value(b, kp + klen, depth)->Ok_0;
        lemma_parse_entries_sound(b, np, (count - 1) as u64, depth, Some(key));
        let (es2, end) = parse_entries(b, np, (count - 1) as u64, depth, Some(key))->Ok_0;
        let es = seq![(key, v)] + es2;
        assert(es.drop_first() =~= es2);
        assert(es[0] == (key, v));
        if es2.len() > 0 {
            assert(es[1] == es2[0]);
        }
        let vb = b.subrange(kp + klen, np);
        assert(b.subrange(pos, kp) + key =~= b.subrange(pos, kp + klen));
        assert(b.subrange(pos, kp + klen) + vb =~= b.subrange(pos, np));
        assert(b.subrange(pos, np) + b.subrange(np, end) =~= b.subrange(pos, end));
        assert(head(0x60, klen) + key + vb + b.subrange(np, end) =~= b.subrange(pos, end));
    }
}

/// No canonical encoding is empty.
proof fn lemma_enc_nonempty(v: Val)
    requires
        enc_result(v) is Ok,
    ensures
        enc_result(v)->Ok_0.len() >= 1,
{
}

/// A window of `b` equals the matching window of one of its subranges.
proof fn lemma_sub_sub(b: Seq<u8>, pos: int, off: int, len: int, total: int)
    requires
        0 <= pos,
        0 <= off,
        0 <= len,
        off + len <= total,
        pos + total <= b.len(),
    ensures
        b.subrange(pos + off, pos + off + len) == b.subrange(pos, pos + total).subrange(
            off,
            off + len,
        ),
{
    let lhs = b.subrange(pos + off, pos + off + len);
    let rhs = b.subrange(pos, pos + total).subrange(off, off + len);
    assert forall|i: int| 0 <= i < len implies lhs[i] == rhs[i] by {
        assert(lhs[i] == b[pos + off + i]);
        assert(rhs[i] == b.subrange(pos, pos + total)[off + i]);
        assert(b.subrange(pos, pos + total)[off + i] == b[pos + (off + i)]);
    }
    assert(lhs =~= rhs);
}

/// The two parts of a concatenation, read back out of it.
proof fn lemma_split2(whole: Seq<u8>, p1: Seq<u8>, p2: Seq<u8>)
    requires
        whole == p1 + p2,
    ensures
        whole.len() == p1.len() + p2.len(),
        whole.subrange(0, p1.len() as int) == p1,
        whole.subrange(p1.len() as int, whole.len() as int) == p2,
{
    assert(whole.subrange(0, p1.len() as int) =~= p1);
    assert(whole.subrange(p1.len() as int, whole.len() as int) =~= p2);
}

/// The four parts of a concatenation, read back out of it.
proof fn lemma_split4(whole: Seq<u8>, p1: Seq<u8>, p2: Seq<u8>, p3: Seq<u8>, p4: Seq<u8>)
    requires
        whole == p1 + p2 + p3 + p4,
    ensures
        whole.len() == p1.len() + p2.len() + p3.len() + p4.len(),
        whole.subrange(0, p1.len() as int) == p1,
        whole.subrange(p1.len() as int, (p1.len() + p2.len()) as int) == p2,
        whole.subrange((p1.len() + p2.len()) as int, (p1.len() + p2.len() + p3.len()) as int)
            == p3,
        whole.subrange((p1.len() + p2.len() + p3.len()) as int, whole.len() as int) == p4,
{
    let a = p1.len() as int;
    let c = a + p2.len();
    let d = c + p3.len();
    assert forall|i: int| 0 <= i < whole.len() implies whole[i] == (if i < a {
        p1[i]
    } else if i < c {
        p2[i - a]
    } else if i < d {
        p3[i - c]
    } else {
        p4[i - d]
    }) by {
        assert(whole[i] == ((p1 + p2) + p3 + p4)[i]);
    }
    assert(whole.subrange(0, a) =~= p1);
    assert(whole.subrange(a, c) =~= p2);
    assert(whole.subrange(c, d) =~= p3);
    assert(whole.subrange(d, whole.len() as int) =~= p4);
}

/// Bytes that spell `head(mb, x)` read back as the argument `x`.
proof fn lemma_head_parse(b: Seq<u8>, pos: int, mb: u8, x: u64)
    requires
        0 <= pos,
        pos + head(mb, x).len() <= b.len(),
        b.subrange(pos, pos + head(mb, x).len()) == head(mb, x),
        mb & 0x1f == 0,
    ensures
        b[pos] >> 5 == mb >> 5,
        parse_arg(b, pos) == Ok::<(u64, int), DecodeError>((x, pos + head(mb, x).len())),
{
    let h = head(mb, x);
    assert forall|i: int| 0 <= i < h.len() implies b[pos + i] == h[i] by {
        assert(b.subrange(pos, pos + h.len() as int)[i] == b[pos + i]);
    }
    let byte = b[pos];
    assert(b[pos + 0] == h[0]);
    if x < 24 {
        let xb = x as u8;
        assert(((mb + xb) as u8) >> 5 == mb >> 5 && ((mb + xb) as u8) & 0x1f == xb)
            by (bit_vector)
            requires
                mb & 0x1f == 0u8 && xb < 24,
        ;
    } else if x < 0x100 {
        assert(((mb + 24) as u8) >> 5 == mb >> 5 && ((mb + 24) as u8) & 0x1f == 24)
            by (bit_vector)
            requires
                mb & 0x1f == 0u8,
        ;
        assert(b[pos + 1] == h[1]);
        assert((x as u8) as u64 == x);
    } else if x < 0x10000 {
        assert(((mb + 25) as u8) >> 5 == mb >> 5 && ((mb + 25) as u8) & 0x1f == 25)
            by (bit_vector)
            requires
                mb & 0x1f == 0u8,
        ;
        assert(b[pos + 1] == h[1] && b[pos + 2] == h[2]);
        let b1 = ((x >> 8) & 0xff) as u8;
        let b2 = (x & 0xff) as u8;
        assert(((b1 as u64) << 8) | (b2 as u64) == x) by (bit_vector)
            requires
                b1 == ((x >> 8) & 0xff) as u8 && b2 == (x & 0xff) as u8 && x < 0x10000,
        ;
    } else if x < 0x100000000 {
        assert(((mb + 26) as u8) >> 5 == mb >> 5 && ((mb + 26) as u8) & 0x1f == 26)
            by (bit_vector)
            requires
                mb & 0x1f == 0u8,
        ;
        assert(b[pos + 1] == h[1] && b[pos + 2] == h[2] && b[pos + 3] == h[3] && b[pos + 4]
            == h[4]);
        let b1 = ((x >> 24) & 0xff) as u8;
        let b2 = ((x >> 16) & 0xff) as u8;
        let b3 = ((x >> 8) & 0xff) as u8;
        let b4 = (x & 0xff) as u8;
        assert(((b1 as u64) << 24) | ((b2 as u64) << 16) | ((b3 as u64) << 8) | (b4 as u64) == x)
            by (bit_vector)
            requires
                b1 == ((x >> 24) & 0xff) as u8 && b2 == ((x >> 16) & 0xff) as u8 && b3 == ((x >> 8)
                    & 0xff) as u8 && b4 == (x & 0xff) as u8 && x < 0x100000000,
        ;
    } else {
        assert(((mb + 27) as u8) >> 5 == mb >> 5 && ((mb + 27) as u8) & 0x1f == 27)
            by (bit_vector)
            requires
                mb & 0x1f == 0u8,
        ;
        assert(b[pos + 1] == h[1] && b[pos + 2] == h[2] && b[pos + 3] == h[3] && b[pos + 4] == h[4]
            && b[pos + 5] == h[5] && b[pos + 6] == h[6] && b[pos + 7] == h[7] && b[pos + 8]
            == h[8]);
        let b1 = ((x >> 56) & 0xff) as u8;
        let b2 = ((x >> 48) & 0xff) as u8;
        let b3 = ((x >> 40) & 0xff) as u8;
        let b4 = ((x >> 32) & 0xff) as u8;
        let b5 = ((x >> 24) & 0xff) as u8;
        let b6 = ((x >> 16) & 0xff) as u8;
        let b7 = ((x >> 8) & 0xff) as u8;
        let b8 = (x & 0xff) as u8;
        assert(((b1 as u64) << 56) | ((b2 as u64) << 48) | ((b3 as u64) << 40) | ((b4 as u64)
            << 32) | ((b5 as u64) << 24) | ((b6 as u64) << 16) | ((b7 as u64) << 8) | (b8 as u64)
            == x) by (bit_vector)
            requires
                b1 == ((x >> 56) & 0xff) as u8 && b2 == ((x >> 48) & 0xff) as u8 && b3 == ((x
                    >> 40) & 0xff) as u8 && b4 == ((x >> 32) & 0xff) as u8 && b5 == ((x >> 24)
                    & 0xff) as u8 && b6 == ((x >> 16) & 0xff) as u8 && b7 == ((x >> 8) & 0xff) as u8
                    && b8 == (x & 0xff) as u8,
        ;
    }
}

/// The wire constants the completeness proof reads back.
proof fn lemma_wire_constants()
    ensures
        0xf4u8 >> 5 == 7 && 0xf4u8 & 0x1f == 20,
        0xf5u8 >> 5 == 7 && 0xf5u8 & 0x1f == 21,
        0xf6u8 >> 5 == 7 && 0xf6u8 & 0x1f == 22,
        0xfbu8 >> 5 == 7 && 0xfbu8 & 0x1f == 27,
        0x00u8 & 0x1f == 0 && 0x20u8 & 0x1f == 0 && 0x40u8 & 0x1f == 0 && 0x60u8 & 0x1f == 0
            && 0x80u8 & 0x1f == 0 && 0xa0u8 & 0x1f == 0 && 0xc0u8 & 0x1f == 0,
        0x00u8 >> 5 == 0 && 0x20u8 >> 5 == 1 && 0x40u8 >> 5 == 2 && 0x60u8 >> 5 == 3 && 0x80u8 >> 5
            == 4 && 0xa0u8 >> 5 == 5 && 0xc0u8 >> 5 == 6,
        (0x7ff8000000000000u64 >> 52) & 0x7ff == 0x7ff,
{
    assert(0xf4u8 >> 5 == 7 && 0xf4u8 & 0x1f == 20 && 0xf5u8 >> 5 == 7 && 0xf5u8 & 0x1f == 21
        && 0xf6u8 >> 5 == 7 && 0xf6u8 & 0x1f == 22 && 0xfbu8 >> 5 == 7 && 0xfbu8 & 0x1f == 27
        && 0x00u8 & 0x1f == 0 && 0x20u8 & 0x1f == 0 && 0x40u8 & 0x1f == 0 && 0x60u8 & 0x1f == 0
        && 0x80u8 & 0x1f == 0 && 0xa0u8 & 0x1f == 0 && 0xc0u8 & 0x1f == 0 && 0x00u8 >> 5 == 0
        && 0x20u8 >> 5 == 1 && 0x40u8 >> 5 == 2 && 0x60u8 >> 5 == 3 && 0x80u8 >> 5 == 4 && 0xa0u8
        >> 5 == 5 && 0xc0u8 >> 5 == 6 && (0x7ff8000000000000u64 >> 52) & 0x7ff == 0x7ff)
        by (bit_vector);
}

/// Depth of an element run is never negative.
proof fn lemma_depth_seq_nonneg(es: Seq<Val>)
    ensures
        depth_seq(es) >= 0,
    decreases es,
{
    if es.len() > 0 {
        lemma_depth_seq_nonneg(es.drop_first());
    }
}

/// Depth of an entry run is never negative.
proof fn lemma_depth_entries_nonneg(es: Seq<(Seq<u8>, Val)>)
    ensures
        depth_entries(es) >= 0,
    decreases es,
{
    if es.len() > 0 {
        lemma_depth_entries_nonneg(es.drop_first());
    }
}

/// Completeness of the parser: the canonical encoding of a well-formed
/// value, read anywhere inside a larger input with enough nesting budget,
/// parses back to exactly that value.
#[verifier::rlimit(100)]
pub proof fn lemma_parse_of_encoding(b: Seq<u8>, pos: int, depth: int, v: Val)
    requires
        wf(v),
        canon(v),
        enc_result(v) is Ok,
        val_depth(v) <= depth,
        0 <= pos,
        pos + enc_result(v)->Ok_0.len() <= b.len(),
        b.subrange(pos, pos + enc_result(v)->Ok_0.len()) == enc_result(v)->Ok_0,
    ensures
        parse_value(b, pos, depth) == Ok::<(Val, int), DecodeError>(
            (v, pos + enc_result(v)->Ok_0.len()),
        ),
    decreases v,
{
    let bs = enc_result(v)->Ok_0;
    lemma_wire_constants();
    assert forall|i: int| 0 <= i < bs.len() implies b[pos + i] == bs[i] by {
        assert(b.subrange(pos, pos + bs.len() as int)[i] == b[pos + i]);
    }
    match v {
        Val::Null => {
            assert(b[pos + 0] == bs[0]);
        },
        Val::Bool(bv) => {
            assert(b[pos + 0] == bs[0]);
        },
        Val::Int(n) => {
            if n >= 0 {
                lemma_head_parse(b, pos, 0x00, n as u64);
            } else {
                lemma_head_parse(b, pos, 0x20, (-1 - n) as u64);
                assert(-1 - ((-1 - n) as u64) as int == n);
            }
        },
        Val::Float(bits) => {
            assert(b[pos + 0] == bs[0]);
            let b1 = ((bits >> 56) & 0xff) as u8;
            let b2 = ((bits >> 48) & 0xff) as u8;
            let b3 = ((bits >> 40) & 0xff) as u8;
            let b4 = ((bits >> 32) & 0xff) as u8;
            let b5 = ((bits >> 24) & 0xff) as u8;
            let b6 = ((bits >> 16) & 0xff) as u8;
            let b7 = ((bits >> 8) & 0xff) as u8;
            let b8 = (bits & 0xff) as u8;
            assert(((b1 as u64) << 56) | ((b2 as u64) << 48) | ((b3 as u64) << 40) | ((b4 as u64)
                << 32) | ((b5 as u64) << 24) | ((b6 as u64) << 16) | ((b7 as u64) << 8) | (
            b8 as u64) == bits) by (bit_vector)
                requires
                    b1 == ((bits >> 56) & 0xff) as u8 && b2 == ((bits >> 48) & 0xff) as u8 && b3
                        == ((bits >> 40) & 0xff) as u8 && b4 == ((bits >> 32) & 0xff) as u8 && b5
                        == ((bits >> 24) & 0xff) as u8 && b6 == ((bits >> 16) & 0xff) as u8 && b7
                        == ((bits >> 8) & 0xff) as u8 && b8 == (bits & 0xff) as u8,
            ;
            assert(norm_float(bits) == bits);
            assert(bs =~= seq![0xfbu8] + be8(bits));
            assert(bs[1] == be8(bits)[0] && bs[2] == be8(bits)[1] && bs[3] == be8(bits)[2] && bs[4]
                == be8(bits)[3] && bs[5] == be8(bits)[4] && bs[6] == be8(bits)[5] && bs[7] == be8(
                bits,
            )[6] && bs[8] == be8(bits)[7]);
            assert(b[pos + 1] == b1 && b[pos + 2] == b2 && b[pos + 3] == b3 && b[pos + 4] == b4
                && b[pos + 5] == b5 && b[pos + 6] == b6 && b[pos + 7] == b7 && b[pos + 8] == b8);
        },
        Val::Bytes(body) => {
            let h = head(0x40, body.len() as u64);
            lemma_split2(bs, h, body);
            lemma_sub_sub(b, pos, 0, h.len() as int, bs.len() as int);
            lemma_sub_sub(b, pos, h.len() as int, body.len() as int, bs.len() as int);
            lemma_head_parse(b, pos, 0x40, body.len() as u64);
        },
        Val::Text(body) => {
            let h = head(0x60, body.len() as u64);
            lemma_split2(bs, h, body);
            lemma_sub_sub(b, pos, 0, h.len() as int, bs.len() as int);
            lemma_sub_sub(b, pos, h.len() as int, body.len() as int, bs.len() as int);
            lemma_head_parse(b, pos, 0x60, body.len() as u64);
        },
        Val::Array(es) => {
            let h = head(0x80, es.len() as u64);
            let body = enc_seq(es)->Ok_0;
            lemma_split2(bs, h, body);
            lemma_sub_sub(b, pos, 0, h.len() as int, bs.len() as int);
            lemma_sub_sub(b, pos, h.len() as int, body.len() as int, bs.len() as int);
            lemma_head_parse(b, pos, 0x80, es.len() as u64);
            lemma_depth_seq_nonneg(es);
            lemma_parse_elems_of_encoding(b, pos + h.len(), depth - 1, es);
        },
        Val::Mapping(es) => {
            let h = head(0xa0, es.len() as u64);
            let body = enc_entries(es)->Ok_0;
            lemma_split2(bs, h, body);
            lemma_sub_sub(b, pos, 0, h.len() as int, bs.len() as int);
            lemma_sub_sub(b, pos, h.len() as int, body.len() as int, bs.len() as int);
            lemma_head_parse(b, pos, 0xa0, es.len() as u64);
            lemma_depth_entries_nonneg(es);
            lemma_parse_entries_of_encoding(b, pos + h.len(), depth - 1, es, None);
        },
        Val::Cid(c) => {
            let rec = spec_record(c);
            let h1 = head(0xc0, 42);
            let h2 = head(0x40, (rec.len() + 1) as u64);
            lemma_split4(bs, h1, h2, seq![0u8], rec);
            lemma_sub_sub(b, pos, 0, h1.len() as int, bs.len() as int);
            lemma_sub_sub(b, pos, h1.len() as int, h2.len() as int, bs.len() as int);
            lemma_sub_sub(
                b,
                pos,
                (h1.len() + h2.len()) as int,
                1 + rec.len() as int,
                bs.len() as int,
            );
            lemma_head_parse(b, pos, 0xc0, 42);
            let np = pos + h1.len();
            lemma_head_parse(b, np, 0x40, (rec.len() + 1) as u64);
            let np2 = np + h2.len();
            let x = (rec.len() + 1) as u64;
            let content = b.subrange(np2, np2 + x);
            assert(bs.subrange((h1.len() + h2.len()) as int, bs.len() as int) =~= seq![0u8] + rec);
            assert(content == seq![0u8] + rec);
            assert(content[0] == 0);
            assert(content.skip(1) =~= rec);
            crate::cid::lemma_record_roundtrip(c);
        },
    }
}

/// Completeness for the elements of an array.
#[verifier::rlimit(100)]
pub proof fn lemma_parse_elems_of_encoding(b: Seq<u8>, pos: int, depth: int, es: Seq<Val>)
    requires
        wf_seq(es),
        canon_seq(es),
        enc_seq(es) is Ok,
        depth_seq(es) <= depth,
        es.len() < 0x10000000000000000,
        0 <= pos,
        pos + enc_seq(es)->Ok_0.len() <= b.len(),
        b.subrange(pos, pos + enc_seq(es)->Ok_0.len()) == enc_seq(es)->Ok_0,
    ensures
        parse_elems(b, pos, es.len() as u64, depth) == Ok::<(Seq<Val>, int), DecodeError>(
            (es, pos + enc_seq(es)->Ok_0.len()),
        ),
    decreases es,
{
    if es.len() == 0 {
        assert(es =~= Seq::<Val>::empty());
    } else {
        let whole = enc_seq(es)->Ok_0;
        let h = enc_result(es[0])->Ok_0;
        let t = enc_seq(es.drop_first())->Ok_0;
        lemma_split2(whole, h, t);
        lemma_sub_sub(b, pos, 0, h.len() as int, whole.len() as int);
        lemma_sub_sub(b, pos, h.len() as int, t.len() as int, whole.len() as int);
        lemma_enc_nonempty(es[0]);
        lemma_parse_of_encoding(b, pos, depth, es[0]);
        lemma_parse_elems_of_encoding(b, pos + h.len(), depth, es.drop_first());
        assert(seq![es[0]] + es.drop_first() =~= es);
        assert((es.len() - 1) as u64 == (es.len() as u64 - 1) as u64);
    }
}

/// Completeness for the entries of a map with strictly ascending keys.
#[verifier::rlimit(100)]
pub proof fn lemma_parse_entries_of_encoding(
    b: Seq<u8>,
    pos: int,
    depth: int,
    es: Seq<(Seq<u8>, Val)>,
    prev: Option<Seq<u8>>,
)
    requires
        wf_entries(es),
        canon_entries(es),
        enc_entries(es) is Ok,
        depth_entries(es) <= depth,
        es.len() < 0x10000000000000000,
        es.len() > 0 && prev is Some ==> key_lt(prev->0, es[0].0),
        0 <= pos,
        pos + enc_entries(es)->Ok_0.len() <= b.len(),
        b.subrange(pos, pos + enc_entries(es)->Ok_0.len()) == enc_entries(es)->Ok_0,
    ensures
        parse_entries(b, pos, es.len() as u64, depth, prev) == Ok::<
            (Seq<(Seq<u8>, Val)>, int),
            DecodeError,
        >((es, pos + enc_entries(es)->Ok_0.len())),
    decreases es,
{
    lemma_wire_constants();
    if es.len() == 0 {
        assert(es =~= Seq::<(Seq<u8>, Val)>::empty());
    } else {
        let key = es[0].0;
        let h = head(0x60, key.len() as u64);
        let vb = enc_result(es[0].1)->Ok_0;
        let t = enc_entries(es.drop_first())->Ok_0;
        let whole = enc_entries(es)->Ok_0;
        lemma_split4(whole, h, key, vb, t);
        lemma_sub_sub(b, pos, 0, h.len() as int, whole.len() as int);
        lemma_sub_sub(b, pos, h.len() as int, key.len() as int, whole.len() as int);
        lemma_sub_sub(
            b,
            pos,
            (h.len() + key.len()) as int,
            vb.len() as int,
            whole.len() as int,
        );
        lemma_sub_sub(
            b,
            pos,
            (h.len() + key.len() + vb.len()) as int,
            t.len() as int,
            whole.len() as int,
        );
        lemma_head_parse(b, pos, 0x60, key.len() as u64);
        let kp = pos + h.len();
        let vp = kp + key.len();
        let np = vp + vb.len();
        if prev is Some {
            crate::value::lemma_key_lt_asym(prev->0, key);
        }
        lemma_enc_nonempty(es[0].1);
        lemma_parse_of_encoding(b, vp, depth, es[0].1);
        if es.drop_first().len() > 0 {
            assert(es.drop_first()[0] == es[1]);
        }
        lemma_parse_entries_of_encoding(b, np, depth, es.drop_first(), Some(key));
        assert(seq![(key, es[0].1)] + es.drop_first() =~= es);
        assert((es.len() - 1) as u64 == (es.len() as u64 - 1) as u64);
    }
}

/// Decoding accepts canonical form only: a byte sequence that decodes as
/// one whole item is exactly the canonical encoding of the value it
/// yields.
pub proof fn lemma_round_trip(b: Seq<u8>)
    requires
        spec_decode_one(b) is Ok,
    ensures
        ({
            let v = spec_decode_one(b)->Ok_0;
            &&& wf(v)
            &&& canon(v)
            &&& enc_result(v) == Ok::<Seq<u8>, EncodeError>(b)
        }),
{
    lemma_parse_value_sound(b, 0, DEPTH_LIMIT as int);
    let (v, end) = parse_value(b, 0, DEPTH_LIMIT as int)->Ok_0;
    assert(b.subrange(0, b.len() as int) =~= b);
}


/// `k + 1` arrays, each wrapping the next, the innermost empty.
pub open spec fn nested_arrays(k: nat) -> Seq<u8>
    decreases k,
{
    if k == 0 {
        seq![0x80u8]
    } else {
        seq![0x81u8] + nested_arrays((k - 1) as nat)
    }
}

/// A chain of arrays nested past the budget fails with depth overflow.
pub proof fn lemma_depth_limit(b: Seq<u8>, pos: int, k: nat, depth: int)
    requires
        0 <= pos <= b.len(),
        b.subrange(pos, b.len() as int) == nested_arrays(k),
        0 <= depth <= k,
    ensures
        parse_value(b, pos, depth) == Err::<(Val, int), DecodeError>(DecodeError::DepthOverflow),
    decreases k,
{
    assert(0x80u8 >> 5 == 4 && 0x80u8 & 0x1f == 0 && 0x81u8 >> 5 == 4 && 0x81u8 & 0x1f == 1)
        by (bit_vector);
    let n = nested_arrays(k);
    assert(n.len() >= 1);
    assert(pos < b.len());
    assert(b.subrange(pos, b.len() as int)[0] == b[pos]);
    if k == 0 {
        assert(b[pos] == 0x80);
    } else {
        assert(b[pos] == 0x81);
        if depth > 0 {
            let inner = nested_arrays((k - 1) as nat);
            assert(n.len() == 1 + inner.len());
            assert forall|i: int| 0 <= i < inner.len() implies #[trigger] b.subrange(
                pos + 1,
                b.len() as int,
            )[i] == inner[i] by {
                assert(b.subrange(pos + 1, b.len() as int)[i] == b[pos + 1 + i]);
                assert(b.subrange(pos, b.len() as int)[1 + i] == b[pos + (1 + i)]);
                assert(n[1 + i] == inner[i]);
            }
            assert(b.subrange(pos + 1, b.len() as int) =~= inner);
            lemma_depth_limit(b, pos + 1, (k - 1) as nat, depth - 1);
        }
    }
}

/// The depth limit acts: an input nesting one more array than the budget
/// allows fails with exactly `DepthOverflow`.
pub proof fn lemma_depth_limit_default(k: nat)
    requires
        k >= DEPTH_LIMIT,
    ensures
        spec_decode_one(nested_arrays(k)) == Err::<Val, DecodeError>(DecodeError::DepthOverflow),
{
    let b = nested_arrays(k);
    assert(b.subrange(0, b.len() as int) =~= b);
    lemma_depth_limit(b, 0, k, DEPTH_LIMIT as int);
}

} // verus!
