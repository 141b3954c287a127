//! The DRISL encoder: canonical CBOR bytes of a value.
//!
//! `enc_result` is the specification: the one byte sequence a value may
//! encode to, or the error that refuses it. The executable encoder returns
//! exactly that.

use vstd::prelude::*;

use crate::cid::spec_record;
use crate::error::EncodeError;
use crate::value::{canon_nan, is_nan_bits, is_snan_bits, Val, Value};

verus! {

/// The two bytes of a big-endian 16-bit value.
pub open spec fn be2(x: u64) -> Seq<u8> {
    seq![((x >> 8) & 0xff) as u8, (x & 0xff) as u8]
}

/// The four bytes of a big-endian 32-bit value.
pub open spec fn be4(x: u64) -> Seq<u8> {
    seq![
        ((x >> 24) & 0xff) as u8,
        ((x >> 16) & 0xff) as u8,
        ((x >> 8) & 0xff) as u8,
        (x & 0xff) as u8,
    ]
}

/// The eight bytes of a big-endian 64-bit value.
pub open spec fn be8(x: u64) -> Seq<u8> {
    seq![
        ((x >> 56) & 0xff) as u8,
        ((x >> 48) & 0xff) as u8,
        ((x >> 40) & 0xff) as u8,
        ((x >> 32) & 0xff) as u8,
        ((x >> 24) & 0xff) as u8,
        ((x >> 16) & 0xff) as u8,
        ((x >> 8) & 0xff) as u8,
        (x & 0xff) as u8,
    ]
}

/// The shortest head for major-type base `mb` (the major type already
/// shifted into the top three bits) and argument `arg`.
pub open spec fn head(mb: u8, arg: u64) -> Seq<u8> {
    if arg < 24 {
        seq![(mb + arg) as u8]
    } else if arg < 0x100 {
        seq![(mb + 24) as u8, arg as u8]
    } else if arg < 0x10000 {
        seq![(mb + 25) as u8] + be2(arg)
    } else if arg < 0x100000000 {
        seq![(mb + 26) as u8] + be4(arg)
    } else {
        seq![(mb + 27) as u8] + be8(arg)
    }
}

/// A float's bits as written: every NaN becomes the canonical quiet NaN.
pub open spec fn norm_float(bits: u64) -> u64 {
    if is_nan_bits(bits) {
        canon_nan()
    } else {
        bits
    }
}

/// The canonical bytes of a value, or the error that refuses it. The
/// length guards above 2^64 can never fail for a value built in memory;
/// they keep the definition total over the model.
pub open spec fn enc_result(v: Val) -> Result<Seq<u8>, EncodeError>
    decreases v,
{
    match v {
        Val::Null => Ok(seq![0xf6u8]),
        Val::Bool(b) => Ok(
            seq![
                if b {
                    0xf5u8
                } else {
                    0xf4u8
                },
            ],
        ),
        Val::Int(n) => {
            if 0 <= n < 0x10000000000000000 {
                Ok(head(0x00, n as u64))
            } else if -0x10000000000000000 <= n < 0 {
                Ok(head(0x20, (-1 - n) as u64))
            } else {
                Err(EncodeError::IntegerOutOfRange)
            }
        },
        Val::Float(bits) => {
            if is_snan_bits(bits) {
                Err(EncodeError::SignallingNan)
            } else {
                Ok(seq![0xfbu8] + be8(norm_float(bits)))
            }
        },
        Val::Text(bs) => {
            if bs.len() < 0x10000000000000000 {
                Ok(head(0x60, bs.len() as u64) + bs)
            } else {
                Err(EncodeError::IntegerOutOfRange)
            }
        },
        Val::Bytes(bs) => {
            if bs.len() < 0x10000000000000000 {
                Ok(head(0x40, bs.len() as u64) + bs)
            } else {
                Err(EncodeError::IntegerOutOfRange)
            }
        },
        Val::Array(es) => {
            if es.len() < 0x10000000000000000 {
                match enc_seq(es) {
                    Ok(body) => Ok(head(0x80, es.len() as u64) + body),
                    Err(e) => Err(e),
                }
            } else {
                Err(EncodeError::IntegerOutOfRange)
            }
        },
        Val::Mapping(es) => {
            if es.len() < 0x10000000000000000 {
                match enc_entries(es) {
                    Ok(body) => Ok(head(0xa0, es.len() as u64) + body),
                    Err(e) => Err(e),
                }
            } else {
                Err(EncodeError::IntegerOutOfRange)
            }
        },
        Val::Cid(c) => Ok(
            head(0xc0, 42) + head(0x40, (spec_record(c).len() + 1) as u64) + seq![0u8]
                + spec_record(c),
        ),
    }
}

/// The concatenated encodings of array elements.
pub open spec fn enc_seq(es: Seq<Val>) -> Result<Seq<u8>, EncodeError>
    decreases es,
{
    if es.len() == 0 {
        Ok(Seq::empty())
    } else {
        match enc_result(es[0]) {
            Err(e) => Err(e),
            Ok(h) => match enc_seq(es.drop_first()) {
                Err(e) => Err(e),
                Ok(t) => Ok(h + t),
            },
        }
    }
}

/// The concatenated encodings of map entries, each a text-string key then
/// a value.
pub open spec fn enc_entries(es: Seq<(Seq<u8>, Val)>) -> Result<Seq<u8>, EncodeError>
    decreases es,
{
    if es.len() == 0 {
        Ok(Seq::empty())
    } else if es[0].0.len() >= 0x10000000000000000 {
        Err(EncodeError::IntegerOutOfRange)
    } else {
        match enc_result(es[0].1) {
            Err(e) => Err(e),
            Ok(vb) => match enc_entries(es.drop_first()) {
                Err(e) => Err(e),
                Ok(t) => Ok(head(0x60, es[0].0.len() as u64) + es[0].0 + vb + t),
            },
        }
    }
}

/// Writes the shortest head for base `mb` and argument `arg`.
fn push_head(out: &mut Vec<u8>, mb: u8, arg: u64)
    requires
        mb == 0x00 || mb == 0x20 || mb == 0x40 || mb == 0x60 || mb == 0x80 || mb == 0xa0 || mb
            == 0xc0 || mb == 0xe0,
    ensures
        final(out)@ == old(out)@ + head(mb, arg),
{
    if arg < 24 {
        out.push(mb + (arg as u8));
        proof {
            assert(old(out)@ + head(mb, arg) =~= old(out)@.push((mb + arg) as u8));
        }
    } else if arg < 0x100 {
        out.push(mb + 24);
        out.push(arg as u8);
        proof {
            assert(old(out)@ + head(mb, arg) =~= old(out)@.push((mb + 24) as u8).push(arg as u8));
        }
    } else if arg < 0x10000 {
        out.push(mb + 25);
        out.push(((arg >> 8) & 0xff) as u8);
        out.push((arg & 0xff) as u8);
        proof {
            assert(old(out)@ + head(mb, arg) =~= old(out)@.push((mb + 25) as u8).push(
                ((arg >> 8) & 0xff) as u8,
            ).push((arg & 0xff) as u8));
        }
    } else if arg < 0x100000000 {
        out.push(mb + 26);
        out.push(((arg >> 24) & 0xff) as u8);
        out.push(((arg >> 16) & 0xff) as u8);
        out.push(((arg >> 8) & 0xff) as u8);
        out.push((arg & 0xff) as u8);
        proof {
            assert(old(out)@ + head(mb, arg) =~= old(out)@.push((mb + 26) as u8).push(
                ((arg >> 24) & 0xff) as u8,
            ).push(((arg >> 16) & 0xff) as u8).push(((arg >> 8) & 0xff) as u8).push(
                (arg & 0xff) as u8,
            ));
        }
    } else {
        out.push(mb + 27);
        out.push(((arg >> 56) & 0xff) as u8);
        out.push(((arg >> 48) & 0xff) as u8);
        out.push(((arg >> 40) & 0xff) as u8);
        out.push(((arg >> 32) & 0xff) as u8);
        out.push(((arg >> 24) & 0xff) as u8);
        out.push(((arg >> 16) & 0xff) as u8);
        out.push(((arg >> 8) & 0xff) as u8);
        out.push((arg & 0xff) as u8);
        proof {
            assert(old(out)@ + head(mb, arg) =~= old(out)@.push((mb + 27) as u8).push(
                ((arg >> 56) & 0xff) as u8,
            ).push(((arg >> 48) & 0xff) as u8).push(((arg >> 40) & 0xff) as u8).push(
                ((arg >> 32) & 0xff) as u8,
            ).push(((arg >> 24) & 0xff) as u8).push(((arg >> 16) & 0xff) as u8).push(
                ((arg >> 8) & 0xff) as u8,
            ).push((arg & 0xff) as u8));
        }
    }
}

/// The models of the tail of a sequence of values are the tail of the
/// models.
proof fn lemma_vals_of_step(es: Seq<Value>)
    requires
        es.len() > 0,
    ensures
        crate::value::vals_of(es).len() == 1 + crate::value::vals_of(es.drop_first()).len(),
        crate::value::vals_of(es)[0] == crate::value::val_of(es[0]),
        crate::value::vals_of(es).drop_first() == crate::value::vals_of(es.drop_first()),
{
    assert(crate::value::vals_of(es).drop_first() =~= crate::value::vals_of(es.drop_first()));
}

/// The models of the tail of a sequence of entries are the tail of the
/// models.
proof fn lemma_entries_of_step(es: Seq<(String, Value)>)
    requires
        es.len() > 0,
    ensures
        crate::value::entries_of(es).len() == 1 + crate::value::entries_of(
            es.drop_first(),
        ).len(),
        crate::value::entries_of(es)[0] == (
            vstd::utf8::encode_utf8(es[0].0@),
            crate::value::val_of(es[0].1),
        ),
        crate::value::entries_of(es).drop_first() == crate::value::entries_of(es.drop_first()),
{
    assert(crate::value::entries_of(es).drop_first() =~= crate::value::entries_of(
        es.drop_first(),
    ));
}

/// Writes the canonical bytes of `v` onto `out`, or reports the error and
/// leaves what was already written in place.
#[verifier::rlimit(100)]
pub fn encode_value(v: &Value, out: &mut Vec<u8>) -> (r: Result<(), EncodeError>)
    ensures
        match r {
            Ok(_) => enc_result(v@) is Ok && final(out)@ == old(out)@ + enc_result(v@)->Ok_0,
            Err(e) => enc_result(v@) == Err::<Seq<u8>, EncodeError>(e) && final(out)@.len() >= old(
                out,
            )@.len() && final(out)@.subrange(0, old(out)@.len() as int) == old(out)@,
        },
    decreases v,
{
    match v {
        Value::Null => {
            out.push(0xf6);
            proof {
                assert(old(out)@ + enc_result(v@)->Ok_0 =~= old(out)@.push(0xf6u8));
            }
            Ok(())
        },
        Value::Bool(b) => {
            out.push(
                if *b {
                    0xf5
                } else {
                    0xf4
                },
            );
            proof {
                assert(old(out)@ + enc_result(v@)->Ok_0 =~= old(out)@.push(
                    if *b {
                        0xf5u8
                    } else {
                        0xf4u8
                    },
                ));
            }
            Ok(())
        },
        Value::Integer(n) => {
            let n = *n;
            if n >= 0 {
                if n >= 0x10000000000000000i128 {
                    proof {
                        assert(out@.subrange(0, out@.len() as int) =~= out@);
                    }
                    return Err(EncodeError::IntegerOutOfRange);
                }
                push_head(out, 0x00, n as u64);
                Ok(())
            } else {
                if n < -0x10000000000000000i128 {
                    proof {
                        assert(out@.subrange(0, out@.len() as int) =~= out@);
                    }
                    return Err(EncodeError::IntegerOutOfRange);
                }
                let m: u64 = (-1 - n) as u64;
                push_head(out, 0x20, m);
                Ok(())
            }
        },
        Value::Float(bits) => {
            let bits = *bits;
            let nan = ((bits >> 52) & 0x7ff) == 0x7ff && (bits & 0xfffffffffffff) != 0;
            if nan && (bits & 0x8000000000000) == 0 {
                proof {
                    assert(out@.subrange(0, out@.len() as int) =~= out@);
                }
                return Err(EncodeError::SignallingNan);
            }
            let w: u64 = if nan {
                0x7ff8000000000000
            } else {
                bits
            };
            out.push(0xfb);
            out.push(((w >> 56) & 0xff) as u8);
            out.push(((w >> 48) & 0xff) as u8);
            out.push(((w >> 40) & 0xff) as u8);
            out.push(((w >> 32) & 0xff) as u8);
            out.push(((w >> 24) & 0xff) as u8);
            out.push(((w >> 16) & 0xff) as u8);
            out.push(((w >> 8) & 0xff) as u8);
            out.push((w & 0xff) as u8);
            proof {
                assert(old(out)@ + (seq![0xfbu8] + be8(w)) =~= old(out)@.push(0xfbu8).push(
                    ((w >> 56) & 0xff) as u8,
                ).push(((w >> 48) & 0xff) as u8).push(((w >> 40) & 0xff) as u8).push(
                    ((w >> 32) & 0xff) as u8,
                ).push(((w >> 24) & 0xff) as u8).push(((w >> 16) & 0xff) as u8).push(
                    ((w >> 8) & 0xff) as u8,
                ).push((w & 0xff) as u8));
            }
            Ok(())
        },
        Value::Text(s) => {
            let bs = s.as_str().as_bytes();
            push_head(out, 0x60, bs.len() as u64);
            push_slice(out, bs);
            proof {
                assert(old(out)@ + (head(0x60, bs@.len() as u64) + bs@) =~= old(out)@ + head(
                    0x60,
                    bs@.len() as u64,
                ) + bs@);
            }
            Ok(())
        },
        Value::Bytes(b) => {
            let bs = b.as_slice();
            push_head(out, 0x40, bs.len() as u64);
            push_slice(out, bs);
            proof {
                assert(old(out)@ + (head(0x40, bs@.len() as u64) + bs@) =~= old(out)@ + head(
                    0x40,
                    bs@.len() as u64,
                ) + bs@);
            }
            Ok(())
        },
        Value::Cid(c) => {
            proof {
                use_type_invariant(c);
            }
            let rec = c.as_bytes();
            out.push(0xd8);
            out.push(42);
            push_head(out, 0x40, (rec.len() + 1) as u64);
            out.push(0x00);
            push_slice(out, rec.as_slice());
            proof {
                assert(head(0xc0, 42) =~= seq![0xd8u8, 42u8]);
                assert(old(out)@ + (head(0xc0, 42) + head(0x40, (spec_record(c@).len() + 1) as u64)
                    + seq![0u8] + spec_record(c@)) =~= old(out)@.push(0xd8u8).push(42u8) + head(
                    0x40,
                    (spec_record(c@).len() + 1) as u64,
                ) + seq![0u8] + spec_record(c@));
            }
            Ok(())
        },
        Value::Array(es) => {
            let n = es.len();
            push_head(out, 0x80, n as u64);
            let ghost mid = out@;
            proof {
                lemma_vals_of_len(es@);
                assert(decreases_to!(*v => *es));
            }
            match encode_elems(es, out) {
                Ok(_) => {
                    proof {
                        let body = enc_seq(crate::value::vals_of(es@))->Ok_0;
                        assert(old(out)@ + (head(0x80, n as u64) + body) =~= mid + body);
                    }
                    Ok(())
                },
                Err(e) => {
                    proof {
                        assert forall|i: int| 0 <= i < old(out)@.len() implies out@[i] == old(
                            out,
                        )@[i] by {
                            assert(out@.subrange(0, mid.len() as int)[i] == mid[i]);
                        }
                        assert(out@.subrange(0, old(out)@.len() as int) =~= old(out)@);
                    }
                    Err(e)
                },
            }
        },
        Value::Mapping(es) => {
            let n = es.len();
            push_head(out, 0xa0, n as u64);
            let ghost mid = out@;
            proof {
                lemma_entries_of_len(es@);
                assert(decreases_to!(*v => *es));
            }
            match encode_entry_list(es, out) {
                Ok(_) => {
                    proof {
                        let body = enc_entries(crate::value::entries_of(es@))->Ok_0;
                        assert(old(out)@ + (head(0xa0, n as u64) + body) =~= mid + body);
                    }
                    Ok(())
                },
                Err(e) => {
                    proof {
                        assert forall|i: int| 0 <= i < old(out)@.len() implies out@[i] == old(
                            out,
                        )@[i] by {
                            assert(out@.subrange(0, mid.len() as int)[i] == mid[i]);
                        }
                        assert(out@.subrange(0, old(out)@.len() as int) =~= old(out)@);
                    }
                    Err(e)
                },
            }
        },
    }
}

/// The models of a sequence of values are as many as the values.
proof fn lemma_vals_of_len(es: Seq<Value>)
    ensures
        crate::value::vals_of(es).len() == es.len(),
    decreases es,
{
    if es.len() > 0 {
        lemma_vals_of_len(es.drop_first());
    }
}

/// The models of a sequence of entries are as many as the entries.
proof fn lemma_entries_of_len(es: Seq<(String, Value)>)
    ensures
        crate::value::entries_of(es).len() == es.len(),
    decreases es,
{
    if es.len() > 0 {
        lemma_entries_of_len(es.drop_first());
    }
}

/// Writes the encodings of the elements of an array, in order.
fn encode_elems(es: &Vec<Value>, out: &mut Vec<u8>) -> (r: Result<(), EncodeError>)
    ensures
        match r {
            Ok(_) => enc_seq(crate::value::vals_of(es@)) is Ok && final(out)@ == old(out)@
                + enc_seq(crate::value::vals_of(es@))->Ok_0,
            Err(e) => enc_seq(crate::value::vals_of(es@)) == Err::<Seq<u8>, EncodeError>(e)
                && final(out)@.len() >= old(out)@.len() && final(out)@.subrange(
                0,
                old(out)@.len() as int,
            ) == old(out)@,
        },
    decreases es,
{
    let n = es.len();
    let ghost base = out@;
    let ghost models = crate::value::vals_of(es@);
    let mut k: usize = 0;
    proof {
        assert(es@.skip(0) =~= es@);
        assert(base.subrange(base.len() as int, base.len() as int) =~= Seq::<u8>::empty());
    }
    while k < n
        invariant
            k <= n,
            n == es@.len(),
            models == crate::value::vals_of(es@),
            base == old(out)@,
            out@.len() >= base.len(),
            out@.subrange(0, base.len() as int) == base,
            enc_seq(models) == (match enc_seq(crate::value::vals_of(es@.skip(k as int))) {
                Ok(t) => Ok::<Seq<u8>, EncodeError>(
                    out@.subrange(base.len() as int, out@.len() as int) + t,
                ),
                Err(e) => Err(e),
            }),
        decreases n - k,
    {
        let ghost prev = out@;
        let ghost rest = es@.skip(k as int);
        proof {
            lemma_vals_of_step(rest);
            assert(rest.drop_first() =~= es@.skip(k + 1));
            assert(decreases_to!(*es => es@));
            assert(decreases_to!(es@ => es@[k as int]));
        }
        match encode_value(&es[k], out) {
            Ok(_) => {},
            Err(e) => {
                proof {
                    assert forall|i: int| 0 <= i < base.len() implies out@[i] == base[i] by {
                        assert(out@.subrange(0, prev.len() as int)[i] == prev[i]);
                        assert(prev.subrange(0, base.len() as int)[i] == base[i]);
                    }
                    assert(out@.subrange(0, base.len() as int) =~= base);
                }
                return Err(e);
            },
        }
        k = k + 1;
        proof {
            let b_k = enc_result(crate::value::val_of(es@[k - 1]))->Ok_0;
            let acc_prev = prev.subrange(base.len() as int, prev.len() as int);
            let acc_new = out@.subrange(base.len() as int, out@.len() as int);
            assert(out@.subrange(0, base.len() as int) =~= prev.subrange(0, base.len() as int));
            assert(acc_new =~= acc_prev + b_k);
            let tail = enc_seq(crate::value::vals_of(es@.skip(k as int)));
            if tail is Ok {
                let t = tail->Ok_0;
                assert(acc_prev + (b_k + t) =~= acc_new + t);
            }
        }
    }
    proof {
        assert(es@.skip(n as int) =~= Seq::<Value>::empty());
        assert(crate::value::vals_of(Seq::<Value>::empty()) =~= Seq::<crate::value::Val>::empty());
        let acc = out@.subrange(base.len() as int, out@.len() as int);
        assert(acc + Seq::<u8>::empty() =~= acc);
        assert(out@ =~= out@.subrange(0, base.len() as int) + acc);
    }
    Ok(())
}

/// Writes the encodings of the entries of a map, each a text-string key
/// then a value, in order.
fn encode_entry_list(es: &Vec<(String, Value)>, out: &mut Vec<u8>) -> (r: Result<(), EncodeError>)
    ensures
        match r {
            Ok(_) => enc_entries(crate::value::entries_of(es@)) is Ok && final(out)@ == old(out)@
                + enc_entries(crate::value::entries_of(es@))->Ok_0,
            Err(e) => enc_entries(crate::value::entries_of(es@)) == Err::<Seq<u8>, EncodeError>(e)
                && final(out)@.len() >= old(out)@.len() && final(out)@.subrange(
                0,
                old(out)@.len() as int,
            ) == old(out)@,
        },
    decreases es,
{
    let n = es.len();
    let ghost base = out@;
    let ghost models = crate::value::entries_of(es@);
    let mut k: usize = 0;
    proof {
        assert(es@.skip(0) =~= es@);
        assert(base.subrange(base.len() as int, base.len() as int) =~= Seq::<u8>::empty());
    }
    while k < n
        invariant
            k <= n,
            n == es@.len(),
            models == crate::value::entries_of(es@),
            base == old(out)@,
            out@.len() >= base.len(),
            out@.subrange(0, base.len() as int) == base,
            enc_entries(models) == (match enc_entries(
                crate::value::entries_of(es@.skip(k as int)),
            ) {
                Ok(t) => Ok::<Seq<u8>, EncodeError>(
                    out@.subrange(base.len() as int, out@.len() as int) + t,
                ),
                Err(e) => Err(e),
            }),
        decreases n - k,
    {
        let ghost prev = out@;
        let ghost rest = es@.skip(k as int);
        proof {
            lemma_entries_of_step(rest);
            assert(rest.drop_first() =~= es@.skip(k + 1));
            assert(decreases_to!(*es => es@));
            assert(decreases_to!(es@ => es@[k as int]));
            assert(decreases_to!(es@[k as int] => es@[k as int].1));
        }
        let kb = es[k].0.as_str().as_bytes();
        push_head(out, 0x60, kb.len() as u64);
        push_slice(out, kb);
        let ghost pre_child = out@;
        match encode_value(&es[k].1, out) {
            Ok(_) => {},
            Err(e) => {
                proof {
                    assert forall|i: int| 0 <= i < base.len() implies out@[i] == base[i] by {
                        assert(out@.subrange(0, pre_child.len() as int)[i] == pre_child[i]);
                        assert(prev.subrange(0, base.len() as int)[i] == base[i]);
                    }
                    assert(out@.subrange(0, base.len() as int) =~= base);
                }
                return Err(e);
            },
        }
        k = k + 1;
        proof {
            let kbytes = vstd::utf8::encode_utf8(es@[k - 1].0@);
            let vb = enc_result(crate::value::val_of(es@[k - 1].1))->Ok_0;
            let piece = head(0x60, kbytes.len() as u64) + kbytes + vb;
            let acc_prev = prev.subrange(base.len() as int, prev.len() as int);
            let acc_new = out@.subrange(base.len() as int, out@.len() as int);
            assert(out@.subrange(0, base.len() as int) =~= prev.subrange(0, base.len() as int));
            assert(acc_new =~= acc_prev + piece);
            let tail = enc_entries(crate::value::entries_of(es@.skip(k as int)));
            if tail is Ok {
                let t = tail->Ok_0;
                assert(piece + t =~= head(0x60, kbytes.len() as u64) + kbytes + vb + t);
                assert(acc_prev + (piece + t) =~= acc_new + t);
            }
        }
    }
    proof {
        assert(es@.skip(n as int) =~= Seq::<(String, Value)>::empty());
        assert(crate::value::entries_of(Seq::<(String, Value)>::empty()) =~= Seq::<
            (Seq<u8>, crate::value::Val),
        >::empty());
        let acc = out@.subrange(base.len() as int, out@.len() as int);
        assert(acc + Seq::<u8>::empty() =~= acc);
        assert(out@ =~= out@.subrange(0, base.len() as int) + acc);
    }
    Ok(())
}

/// The canonical bytes of a value: byte-identical on every call with equal
/// input, failing exactly on an integer out of range or a signalling NaN.
pub fn encode_to_bytes(value: &Value) -> (r: Result<Vec<u8>, EncodeError>)
    ensures
        match r {
            Ok(b) => enc_result(value@) == Ok::<Seq<u8>, EncodeError>(b@),
            Err(e) => enc_result(value@) == Err::<Seq<u8>, EncodeError>(e),
        },
{
    let mut out: Vec<u8> = Vec::new();
    match encode_value(value, &mut out) {
        Ok(_) => {
            proof {
                assert(Seq::<u8>::empty() + enc_result(value@)->Ok_0 =~= enc_result(
                    value@,
                )->Ok_0);
            }
            Ok(out)
        },
        Err(e) => Err(e),
    }
}

/// Appends a whole slice.
fn push_slice(out: &mut Vec<u8>, bs: &[u8])
    ensures
        final(out)@ == old(out)@ + bs@,
{
    let mut j: usize = 0;
    proof {
        assert(out@ =~= old(out)@ + bs@.take(0));
    }
    while j < bs.len()
        invariant
            j <= bs@.len(),
            out@ == old(out)@ + bs@.take(j as int),
        decreases bs.len() - j,
    {
        out.push(bs[j]);
        j = j + 1;
        proof {
            assert(old(out)@ + bs@.take(j as int) =~= (old(out)@ + bs@.take(j - 1)).push(
                bs@[j - 1],
            ));
        }
    }
    proof {
        assert(bs@.take(bs@.len() as int) =~= bs@);
    }
}

} // verus!
