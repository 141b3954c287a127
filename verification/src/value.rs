//! The dynamic DRISL value and its mathematical model.
//!
//! `Value` is the executable type; `Val` is the ghost model every contract
//! speaks of: text becomes its UTF-8 bytes, a float its IEEE-754 binary64
//! bit pattern, a CID its full 36-byte form.

use vstd::prelude::*;

use crate::cid::Cid;

verus! {

/// Ghost model of a DRISL value.
pub enum Val {
    Null,
    Bool(bool),
    Int(int),
    /// IEEE-754 binary64 bit pattern.
    Float(u64),
    /// UTF-8 bytes of the text.
    Text(Seq<u8>),
    Bytes(Seq<u8>),
    Array(Seq<Val>),
    /// Entries in order, each a key's UTF-8 bytes and a value.
    Mapping(Seq<(Seq<u8>, Val)>),
    /// The full 36-byte CID form.
    Cid(Seq<u8>),
}

/// A dynamic DRISL value.
///
/// A float is carried as its bit pattern: the codec's float rules — one
/// canonical NaN, binary64 only — are rules on bits.
#[derive(Debug, PartialEq)]
pub enum Value {
    Null,
    Bool(bool),
    Integer(i128),
    /// IEEE-754 binary64 bit pattern, `f64::to_bits` form.
    Float(u64),
    Text(String),
    Bytes(Vec<u8>),
    Array(Vec<Value>),
    /// Entries in canonical key order; see [`Value::map_set`].
    Mapping(Vec<(String, Value)>),
    Cid(Cid),
}

/// Models of the elements of an array.
pub open spec fn vals_of(es: Seq<Value>) -> Seq<Val>
    decreases es,
{
    if es.len() == 0 {
        Seq::empty()
    } else {
        seq![val_of(es[0])] + vals_of(es.drop_first())
    }
}

/// Models of the entries of a map.
pub open spec fn entries_of(es: Seq<(String, Value)>) -> Seq<(Seq<u8>, Val)>
    decreases es,
{
    if es.len() == 0 {
        Seq::empty()
    } else {
        seq![(vstd::utf8::encode_utf8(es[0].0@), val_of(es[0].1))] + entries_of(es.drop_first())
    }
}

/// Model of a value.
pub open spec fn val_of(v: Value) -> Val
    decreases v,
{
    match v {
        Value::Null => Val::Null,
        Value::Bool(b) => Val::Bool(b),
        Value::Integer(n) => Val::Int(n as int),
        Value::Float(bits) => Val::Float(bits),
        Value::Text(s) => Val::Text(vstd::utf8::encode_utf8(s@)),
        Value::Bytes(b) => Val::Bytes(b@),
        Value::Array(es) => Val::Array(vals_of(es@)),
        Value::Mapping(es) => Val::Mapping(entries_of(es@)),
        Value::Cid(c) => Val::Cid(c@),
    }
}

impl View for Value {
    type V = Val;

    open spec fn view(&self) -> Val {
        val_of(*self)
    }
}

impl From<String> for Value {
    fn from(value: String) -> (r: Value) {
        Value::Text(value)
    }
}

impl vstd::std_specs::convert::FromSpecImpl<String> for Value {
    open spec fn obeys_from_spec() -> bool {
        true
    }

    open spec fn from_spec(v: String) -> Value {
        Value::Text(v)
    }
}

impl From<Cid> for Value {
    fn from(value: Cid) -> (r: Value) {
        Value::Cid(value)
    }
}

impl vstd::std_specs::convert::FromSpecImpl<Cid> for Value {
    open spec fn obeys_from_spec() -> bool {
        true
    }

    open spec fn from_spec(v: Cid) -> Value {
        Value::Cid(v)
    }
}

impl From<bool> for Value {
    fn from(value: bool) -> (r: Value) {
        Value::Bool(value)
    }
}

impl vstd::std_specs::convert::FromSpecImpl<bool> for Value {
    open spec fn obeys_from_spec() -> bool {
        true
    }

    open spec fn from_spec(v: bool) -> Value {
        Value::Bool(v)
    }
}

impl From<u32> for Value {
    fn from(value: u32) -> (r: Value) {
        Value::Integer(value as i128)
    }
}

impl vstd::std_specs::convert::FromSpecImpl<u32> for Value {
    open spec fn obeys_from_spec() -> bool {
        true
    }

    open spec fn from_spec(v: u32) -> Value {
        Value::Integer(v as i128)
    }
}

impl From<u64> for Value {
    fn from(value: u64) -> (r: Value) {
        Value::Integer(value as i128)
    }
}

impl vstd::std_specs::convert::FromSpecImpl<u64> for Value {
    open spec fn obeys_from_spec() -> bool {
        true
    }

    open spec fn from_spec(v: u64) -> Value {
        Value::Integer(v as i128)
    }
}

impl From<i32> for Value {
    fn from(value: i32) -> (r: Value) {
        Value::Integer(value as i128)
    }
}

impl vstd::std_specs::convert::FromSpecImpl<i32> for Value {
    open spec fn obeys_from_spec() -> bool {
        true
    }

    open spec fn from_spec(v: i32) -> Value {
        Value::Integer(v as i128)
    }
}

impl From<i64> for Value {
    fn from(value: i64) -> (r: Value) {
        Value::Integer(value as i128)
    }
}

impl vstd::std_specs::convert::FromSpecImpl<i64> for Value {
    open spec fn obeys_from_spec() -> bool {
        true
    }

    open spec fn from_spec(v: i64) -> Value {
        Value::Integer(v as i128)
    }
}

impl From<i128> for Value {
    fn from(value: i128) -> (r: Value) {
        Value::Integer(value)
    }
}

impl vstd::std_specs::convert::FromSpecImpl<i128> for Value {
    open spec fn obeys_from_spec() -> bool {
        true
    }

    open spec fn from_spec(v: i128) -> Value {
        Value::Integer(v)
    }
}

impl From<Vec<u8>> for Value {
    fn from(value: Vec<u8>) -> (r: Value) {
        Value::Bytes(value)
    }
}

impl vstd::std_specs::convert::FromSpecImpl<Vec<u8>> for Value {
    open spec fn obeys_from_spec() -> bool {
        true
    }

    open spec fn from_spec(v: Vec<u8>) -> Value {
        Value::Bytes(v)
    }
}

/// Strict order on map keys: shorter first, then byte-lexicographic. This
/// is the order of the keys' canonical encodings.
pub open spec fn key_lt(a: Seq<u8>, b: Seq<u8>) -> bool {
    a.len() < b.len() || (a.len() == b.len() && lex_lt(a, b))
}

/// Byte-lexicographic order of two equal-length sequences.
pub open spec fn lex_lt(a: Seq<u8>, b: Seq<u8>) -> bool
    decreases a.len(),
{
    if a.len() == 0 || b.len() == 0 {
        false
    } else if a[0] < b[0] {
        true
    } else if a[0] > b[0] {
        false
    } else {
        lex_lt(a.drop_first(), b.drop_first())
    }
}

/// Equal-length sequences with an equal head and equal tails are equal.
proof fn lemma_head_tail_eq(a: Seq<u8>, b: Seq<u8>)
    requires
        a.len() == b.len(),
        a.len() > 0,
        a[0] == b[0],
        a.drop_first() == b.drop_first(),
    ensures
        a == b,
{
    assert forall|i: int| 0 <= i < a.len() implies a[i] == b[i] by {
        if i > 0 {
            assert(a[i] == a.subrange(1, a.len() as int)[i - 1]);
            assert(b[i] == b.subrange(1, b.len() as int)[i - 1]);
            assert(a.drop_first()[i - 1] == b.drop_first()[i - 1]);
        }
    }
    assert(a =~= b);
}

/// `lex_lt` never relates equal-length sequences both ways.
proof fn lemma_lex_lt_asym(a: Seq<u8>, b: Seq<u8>)
    requires
        a.len() == b.len(),
    ensures
        !(lex_lt(a, b) && lex_lt(b, a)),
        !(lex_lt(a, b) && a == b),
    decreases a.len(),
{
    if a.len() > 0 && a[0] == b[0] {
        lemma_lex_lt_asym(a.drop_first(), b.drop_first());
        if a == b {
            assert(a.drop_first() =~= b.drop_first());
        }
    }
}

/// `key_lt` never holds both ways, and never of a sequence and itself.
pub proof fn lemma_key_lt_asym(a: Seq<u8>, b: Seq<u8>)
    ensures
        key_lt(a, b) ==> !key_lt(b, a),
        key_lt(a, b) ==> a != b,
{
    if a.len() == b.len() {
        lemma_lex_lt_asym(a, b);
        if a == b {
            lemma_lex_lt_asym(a, a);
        }
    }
}

/// Two keys compare some way: below, equal, or above.
pub proof fn lemma_key_lt_total(a: Seq<u8>, b: Seq<u8>)
    ensures
        key_lt(a, b) || key_lt(b, a) || a == b,
    decreases a.len(),
{
    if a.len() == b.len() {
        if a.len() == 0 {
            assert(a =~= b);
        } else if a[0] == b[0] {
            lemma_key_lt_total(a.drop_first(), b.drop_first());
            if a.drop_first() == b.drop_first() {
                lemma_head_tail_eq(a, b);
            }
        }
    }
}

/// The first index where two equal-length sequences differ decides their
/// lexicographic order.
proof fn lemma_lex_lt_from_diff(a: Seq<u8>, b: Seq<u8>, j: int)
    requires
        a.len() == b.len(),
        0 <= j < a.len(),
        forall|i: int| 0 <= i < j ==> a[i] == b[i],
        a[j] < b[j],
    ensures
        lex_lt(a, b),
    decreases j,
{
    if j > 0 {
        assert(a[0] == b[0]);
        assert forall|i: int| 0 <= i < j - 1 implies a.drop_first()[i] == b.drop_first()[i] by {
            assert(a.drop_first()[i] == a[i + 1]);
            assert(b.drop_first()[i] == b[i + 1]);
        }
        assert(a.drop_first()[j - 1] == a[j]);
        assert(b.drop_first()[j - 1] == b[j]);
        lemma_lex_lt_from_diff(a.drop_first(), b.drop_first(), j - 1);
    }
}

/// Three-way comparison in canonical key order: -1, 0 or 1 as `a` comes
/// before, equals, or comes after `b`.
pub fn key_cmp(a: &[u8], b: &[u8]) -> (r: i8)
    ensures
        r == -1 || r == 0 || r == 1,
        (r == -1) == key_lt(a@, b@),
        (r == 0) == (a@ == b@),
        (r == 1) == key_lt(b@, a@),
{
    proof {
        lemma_key_lt_asym(a@, b@);
        lemma_key_lt_asym(b@, a@);
    }
    if a.len() < b.len() {
        return -1;
    }
    if a.len() > b.len() {
        return 1;
    }
    let mut j: usize = 0;
    while j < a.len()
        invariant
            j <= a@.len(),
            a@.len() == b@.len(),
            forall|i: int| 0 <= i < j ==> a@[i] == b@[i],
        decreases a.len() - j,
    {
        if a[j] < b[j] {
            proof {
                lemma_lex_lt_from_diff(a@, b@, j as int);
                lemma_key_lt_asym(a@, b@);
            }
            return -1;
        }
        if a[j] > b[j] {
            proof {
                lemma_lex_lt_from_diff(b@, a@, j as int);
                lemma_key_lt_asym(b@, a@);
            }
            return 1;
        }
        j = j + 1;
    }
    proof {
        assert(a@ =~= b@);
        lemma_lex_lt_asym(a@, b@);
    }
    0
}

/// The structural invariant of a model value: map keys are valid UTF-8,
/// strictly ascending in canonical key order, and every nested value is
/// well formed; a CID holds a well-formed 36-byte form.
pub open spec fn wf(v: Val) -> bool
    decreases v,
{
    match v {
        Val::Text(bs) => vstd::utf8::valid_utf8(bs),
        Val::Array(es) => wf_seq(es),
        Val::Mapping(es) => wf_entries(es),
        Val::Cid(c) => crate::cid::cid_seq_wf(c),
        _ => true,
    }
}

/// Well-formedness of array elements.
pub open spec fn wf_seq(es: Seq<Val>) -> bool
    decreases es,
{
    if es.len() == 0 {
        true
    } else {
        wf(es[0]) && wf_seq(es.drop_first())
    }
}

/// Well-formedness of map entries: keys valid UTF-8 and strictly
/// ascending, values well formed.
pub open spec fn wf_entries(es: Seq<(Seq<u8>, Val)>) -> bool
    decreases es,
{
    if es.len() == 0 {
        true
    } else {
        vstd::utf8::valid_utf8(es[0].0) && wf(es[0].1) && (es.len() > 1 ==> key_lt(
            es[0].0,
            es[1].0,
        )) && wf_entries(es.drop_first())
    }
}

/// The canonical quiet NaN bit pattern.
pub open spec fn canon_nan() -> u64 {
    0x7ff8000000000000
}

/// True when a binary64 bit pattern denotes a NaN.
pub open spec fn is_nan_bits(bits: u64) -> bool {
    (bits >> 52) & 0x7ff == 0x7ff && (bits & 0xfffffffffffff) != 0
}

/// True when a binary64 bit pattern denotes a signalling NaN.
pub open spec fn is_snan_bits(bits: u64) -> bool {
    is_nan_bits(bits) && (bits & 0x8000000000000) == 0
}

/// True when every float in the value is either not a NaN or the one
/// canonical NaN — the only floats decoding can produce.
pub open spec fn canon(v: Val) -> bool
    decreases v,
{
    match v {
        Val::Float(bits) => is_nan_bits(bits) ==> bits == canon_nan(),
        Val::Array(es) => canon_seq(es),
        Val::Mapping(es) => canon_entries(es),
        _ => true,
    }
}

/// Float canonicality of array elements.
pub open spec fn canon_seq(es: Seq<Val>) -> bool
    decreases es,
{
    if es.len() == 0 {
        true
    } else {
        canon(es[0]) && canon_seq(es.drop_first())
    }
}

/// Float canonicality of map entry values.
pub open spec fn canon_entries(es: Seq<(Seq<u8>, Val)>) -> bool
    decreases es,
{
    if es.len() == 0 {
        true
    } else {
        canon(es[0].1) && canon_entries(es.drop_first())
    }
}

/// Nesting depth of a value: arrays, maps and the CID tag each count one
/// level against the decoder's budget.
pub open spec fn val_depth(v: Val) -> int
    decreases v,
{
    match v {
        Val::Array(es) => 1 + depth_seq(es),
        Val::Mapping(es) => 1 + depth_entries(es),
        Val::Cid(_) => 1,
        _ => 0,
    }
}

/// Greatest depth among array elements.
pub open spec fn depth_seq(es: Seq<Val>) -> int
    decreases es,
{
    if es.len() == 0 {
        0
    } else {
        let d = val_depth(es[0]);
        let r = depth_seq(es.drop_first());
        if d >= r {
            d
        } else {
            r
        }
    }
}

/// Greatest depth among map entry values.
pub open spec fn depth_entries(es: Seq<(Seq<u8>, Val)>) -> int
    decreases es,
{
    if es.len() == 0 {
        0
    } else {
        let d = val_depth(es[0].1);
        let r = depth_entries(es.drop_first());
        if d >= r {
            d
        } else {
            r
        }
    }
}


/// `es` with `k` bound to `v`: an existing binding of `k` is replaced,
/// a new one is put where the canonical key order places it.
pub open spec fn entries_set(es: Seq<(Seq<u8>, Val)>, k: Seq<u8>, v: Val) -> Seq<(Seq<u8>, Val)>
    decreases es,
{
    if es.len() == 0 {
        seq![(k, v)]
    } else if key_lt(k, es[0].0) {
        seq![(k, v)] + es
    } else if k == es[0].0 {
        seq![(k, v)] + es.drop_first()
    } else {
        seq![es[0]] + entries_set(es.drop_first(), k, v)
    }
}

/// Binding a valid key in a well-formed entry run keeps it well formed.
pub proof fn lemma_entries_set_wf(es: Seq<(Seq<u8>, Val)>, k: Seq<u8>, v: Val)
    requires
        wf_entries(es),
        vstd::utf8::valid_utf8(k),
        wf(v),
    ensures
        wf_entries(entries_set(es, k, v)),
    decreases es,
{
    let r = entries_set(es, k, v);
    if es.len() == 0 {
        assert(r.drop_first() =~= Seq::<(Seq<u8>, Val)>::empty());
        assert(wf_entries(Seq::<(Seq<u8>, Val)>::empty()));
        assert(r[0] == (k, v) && r[0].0 == k && r[0].1 == v);
    } else if key_lt(k, es[0].0) {
        assert(r.drop_first() =~= es);
        assert(r[0] == (k, v) && r[0].0 == k && r[0].1 == v);
        assert(r[1] == es[0]);
    } else if k == es[0].0 {
        assert(r.drop_first() =~= es.drop_first());
        assert(r[0] == (k, v) && r[0].0 == k && r[0].1 == v);
        if es.len() > 1 {
            assert(r[1] == es.drop_first()[0]);
            assert(es.drop_first()[0] == es[1]);
        }
    } else {
        lemma_key_lt_total(k, es[0].0);
        lemma_entries_set_wf(es.drop_first(), k, v);
        assert(r.drop_first() =~= entries_set(es.drop_first(), k, v));
        assert(r[0] == es[0] && r[0].0 == es[0].0 && r[0].1 == es[0].1);
        if es.len() > 1 {
            assert(es.drop_first()[0] == es[1]);
        }
        let inner = entries_set(es.drop_first(), k, v);
        assert(r[1] == inner[0]);
        if es.len() == 1 {
            assert(inner =~= seq![(k, v)]);
        } else {
            if key_lt(k, es[1].0) || k == es[1].0 {
                assert(inner[0].0 == k);
            } else {
                assert(inner[0] == es[1]);
            }
        }
    }
}

impl Value {
    /// Binds `key` to `value` in a map's entries, keeping them in
    /// canonical key order with no duplicate; an equal key's binding is
    /// replaced.
    pub fn map_set(entries: Vec<(String, Value)>, key: String, value: Value) -> (r: Vec<
        (String, Value),
    >)
        ensures
            entries_of(r@) == entries_set(
                entries_of(entries@),
                vstd::utf8::encode_utf8(key@),
                value@,
            ),
    {
        let ghost kk = vstd::utf8::encode_utf8(key@);
        let ghost vv = val_of(value);
        let ghost full = entries_of(entries@);
        let mut src = entries;
        let mut out: Vec<(String, Value)> = Vec::new();
        proof {
            assert(entries_of(Seq::<(String, Value)>::empty()) =~= Seq::<(Seq<u8>, Val)>::empty());
            assert(entries_of(out@) + entries_set(entries_of(src@), kk, vv) =~= entries_set(
                full,
                kk,
                vv,
            ));
        }
        while src.len() > 0 && key_cmp(src[0].0.as_str().as_bytes(), key.as_str().as_bytes())
            == -1
            invariant
                kk == vstd::utf8::encode_utf8(key@),
                entries_set(full, kk, vv) == entries_of(out@) + entries_set(
                    entries_of(src@),
                    kk,
                    vv,
                ),
            decreases src@.len(),
        {
            let ghost src_model = entries_of(src@);
            let ghost m0 = (vstd::utf8::encode_utf8(src@[0].0@), val_of(src@[0].1));
            proof {
                assert(src_model[0] == m0);
                assert(src_model.drop_first() =~= entries_of(src@.drop_first()));
                lemma_key_lt_asym(m0.0, kk);
                assert(entries_set(src_model, kk, vv) =~= seq![m0] + entries_set(
                    src_model.drop_first(),
                    kk,
                    vv,
                ));
            }
            let ghost src_before = src@;
            let pair = src.remove(0);
            let ghost old_out = out@;
            out.push(pair);
            proof {
                assert(src@ =~= src_before.drop_first());
                assert(entries_of(src@) == src_model.drop_first());
                lemma_entries_of_push_tail(old_out, out@[out@.len() - 1]);
                assert(out@ =~= old_out.push(out@[out@.len() - 1]));
                assert(entries_of(old_out) + (seq![m0] + entries_set(
                    entries_of(src@),
                    kk,
                    vv,
                )) =~= entries_of(out@) + entries_set(entries_of(src@), kk, vv));
            }
        }
        let ghost stop_model = entries_of(src@);
        if src.len() > 0 {
            let c = key_cmp(src[0].0.as_str().as_bytes(), key.as_str().as_bytes());
            let ghost m0 = (vstd::utf8::encode_utf8(src@[0].0@), val_of(src@[0].1));
            proof {
                assert(stop_model[0] == m0);
                assert(stop_model.drop_first() =~= entries_of(src@.drop_first()));
                lemma_key_lt_asym(kk, m0.0);
            }
            if c == 0 {
                proof {
                    assert(entries_set(stop_model, kk, vv) =~= seq![(kk, vv)]
                        + stop_model.drop_first());
                }
                let ghost src_before = src@;
                let _ = src.remove(0);
                proof {
                    assert(src@ =~= src_before.drop_first());
                    assert(entries_of(src@) == stop_model.drop_first());
                }
            } else {
                proof {
                    assert(entries_set(stop_model, kk, vv) =~= seq![(kk, vv)] + stop_model);
                }
            }
        } else {
            proof {
                assert(stop_model =~= Seq::<(Seq<u8>, Val)>::empty());
                assert(entries_set(stop_model, kk, vv) =~= seq![(kk, vv)]);
                assert(seq![(kk, vv)] =~= seq![(kk, vv)] + entries_of(src@));
            }
        }
        proof {
            assert(entries_set(full, kk, vv) == entries_of(out@) + (seq![(kk, vv)] + entries_of(
                src@,
            )));
        }
        let ghost old_out = out@;
        out.push((key, value));
        proof {
            lemma_entries_of_push_tail(old_out, out@[out@.len() - 1]);
            assert(out@ =~= old_out.push(out@[out@.len() - 1]));
            assert(entries_of(old_out) + (seq![(kk, vv)] + entries_of(src@)) =~= entries_of(out@)
                + entries_of(src@));
        }
        let mut j: usize = 0;
        proof {
            assert(src@.skip(0) =~= src@);
        }
        while j < src.len()
            invariant
                j <= src@.len(),
                entries_set(full, kk, vv) == entries_of(out@) + entries_of(src@.skip(j as int)),
            decreases src@.len() - j,
        {
            let ghost rest = src@.skip(j as int);
            proof {
                assert(rest[0] == src@[j as int]);
                assert(rest.drop_first() =~= src@.skip(j + 1));
            }
            let p = (crate::cid::string_from_utf8(vec_of_str(&src[j].0)), clone_value(&src[j].1));
            let ghost old_out2 = out@;
            out.push(p);
            j = j + 1;
            proof {
                lemma_entries_of_push_tail(old_out2, out@[out@.len() - 1]);
                assert(out@ =~= old_out2.push(out@[out@.len() - 1]));
                vstd::utf8::decode_utf8_encode_utf8(vstd::utf8::encode_utf8(src@[j - 1].0@));
                assert(entries_of(rest) =~= seq![
                    (vstd::utf8::encode_utf8(src@[j - 1].0@), val_of(src@[j - 1].1)),
                ] + entries_of(src@.skip(j as int)));
                assert(entries_of(old_out2) + entries_of(rest) =~= entries_of(out@) + entries_of(
                    src@.skip(j as int),
                ));
            }
        }
        proof {
            assert(src@.skip(src@.len() as int) =~= Seq::<(String, Value)>::empty());
            assert(entries_of(Seq::<(String, Value)>::empty()) =~= Seq::<(Seq<u8>, Val)>::empty());
            assert(entries_of(out@) + Seq::<(Seq<u8>, Val)>::empty() =~= entries_of(out@));
        }
        out
    }
}

/// Appending one entry appends its model.
pub(crate) proof fn lemma_entries_of_push_tail(s: Seq<(String, Value)>, x: (String, Value))
    ensures
        entries_of(s.push(x)) == entries_of(s).push(
            (vstd::utf8::encode_utf8(x.0@), val_of(x.1)),
        ),
    decreases s,
{
    let m = (vstd::utf8::encode_utf8(x.0@), val_of(x.1));
    if s.len() == 0 {
        assert(s.push(x)[0] == x);
        assert(s.push(x)[0].0 == x.0 && s.push(x)[0].1 == x.1);
        assert(s.push(x).drop_first() =~= Seq::<(String, Value)>::empty());
        assert(entries_of(Seq::<(String, Value)>::empty()) =~= Seq::<(Seq<u8>, Val)>::empty());
        assert(entries_of(s.push(x)) =~~= seq![m]);
        assert(entries_of(s).push(m) =~~= seq![m]);
    } else {
        lemma_entries_of_push_tail(s.drop_first(), x);
        assert(s.push(x).drop_first() =~= s.drop_first().push(x));
        assert(s.push(x)[0] == s[0]);
        assert(s.push(x)[0].0 == s[0].0 && s.push(x)[0].1 == s[0].1);
        assert(entries_of(s).push(m) =~~= seq![
            (vstd::utf8::encode_utf8(s[0].0@), val_of(s[0].1)),
        ] + entries_of(s.drop_first()).push(m));
    }
}

/// A copy of a string's bytes.
fn vec_of_str(s: &String) -> (r: Vec<u8>)
    ensures
        r@ == vstd::utf8::encode_utf8(s@),
        vstd::utf8::valid_utf8(r@),
{
    let bs = s.as_str().as_bytes();
    let mut r: Vec<u8> = Vec::new();
    proof {
        assert(r@ =~= bs@.take(0));
    }
    let mut j: usize = 0;
    while j < bs.len()
        invariant
            j <= bs@.len(),
            r@ == bs@.take(j as int),
        decreases bs.len() - j,
    {
        r.push(bs[j]);
        j = j + 1;
        proof {
            assert(bs@.take(j as int) =~= bs@.take(j - 1).push(bs@[j - 1]));
        }
    }
    proof {
        assert(bs@.take(bs@.len() as int) =~= bs@);
        vstd::utf8::encode_utf8_valid_utf8(s@);
    }
    r
}

/// A structural copy of a value, with the same model.
pub fn clone_value(v: &Value) -> (r: Value)
    ensures
        r@ == v@,
    decreases v,
{
    match v {
        Value::Null => Value::Null,
        Value::Bool(b) => Value::Bool(*b),
        Value::Integer(n) => Value::Integer(*n),
        Value::Float(bits) => Value::Float(*bits),
        Value::Text(s) => Value::Text(crate::cid::string_from_utf8(vec_of_str(s))),
        Value::Bytes(b) => {
            let mut nb: Vec<u8> = Vec::new();
            let mut j: usize = 0;
            proof {
                assert(nb@ =~= b@.take(0));
            }
            while j < b.len()
                invariant
                    j <= b@.len(),
                    nb@ == b@.take(j as int),
                decreases b@.len() - j,
            {
                nb.push(b[j]);
                j = j + 1;
                proof {
                    assert(b@.take(j as int) =~= b@.take(j - 1).push(b@[j - 1]));
                }
            }
            proof {
                assert(b@.take(b@.len() as int) =~= b@);
            }
            Value::Bytes(nb)
        },
        Value::Array(es) => {
            let mut ns: Vec<Value> = Vec::new();
            let mut j: usize = 0;
            proof {
                assert(vals_of(Seq::<Value>::empty()) =~= Seq::<Val>::empty());
                assert(es@.skip(0) =~= es@);
                assert(vals_of(es@) =~= vals_of(ns@) + vals_of(es@.skip(0)));
                assert(decreases_to!(*v => *es));
            }
            while j < es.len()
                invariant
                    j <= es@.len(),
                    decreases_to!(*v => *es),
                    vals_of(es@) == vals_of(ns@) + vals_of(es@.skip(j as int)),
                decreases es@.len() - j,
            {
                let ghost rest = es@.skip(j as int);
                proof {
                    assert(rest[0] == es@[j as int]);
                    assert(rest.drop_first() =~= es@.skip(j + 1));
                    assert(decreases_to!(*es => es@));
                    assert(decreases_to!(es@ => es@[j as int]));
                }
                let c = clone_value(&es[j]);
                let ghost old_ns = ns@;
                ns.push(c);
                j = j + 1;
                proof {
                    lemma_vals_of_push_tail(old_ns, c);
                    assert(vals_of(rest) =~= seq![val_of(es@[j - 1])] + vals_of(
                        es@.skip(j as int),
                    ));
                    assert(vals_of(old_ns).push(val_of(c)) + vals_of(es@.skip(j as int))
                        =~= vals_of(old_ns) + (seq![val_of(es@[j - 1])] + vals_of(
                        es@.skip(j as int),
                    )));
                }
            }
            proof {
                assert(es@.skip(es@.len() as int) =~= Seq::<Value>::empty());
                assert(vals_of(ns@) + vals_of(Seq::<Value>::empty()) =~= vals_of(ns@));
            }
            Value::Array(ns)
        },
        Value::Mapping(es) => {
            let mut ns: Vec<(String, Value)> = Vec::new();
            let mut j: usize = 0;
            proof {
                assert(entries_of(Seq::<(String, Value)>::empty()) =~= Seq::<
                    (Seq<u8>, Val),
                >::empty());
                assert(es@.skip(0) =~= es@);
                assert(entries_of(es@) =~= entries_of(ns@) + entries_of(es@.skip(0)));
                assert(decreases_to!(*v => *es));
            }
            while j < es.len()
                invariant
                    j <= es@.len(),
                    decreases_to!(*v => *es),
                    entries_of(es@) == entries_of(ns@) + entries_of(es@.skip(j as int)),
                decreases es@.len() - j,
            {
                let ghost rest = es@.skip(j as int);
                proof {
                    assert(rest[0] == es@[j as int]);
                    assert(rest.drop_first() =~= es@.skip(j + 1));
                    assert(decreases_to!(*es => es@));
                    assert(decreases_to!(es@ => es@[j as int]));
                    assert(decreases_to!(es@[j as int] => es@[j as int].1));
                }
                let ks = crate::cid::string_from_utf8(vec_of_str(&es[j].0));
                let c = clone_value(&es[j].1);
                let ghost old_ns = ns@;
                ns.push((ks, c));
                j = j + 1;
                proof {
                    lemma_entries_of_push_tail(old_ns, (ks, c));
                    vstd::utf8::decode_utf8_encode_utf8(vstd::utf8::encode_utf8(es@[j - 1].0@));
                    assert(entries_of(rest) =~= seq![
                        (vstd::utf8::encode_utf8(es@[j - 1].0@), val_of(es@[j - 1].1)),
                    ] + entries_of(es@.skip(j as int)));
                    assert(entries_of(old_ns).push(
                        (vstd::utf8::encode_utf8(ks@), val_of(c)),
                    ) + entries_of(es@.skip(j as int)) =~= entries_of(old_ns) + (seq![
                        (vstd::utf8::encode_utf8(es@[j - 1].0@), val_of(es@[j - 1].1)),
                    ] + entries_of(es@.skip(j as int))));
                }
            }
            proof {
                assert(es@.skip(es@.len() as int) =~= Seq::<(String, Value)>::empty());
                assert(entries_of(ns@) + entries_of(Seq::<(String, Value)>::empty())
                    =~= entries_of(ns@));
            }
            Value::Mapping(ns)
        },
        Value::Cid(c) => Value::Cid(c.clone()),
    }
}

/// Appending one value appends its model.
pub(crate) proof fn lemma_vals_of_push_tail(s: Seq<Value>, x: Value)
    ensures
        vals_of(s.push(x)) == vals_of(s).push(val_of(x)),
    decreases s,
{
    if s.len() == 0 {
        assert(s.push(x)[0] == x);
        assert(s.push(x).drop_first() =~= Seq::<Value>::empty());
        assert(vals_of(Seq::<Value>::empty()) =~= Seq::<Val>::empty());
        assert(vals_of(s.push(x)) =~= seq![val_of(x)]);
        assert(vals_of(s).push(val_of(x)) =~= seq![val_of(x)]);
    } else {
        lemma_vals_of_push_tail(s.drop_first(), x);
        assert(s.push(x).drop_first() =~= s.drop_first().push(x));
        assert(s.push(x)[0] == s[0]);
        assert(vals_of(s).push(val_of(x)) =~= seq![val_of(s[0])] + vals_of(s.drop_first()).push(
            val_of(x),
        ));
    }
}

} // verus!
