//! The typed binary codec every payload is carried in.
//!
//! A field type describes a deterministic binary layout: fixed-width
//! big-endian integers; blobs and strings behind a 16-bit length prefix;
//! fixed arrays laid out element after element; variable arrays behind a
//! 16-bit count prefix; structs as their fields in declaration order. A
//! decoder needs only the declared type, never the schema's source text,
//! and decoding a value's own encoding gives the value back.

use vstd::prelude::*;
use crate::errors::CodecError;
use crate::framing::be32;
use crate::framing::from_be32;
use crate::framing::from_be32_exec;
use crate::framing::lemma_be32_roundtrip;

verus! {

/// A compiled field type: what layout a value travels in.
#[derive(Debug, PartialEq, Eq)]
pub enum FieldType {
    UInt8,
    UInt16,
    UInt32,
    UInt64,
    /// Arbitrary bytes behind a 16-bit length prefix.
    Blob,
    /// UTF-8 text, carried exactly as a blob.
    Text,
    /// As many elements of the inner type as the declared count, with no
    /// prefix: the count is part of the type.
    FixedArray(Box<FieldType>, u16),
    /// A 16-bit element count, then that many elements of the inner type.
    VarArray(Box<FieldType>),
    /// The fields' layouts, one after the other, in declaration order.
    Struct(Vec<FieldType>),
}

/// A decoded value as it is held and built at runtime.
#[derive(Debug, PartialEq, Eq)]
pub enum Value {
    U8(u8),
    U16(u16),
    U32(u32),
    U64(u64),
    Bytes(Vec<u8>),
    List(Vec<Value>),
    Record(Vec<Value>),
}

/// The mathematical shape of a `Value`: the same tree over sequences.
pub enum ValView {
    U8(u8),
    U16(u16),
    U32(u32),
    U64(u64),
    Bytes(Seq<u8>),
    List(Seq<ValView>),
    Record(Seq<ValView>),
}

/// The mathematical shape of a runtime value.
pub open spec fn val_view(v: Value) -> ValView
    decreases v, 0int,
{
    match v {
        Value::U8(x) => ValView::U8(x),
        Value::U16(x) => ValView::U16(x),
        Value::U32(x) => ValView::U32(x),
        Value::U64(x) => ValView::U64(x),
        Value::Bytes(b) => ValView::Bytes(b@),
        Value::List(vs) => ValView::List(val_views(vs@)),
        Value::Record(vs) => ValView::Record(val_views(vs@)),
    }
}

/// The shapes of a sequence of runtime values, in order.
pub open spec fn val_views(vs: Seq<Value>) -> Seq<ValView>
    decreases vs, 1int,
{
    if vs.len() == 0 {
        Seq::empty()
    } else {
        val_views(vs.subrange(0, vs.len() - 1)).push(val_view(vs.last()))
    }
}

/// `val_views` maps `val_view` over the sequence, element by element.
pub proof fn lemma_val_views_index(vs: Seq<Value>)
    ensures
        val_views(vs).len() == vs.len(),
        forall|i: int| 0 <= i < vs.len() ==> val_views(vs)[i] == val_view(vs[i]),
    decreases vs.len(),
{
    if vs.len() > 0 {
        lemma_val_views_index(vs.subrange(0, vs.len() - 1));
        assert forall|i: int| 0 <= i < vs.len() implies val_views(vs)[i] == val_view(
            vs[i],
        ) by {
            if i < vs.len() - 1 {
                assert(vs.subrange(0, vs.len() - 1)[i] == vs[i]);
            }
        }
    }
}

impl View for Value {
    type V = ValView;

    open spec fn view(&self) -> ValView {
        val_view(*self)
    }
}

/// The largest length a 16-bit prefix can carry.
pub open spec fn max_len16() -> int {
    0xFFFF
}

/// Value `v` matches the declared type `t`, sized limits included.
pub open spec fn has_type(v: ValView, t: FieldType) -> bool
    decreases v,
{
    match v {
        ValView::U8(_) => t is UInt8,
        ValView::U16(_) => t is UInt16,
        ValView::U32(_) => t is UInt32,
        ValView::U64(_) => t is UInt64,
        ValView::Bytes(b) => (t is Blob || t is Text) && b.len() <= max_len16(),
        ValView::List(vs) => match t {
            FieldType::FixedArray(et, n) => vs.len() == n && forall|i: int|
                0 <= i < vs.len() ==> has_type(#[trigger] vs[i], *et),
            FieldType::VarArray(et) => vs.len() <= max_len16() && forall|i: int|
                0 <= i < vs.len() ==> has_type(#[trigger] vs[i], *et),
            _ => false,
        },
        ValView::Record(vs) => match t {
            FieldType::Struct(ts) => vs.len() == ts@.len() && forall|i: int|
                0 <= i < vs.len() ==> has_type(#[trigger] vs[i], ts@[i]),
            _ => false,
        },
    }
}

/// The two big-endian bytes of a 16-bit value.
pub open spec fn be16(n: u16) -> Seq<u8> {
    seq![(n >> 8) as u8, n as u8]
}

/// The 16-bit value carried by two big-endian bytes.
pub open spec fn from_be16(b0: u8, b1: u8) -> u16 {
    (((b0 as u16) << 8) | (b1 as u16)) as u16
}

/// Reading back the two big-endian bytes of `n` yields `n`.
pub proof fn lemma_be16_roundtrip(n: u16)
    ensures
        from_be16((n >> 8) as u8, n as u8) == n,
{
    assert(((((n >> 8) as u8) as u16) << 8 | ((n as u8) as u16)) == n) by (bit_vector);
}

/// The eight big-endian bytes of a 64-bit value.
pub open spec fn be64(n: u64) -> Seq<u8> {
    seq![
        (n >> 56) as u8,
        (n >> 48) as u8,
        (n >> 40) as u8,
        (n >> 32) as u8,
        (n >> 24) as u8,
        (n >> 16) as u8,
        (n >> 8) as u8,
        n as u8,
    ]
}

/// The 64-bit value carried by eight big-endian bytes.
pub open spec fn from_be64(
    b0: u8,
    b1: u8,
    b2: u8,
    b3: u8,
    b4: u8,
    b5: u8,
    b6: u8,
    b7: u8,
) -> u64 {
    (((b0 as u64) << 56) | ((b1 as u64) << 48) | ((b2 as u64) << 40) | ((b3 as u64) << 32) | ((
    b4 as u64) << 24) | ((b5 as u64) << 16) | ((b6 as u64) << 8) | (b7 as u64)) as u64
}

/// Reading back the eight big-endian bytes of `n` yields `n`.
pub proof fn lemma_be64_roundtrip(n: u64)
    ensures
        from_be64(
            (n >> 56) as u8,
            (n >> 48) as u8,
            (n >> 40) as u8,
            (n >> 32) as u8,
            (n >> 24) as u8,
            (n >> 16) as u8,
            (n >> 8) as u8,
            n as u8,
        ) == n,
{
    assert(((((n >> 56) as u8) as u64) << 56 | (((n >> 48) as u8) as u64) << 48 | (((n >> 40)
        as u8) as u64) << 40 | (((n >> 32) as u8) as u64) << 32 | (((n >> 24) as u8) as u64)
        << 24 | (((n >> 16) as u8) as u64) << 16 | (((n >> 8) as u8) as u64) << 8 | ((n as u8)
        as u64)) == n) by (bit_vector);
}

/// The bytes of `v` laid out as the declared type `t` prescribes.
pub open spec fn enc(t: FieldType, v: ValView) -> Seq<u8>
    decreases t, 0int, 0int,
{
    match v {
        ValView::U8(x) => seq![x],
        ValView::U16(x) => be16(x),
        ValView::U32(x) => be32(x),
        ValView::U64(x) => be64(x),
        ValView::Bytes(b) => be16(b.len() as u16) + b,
        ValView::List(vs) => match t {
            FieldType::FixedArray(et, _) => enc_list(*et, vs),
            FieldType::VarArray(et) => be16(vs.len() as u16) + enc_list(*et, vs),
            _ => Seq::empty(),
        },
        ValView::Record(vs) => match t {
            FieldType::Struct(ts) => enc_fields(ts@, vs),
            _ => Seq::empty(),
        },
    }
}

/// The elements of an array, each encoded as `t`, one after the other.
pub open spec fn enc_list(t: FieldType, vs: Seq<ValView>) -> Seq<u8>
    decreases t, 1int, vs.len(),
{
    if vs.len() == 0 {
        Seq::empty()
    } else {
        enc(t, vs[0]) + enc_list(t, vs.subrange(1, vs.len() as int))
    }
}

/// The fields of a struct, each encoded as its own type, in order.
pub open spec fn enc_fields(ts: Seq<FieldType>, vs: Seq<ValView>) -> Seq<u8>
    decreases ts, 0int, 0int,
{
    if ts.len() == 0 || vs.len() == 0 {
        Seq::empty()
    } else {
        enc(ts[0], vs[0]) + enc_fields(ts.subrange(1, ts.len() as int), vs.subrange(1, vs.len() as int))
    }
}

/// Decode one value of type `t` from the front of `b`: the value and how
/// many bytes it took, or nothing when `b` ends too early.
pub open spec fn dec(t: FieldType, b: Seq<u8>) -> Option<(ValView, int)>
    decreases t, 0int, 0int,
{
    match t {
        FieldType::UInt8 => if b.len() >= 1 {
            Some((ValView::U8(b[0]), 1int))
        } else {
            None
        },
        FieldType::UInt16 => if b.len() >= 2 {
            Some((ValView::U16(from_be16(b[0], b[1])), 2int))
        } else {
            None
        },
        FieldType::UInt32 => if b.len() >= 4 {
            Some((ValView::U32(from_be32(b[0], b[1], b[2], b[3])), 4int))
        } else {
            None
        },
        FieldType::UInt64 => if b.len() >= 8 {
            Some((ValView::U64(from_be64(b[0], b[1], b[2], b[3], b[4], b[5], b[6], b[7])), 8int))
        } else {
            None
        },
        FieldType::Blob => dec_blob(b),
        FieldType::Text => dec_blob(b),
        FieldType::FixedArray(et, n) => match dec_list(*et, n as int, b) {
            Some((vs, used)) => Some((ValView::List(vs), used)),
            None => None,
        },
        FieldType::VarArray(et) => if b.len() >= 2 {
            match dec_list(*et, from_be16(b[0], b[1]) as int, b.subrange(2, b.len() as int)) {
                Some((vs, used)) => Some((ValView::List(vs), 2 + used)),
                None => None,
            }
        } else {
            None
        },
        FieldType::Struct(ts) => match dec_fields(ts@, b) {
            Some((vs, used)) => Some((ValView::Record(vs), used)),
            None => None,
        },
    }
}

/// Decode a 16-bit length prefix and that many raw bytes.
pub open spec fn dec_blob(b: Seq<u8>) -> Option<(ValView, int)> {
    if b.len() >= 2 {
        let n = from_be16(b[0], b[1]) as int;
        if b.len() >= 2 + n {
            Some((ValView::Bytes(b.subrange(2, 2 + n)), 2 + n))
        } else {
            None
        }
    } else {
        None
    }
}

/// Decode exactly `n` values of type `t`, front to back.
pub open spec fn dec_list(t: FieldType, n: int, b: Seq<u8>) -> Option<(Seq<ValView>, int)>
    decreases t, 1int, n,
{
    if n <= 0 {
        Some((Seq::empty(), 0int))
    } else {
        match dec(t, b) {
            Some((v, used)) => match dec_list(t, n - 1, b.subrange(used, b.len() as int)) {
                Some((vs, used2)) => Some((seq![v] + vs, used + used2)),
                None => None,
            },
            None => None,
        }
    }
}

/// Decode one value for each declared field type, front to back.
pub open spec fn dec_fields(ts: Seq<FieldType>, b: Seq<u8>) -> Option<(Seq<ValView>, int)>
    decreases ts, 0int, 0int,
{
    if ts.len() == 0 {
        Some((Seq::empty(), 0int))
    } else {
        match dec(ts[0], b) {
            Some((v, used)) => match dec_fields(
                ts.subrange(1, ts.len() as int),
                b.subrange(used, b.len() as int),
            ) {
                Some((vs, used2)) => Some((seq![v] + vs, used + used2)),
                None => None,
            },
            None => None,
        }
    }
}

/// Decoding an encoded value, with any later bytes behind it, gives back
/// exactly that value and consumes exactly its encoding.
pub proof fn lemma_enc_dec(t: FieldType, v: ValView, rest: Seq<u8>)
    requires
        has_type(v, t),
    ensures
        dec(t, enc(t, v) + rest) == Some((v, enc(t, v).len() as int)),
    decreases v, 0int, 0int,
{
    let b = enc(t, v) + rest;
    match v {
        ValView::U8(x) => {
            assert(b[0] == x);
        },
        ValView::U16(x) => {
            lemma_be16_roundtrip(x);
            assert(b[0] == (x >> 8) as u8 && b[1] == x as u8);
        },
        ValView::U32(x) => {
            lemma_be32_roundtrip(x);
            assert(b[0] == (x >> 24) as u8 && b[1] == (x >> 16) as u8 && b[2] == (x >> 8) as u8
                && b[3] == x as u8);
        },
        ValView::U64(x) => {
            lemma_be64_roundtrip(x);
            assert(b[0] == (x >> 56) as u8 && b[1] == (x >> 48) as u8 && b[2] == (x >> 40)
                as u8 && b[3] == (x >> 32) as u8 && b[4] == (x >> 24) as u8 && b[5] == (x
                >> 16) as u8 && b[6] == (x >> 8) as u8 && b[7] == x as u8);
        },
        ValView::Bytes(bytes) => {
            let n = bytes.len() as u16;
            lemma_be16_roundtrip(n);
            assert(b[0] == (n >> 8) as u8 && b[1] == n as u8);
            assert(from_be16(b[0], b[1]) == n);
            assert(b.len() >= 2 + bytes.len());
            assert(b.subrange(2, 2 + bytes.len() as int) =~= bytes);
        },
        ValView::List(vs) => {
            match t {
                FieldType::FixedArray(et, n) => {
                    assert(enc(t, v) == enc_list(*et, vs));
                    assert(enc_list(*et, vs) + rest == b);
                    lemma_enc_dec_list(*et, vs, rest);
                },
                FieldType::VarArray(et) => {
                    let n = vs.len() as u16;
                    lemma_be16_roundtrip(n);
                    assert(enc(t, v) == be16(n) + enc_list(*et, vs));
                    assert(b[0] == (n >> 8) as u8 && b[1] == n as u8);
                    assert(from_be16(b[0], b[1]) == n);
                    assert(b.subrange(2, b.len() as int) =~= enc_list(*et, vs) + rest);
                    lemma_enc_dec_list(*et, vs, rest);
                },
                _ => {
                },
            }
        },
        ValView::Record(vs) => {
            match t {
                FieldType::Struct(ts) => {
                    assert(enc(t, v) == enc_fields(ts@, vs));
                    lemma_enc_dec_fields(ts@, vs, rest);
                },
                _ => {
                },
            }
        },
    }
}

/// Decoding the concatenated encodings of `vs`, all of type `t`, with any
/// later bytes behind them, gives back exactly `vs`.
pub proof fn lemma_enc_dec_list(t: FieldType, vs: Seq<ValView>, rest: Seq<u8>)
    requires
        forall|i: int| 0 <= i < vs.len() ==> has_type(#[trigger] vs[i], t),
    ensures
        dec_list(t, vs.len() as int, enc_list(t, vs) + rest) == Some(
            (vs, enc_list(t, vs).len() as int),
        ),
    decreases vs, 1int, 0int,
{
    if vs.len() == 0 {
        assert(enc_list(t, vs) + rest =~= rest);
        assert(dec_list(t, 0, rest) == Some((Seq::<ValView>::empty(), 0int)));
        assert(Seq::<ValView>::empty() =~= vs);
    } else {
        let tail = vs.subrange(1, vs.len() as int);
        let b = enc_list(t, vs) + rest;
        assert(enc_list(t, vs) == enc(t, vs[0]) + enc_list(t, tail));
        assert(b =~= enc(t, vs[0]) + (enc_list(t, tail) + rest));
        lemma_enc_dec(t, vs[0], enc_list(t, tail) + rest);
        let used = enc(t, vs[0]).len() as int;
        assert(b.subrange(used, b.len() as int) =~= enc_list(t, tail) + rest);
        lemma_enc_dec_list(t, tail, rest);
        assert(seq![vs[0]] + tail =~= vs);
    }
}

/// Decoding the concatenated encodings of a struct's fields, with any
/// later bytes behind them, gives back exactly those fields.
pub proof fn lemma_enc_dec_fields(ts: Seq<FieldType>, vs: Seq<ValView>, rest: Seq<u8>)
    requires
        vs.len() == ts.len(),
        forall|i: int| 0 <= i < vs.len() ==> has_type(#[trigger] vs[i], ts[i]),
    ensures
        dec_fields(ts, enc_fields(ts, vs) + rest) == Some(
            (vs, enc_fields(ts, vs).len() as int),
        ),
    decreases vs, 0int, 0int,
{
    if ts.len() == 0 {
        assert(enc_fields(ts, vs) + rest =~= rest);
        assert(Seq::<ValView>::empty() =~= vs);
    } else {
        let ttail = ts.subrange(1, ts.len() as int);
        let vtail = vs.subrange(1, vs.len() as int);
        let b = enc_fields(ts, vs) + rest;
        assert(enc_fields(ts, vs) == enc(ts[0], vs[0]) + enc_fields(ttail, vtail));
        assert(b =~= enc(ts[0], vs[0]) + (enc_fields(ttail, vtail) + rest));
        lemma_enc_dec(ts[0], vs[0], enc_fields(ttail, vtail) + rest);
        let used = enc(ts[0], vs[0]).len() as int;
        assert(b.subrange(used, b.len() as int) =~= enc_fields(ttail, vtail) + rest);
        assert(forall|i: int| 0 <= i < vtail.len() ==> has_type(#[trigger] vtail[i], ttail[i]));
        lemma_enc_dec_fields(ttail, vtail, rest);
        assert(seq![vs[0]] + vtail =~= vs);
    }
}

/// The encode/decode round trip: a value matching a compiled field type,
/// encoded as that type and decoded as it again, comes back unchanged,
/// consuming exactly its own bytes.
pub proof fn lemma_round_trip(t: FieldType, v: ValView)
    requires
        has_type(v, t),
    ensures
        dec(t, enc(t, v)) == Some((v, enc(t, v).len() as int)),
{
    lemma_enc_dec(t, v, Seq::empty());
    assert(enc(t, v) + Seq::<u8>::empty() =~= enc(t, v));
}


/// Appending one element to an array appends its encoding.
pub proof fn lemma_enc_list_snoc(t: FieldType, a: Seq<ValView>, x: ValView)
    ensures
        enc_list(t, a.push(x)) == enc_list(t, a) + enc(t, x),
    decreases a.len(),
{
    let ap = a.push(x);
    if a.len() == 0 {
        reveal_with_fuel(enc_list, 3);
        assert(ap[0] == x);
        assert(ap.subrange(1, 1) =~= Seq::<ValView>::empty());
        assert(enc_list(t, ap) =~= enc(t, x));
        assert(enc_list(t, a) + enc(t, x) =~= enc(t, x));
    } else {
        let tail = a.subrange(1, a.len() as int);
        lemma_enc_list_snoc(t, tail, x);
        assert(ap.subrange(1, ap.len() as int) =~= tail.push(x));
        assert(ap[0] == a[0]);
        assert(enc_list(t, ap) == enc(t, a[0]) + enc_list(t, tail.push(x)));
        assert(enc(t, a[0]) + (enc_list(t, tail) + enc(t, x)) =~= (enc(t, a[0]) + enc_list(
            t,
            tail,
        )) + enc(t, x));
    }
}

/// Appending one field to a struct appends its encoding.
pub proof fn lemma_enc_fields_snoc(ts: Seq<FieldType>, vs: Seq<ValView>, t1: FieldType, x: ValView)
    requires
        ts.len() == vs.len(),
    ensures
        enc_fields(ts.push(t1), vs.push(x)) == enc_fields(ts, vs) + enc(t1, x),
    decreases ts.len(),
{
    let tp = ts.push(t1);
    let vp = vs.push(x);
    if ts.len() == 0 {
        reveal_with_fuel(enc_fields, 3);
        assert(tp[0] == t1 && vp[0] == x);
        assert(tp.subrange(1, 1) =~= Seq::<FieldType>::empty());
        assert(vp.subrange(1, 1) =~= Seq::<ValView>::empty());
        assert(enc_fields(tp, vp) =~= enc(t1, x));
        assert(enc_fields(ts, vs) + enc(t1, x) =~= enc(t1, x));
    } else {
        let ttail = ts.subrange(1, ts.len() as int);
        let vtail = vs.subrange(1, vs.len() as int);
        lemma_enc_fields_snoc(ttail, vtail, t1, x);
        assert(tp.subrange(1, tp.len() as int) =~= ttail.push(t1));
        assert(vp.subrange(1, vp.len() as int) =~= vtail.push(x));
        assert(tp[0] == ts[0] && vp[0] == vs[0]);
        assert(enc_fields(tp, vp) == enc(ts[0], vs[0]) + enc_fields(ttail.push(t1), vtail.push(
            x,
        )));
        assert(enc(ts[0], vs[0]) + (enc_fields(ttail, vtail) + enc(t1, x)) =~= (enc(
            ts[0],
            vs[0],
        ) + enc_fields(ttail, vtail)) + enc(t1, x));
    }
}

/// Encode each element of a list as `t`, in order, with no prefix.
#[verifier::loop_isolation(false)]
fn encode_elems(t: &FieldType, vs: &Vec<Value>) -> (r: Result<Vec<u8>, CodecError>)
    ensures
        r is Ok <==> (forall|i: int|
            0 <= i < vs@.len() ==> has_type(#[trigger] val_views(vs@)[i], *t)),
        r matches Ok(b) ==> b@ == enc_list(*t, val_views(vs@)),
        r matches Err(e) ==> (e == CodecError::TypeMismatch || e == CodecError::OversizedValue),
    decreases vs@, 1int,
{
    proof {
        lemma_val_views_index(vs@);
    }
    let mut b: Vec<u8> = Vec::new();
    let mut i: usize = 0;
    while i < vs.len()
        invariant
            i <= vs@.len(),
            forall|k: int| 0 <= k < i ==> has_type(#[trigger] val_views(vs@)[k], *t),
            b@ == enc_list(*t, val_views(vs@).subrange(0, i as int)),
        decreases vs@.len() - i,
    {
        let e = encode(t, &vs[i]);
        match e {
            Ok(mut eb) => {
                proof {
                    lemma_enc_list_snoc(
                        *t,
                        val_views(vs@).subrange(0, i as int),
                        val_views(vs@)[i as int],
                    );
                    assert(val_views(vs@).subrange(0, i + 1) =~= val_views(vs@).subrange(
                        0,
                        i as int,
                    ).push(val_views(vs@)[i as int]));
                }
                b.append(&mut eb);
            },
            Err(e2) => {
                proof {
                    assert(!has_type(val_views(vs@)[i as int], *t));
                }
                return Err(e2);
            },
        }
        i += 1;
    }
    proof {
        assert(val_views(vs@).subrange(0, vs@.len() as int) =~= val_views(vs@));
    }
    Ok(b)
}

/// Encode each field of a record as its declared type, in order.
#[verifier::loop_isolation(false)]
fn encode_field_list(ts: &Vec<FieldType>, vs: &Vec<Value>) -> (r: Result<Vec<u8>, CodecError>)
    requires
        ts@.len() == vs@.len(),
    ensures
        r is Ok <==> (forall|i: int|
            0 <= i < vs@.len() ==> has_type(#[trigger] val_views(vs@)[i], ts@[i])),
        r matches Ok(b) ==> b@ == enc_fields(ts@, val_views(vs@)),
        r matches Err(e) ==> (e == CodecError::TypeMismatch || e == CodecError::OversizedValue),
    decreases vs@, 1int,
{
    proof {
        lemma_val_views_index(vs@);
    }
    let mut b: Vec<u8> = Vec::new();
    let mut i: usize = 0;
    while i < vs.len()
        invariant
            i <= vs@.len(),
            forall|k: int| 0 <= k < i ==> has_type(#[trigger] val_views(vs@)[k], ts@[k]),
            b@ == enc_fields(ts@.subrange(0, i as int), val_views(vs@).subrange(0, i as int)),
        decreases vs@.len() - i,
    {
        let e = encode(&ts[i], &vs[i]);
        match e {
            Ok(mut eb) => {
                proof {
                    lemma_enc_fields_snoc(
                        ts@.subrange(0, i as int),
                        val_views(vs@).subrange(0, i as int),
                        ts@[i as int],
                        val_views(vs@)[i as int],
                    );
                    assert(ts@.subrange(0, i + 1) =~= ts@.subrange(0, i as int).push(
                        ts@[i as int],
                    ));
                    assert(val_views(vs@).subrange(0, i + 1) =~= val_views(vs@).subrange(
                        0,
                        i as int,
                    ).push(val_views(vs@)[i as int]));
                }
                b.append(&mut eb);
            },
            Err(e2) => {
                proof {
                    assert(!has_type(val_views(vs@)[i as int], ts@[i as int]));
                }
                return Err(e2);
            },
        }
        i += 1;
    }
    proof {
        assert(ts@.subrange(0, ts@.len() as int) =~= ts@);
        assert(val_views(vs@).subrange(0, vs@.len() as int) =~= val_views(vs@));
    }
    Ok(b)
}

/// Encode `v` as the declared type `t`.
///
/// Succeeds exactly when the value matches the type; a wrong shape is a
/// type mismatch, a blob or array longer than its 16-bit prefix can say is
/// an oversized value. On success the bytes are exactly `enc(t, v)`.
#[verifier::loop_isolation(false)]
pub fn encode(t: &FieldType, v: &Value) -> (r: Result<Vec<u8>, CodecError>)
    ensures
        r is Ok <==> has_type(v@, *t),
        r matches Ok(b) ==> b@ == enc(*t, v@),
        r matches Err(e) ==> (e == CodecError::TypeMismatch || e == CodecError::OversizedValue),
    decreases v, 0int,
{
    match v {
        Value::U8(x) => match t {
            FieldType::UInt8 => {
                let mut b: Vec<u8> = Vec::new();
                b.push(*x);
                proof {
                    assert(b@ =~= enc(*t, v@));
                }
                Ok(b)
            },
            _ => Err(CodecError::TypeMismatch),
        },
        Value::U16(x) => match t {
            FieldType::UInt16 => {
                let mut b: Vec<u8> = Vec::new();
                b.push((*x >> 8) as u8);
                b.push(*x as u8);
                proof {
                    assert(b@ =~= enc(*t, v@));
                }
                Ok(b)
            },
            _ => Err(CodecError::TypeMismatch),
        },
        Value::U32(x) => match t {
            FieldType::UInt32 => {
                let mut b: Vec<u8> = Vec::new();
                b.push((*x >> 24) as u8);
                b.push((*x >> 16) as u8);
                b.push((*x >> 8) as u8);
                b.push(*x as u8);
                proof {
                    assert(b@ =~= enc(*t, v@));
                }
                Ok(b)
            },
            _ => Err(CodecError::TypeMismatch),
        },
        Value::U64(x) => match t {
            FieldType::UInt64 => {
                let mut b: Vec<u8> = Vec::new();
                b.push((*x >> 56) as u8);
                b.push((*x >> 48) as u8);
                b.push((*x >> 40) as u8);
                b.push((*x >> 32) as u8);
                b.push((*x >> 24) as u8);
                b.push((*x >> 16) as u8);
                b.push((*x >> 8) as u8);
                b.push(*x as u8);
                proof {
                    assert(b@ =~= enc(*t, v@));
                }
                Ok(b)
            },
            _ => Err(CodecError::TypeMismatch),
        },
        Value::Bytes(bytes) => match t {
            FieldType::Blob | FieldType::Text => {
                proof {
                    assert(bytes.len() == bytes@.len());
                }
                if bytes.len() > 0xFFFF {
                    return Err(CodecError::OversizedValue);
                }
                let n = bytes.len() as u16;
                let mut b: Vec<u8> = Vec::new();
                b.push((n >> 8) as u8);
                b.push(n as u8);
                let mut i: usize = 0;
                while i < bytes.len()
                    invariant
                        i <= bytes@.len(),
                        n == bytes@.len() as u16,
                        b@ == be16(n) + bytes@.subrange(0, i as int),
                    decreases bytes@.len() - i,
                {
                    b.push(bytes[i]);
                    proof {
                        assert(b@ =~= be16(n) + bytes@.subrange(0, i + 1));
                    }
                    i += 1;
                }
                proof {
                    assert(bytes@.subrange(0, bytes@.len() as int) =~= bytes@);
                    assert(b@ =~= enc(*t, v@));
                }
                Ok(b)
            },
            _ => Err(CodecError::TypeMismatch),
        },
        Value::List(vs) => match t {
            FieldType::FixedArray(et, cnt) => {
                proof {
                    lemma_val_views_index(vs@);
                    assert(vs.len() == vs@.len());
                }
                if vs.len() != (*cnt) as usize {
                    return Err(CodecError::TypeMismatch);
                }
                encode_elems(et, vs)
            },
            FieldType::VarArray(et) => {
                proof {
                    lemma_val_views_index(vs@);
                    assert(vs.len() == vs@.len());
                }
                if vs.len() > 0xFFFF {
                    return Err(CodecError::OversizedValue);
                }
                match encode_elems(et, vs) {
                    Ok(mut body) => {
                        let n = vs.len() as u16;
                        let mut b: Vec<u8> = Vec::new();
                        b.push((n >> 8) as u8);
                        b.push(n as u8);
                        b.append(&mut body);
                        proof {
                            assert(b@ =~= enc(*t, v@));
                        }
                        Ok(b)
                    },
                    Err(e) => Err(e),
                }
            },
            _ => Err(CodecError::TypeMismatch),
        },
        Value::Record(vs) => match t {
            FieldType::Struct(ts) => {
                proof {
                    lemma_val_views_index(vs@);
                    assert(vs.len() == vs@.len());
                    assert(ts.len() == ts@.len());
                }
                if vs.len() != ts.len() {
                    return Err(CodecError::TypeMismatch);
                }
                encode_field_list(ts, vs)
            },
            _ => Err(CodecError::TypeMismatch),
        },
    }
}

/// The 16-bit value carried by two big-endian bytes.
pub fn from_be16_exec(b0: u8, b1: u8) -> (n: u16)
    ensures
        n == from_be16(b0, b1),
{
    ((b0 as u16) << 8) | (b1 as u16)
}

/// The 64-bit value carried by eight big-endian bytes.
pub fn from_be64_exec(b0: u8, b1: u8, b2: u8, b3: u8, b4: u8, b5: u8, b6: u8, b7: u8) -> (n:
    u64)
    ensures
        n == from_be64(b0, b1, b2, b3, b4, b5, b6, b7),
{
    ((b0 as u64) << 56) | ((b1 as u64) << 48) | ((b2 as u64) << 40) | ((b3 as u64) << 32) | ((
    b4 as u64) << 24) | ((b5 as u64) << 16) | ((b6 as u64) << 8) | (b7 as u64)
}

/// Decode one value of the declared type `t` from `b`, starting at `pos`.
///
/// Decoding is driven entirely by the declared type, so the only failure
/// is the buffer ending before the type is complete.
#[verifier::loop_isolation(false)]
pub fn decode_at(t: &FieldType, b: &Vec<u8>, pos: usize) -> (r: Result<
    (Value, usize),
    CodecError,
>)
    requires
        pos <= b@.len(),
    ensures
        r matches Ok(p) ==> pos + p.1 <= b@.len() && dec(
            *t,
            b@.subrange(pos as int, b@.len() as int),
        ) == Some((p.0@, p.1 as int)),
        r is Ok <==> dec(*t, b@.subrange(pos as int, b@.len() as int)) is Some,
        r matches Err(e) ==> e == CodecError::Truncated,
    decreases t, 0int,
{
    let ghost suf = b@.subrange(pos as int, b@.len() as int);
    proof {
        assert(b.len() == b@.len());
    }
    let avail = b.len() - pos;
    match t {
        FieldType::UInt8 => {
            if avail < 1 {
                return Err(CodecError::Truncated);
            }
            proof {
                assert(suf[0] == b@[pos as int]);
            }
            Ok((Value::U8(b[pos]), 1))
        },
        FieldType::UInt16 => {
            if avail < 2 {
                return Err(CodecError::Truncated);
            }
            let x = from_be16_exec(b[pos], b[pos + 1]);
            proof {
                assert(suf[0] == b@[pos as int] && suf[1] == b@[pos + 1]);
            }
            Ok((Value::U16(x), 2))
        },
        FieldType::UInt32 => {
            if avail < 4 {
                return Err(CodecError::Truncated);
            }
            let x = from_be32_exec(b[pos], b[pos + 1], b[pos + 2], b[pos + 3]);
            proof {
                assert(suf[0] == b@[pos as int] && suf[1] == b@[pos + 1] && suf[2] == b@[pos
                    + 2] && suf[3] == b@[pos + 3]);
            }
            Ok((Value::U32(x), 4))
        },
        FieldType::UInt64 => {
            if avail < 8 {
                return Err(CodecError::Truncated);
            }
            let x = from_be64_exec(
                b[pos],
                b[pos + 1],
                b[pos + 2],
                b[pos + 3],
                b[pos + 4],
                b[pos + 5],
                b[pos + 6],
                b[pos + 7],
            );
            proof {
                assert(suf[0] == b@[pos as int] && suf[1] == b@[pos + 1] && suf[2] == b@[pos
                    + 2] && suf[3] == b@[pos + 3] && suf[4] == b@[pos + 4] && suf[5] == b@[pos
                    + 5] && suf[6] == b@[pos + 6] && suf[7] == b@[pos + 7]);
            }
            Ok((Value::U64(x), 8))
        },
        FieldType::Blob | FieldType::Text => {
            if avail < 2 {
                return Err(CodecError::Truncated);
            }
            let n = from_be16_exec(b[pos], b[pos + 1]) as usize;
            proof {
                assert(suf[0] == b@[pos as int] && suf[1] == b@[pos + 1]);
            }
            if avail - 2 < n {
                return Err(CodecError::Truncated);
            }
            let mut bytes: Vec<u8> = Vec::new();
            let mut i: usize = 0;
            while i < n
                invariant
                    i <= n,
                    pos + 2 + n <= b@.len(),
                    bytes@ == b@.subrange(pos + 2, pos + 2 + i),
                decreases n - i,
            {
                bytes.push(b[pos + 2 + i]);
                proof {
                    assert(bytes@ =~= b@.subrange(pos + 2, pos + 2 + (i + 1)));
                }
                i += 1;
            }
            proof {
                assert(suf.subrange(2, 2 + n as int) =~= b@.subrange(pos + 2, pos + 2 + n));
                assert(bytes@ == suf.subrange(2, 2 + n as int));
            }
            Ok((Value::Bytes(bytes), 2 + n))
        },
        FieldType::FixedArray(et, cnt) => {
            match decode_list_at(et, *cnt, b, pos) {
                Ok((vs2, used)) => Ok((Value::List(vs2), used)),
                Err(_) => Err(CodecError::Truncated),
            }
        },
        FieldType::VarArray(et) => {
            if avail < 2 {
                return Err(CodecError::Truncated);
            }
            let cnt = from_be16_exec(b[pos], b[pos + 1]);
            proof {
                assert(suf[0] == b@[pos as int] && suf[1] == b@[pos + 1]);
                assert(suf.subrange(2, suf.len() as int) =~= b@.subrange(
                    pos + 2,
                    b@.len() as int,
                ));
            }
            match decode_list_at(et, cnt, b, pos + 2) {
                Ok((vs2, used)) => Ok((Value::List(vs2), 2 + used)),
                Err(_) => Err(CodecError::Truncated),
            }
        },
        FieldType::Struct(ts) => {
            match decode_fields_at(ts, b, pos) {
                Ok((vs2, used)) => Ok((Value::Record(vs2), used)),
                Err(_) => Err(CodecError::Truncated),
            }
        },
    }
}

/// Decode exactly `n` values of type `t` from `b`, starting at `pos`.
#[verifier::loop_isolation(false)]
fn decode_list_at(t: &FieldType, n: u16, b: &Vec<u8>, pos: usize) -> (r: Result<
    (Vec<Value>, usize),
    CodecError,
>)
    requires
        pos <= b@.len(),
    ensures
        r matches Ok(p) ==> pos + p.1 <= b@.len() && dec_list(
            *t,
            n as int,
            b@.subrange(pos as int, b@.len() as int),
        ) == Some((val_views(p.0@), p.1 as int)),
        r is Ok <==> dec_list(*t, n as int, b@.subrange(pos as int, b@.len() as int)) is Some,
        r matches Err(e) ==> e == CodecError::Truncated,
    decreases t, 1int,
{
    let ghost s0 = b@.subrange(pos as int, b@.len() as int);
    let mut acc: Vec<Value> = Vec::new();
    let mut cur: usize = pos;
    let mut k: u16 = 0;
    proof {
        assert(val_views(acc@) =~= Seq::<ValView>::empty());
        assert(dec_list(*t, n as int, s0) matches Some(q) ==> val_views(acc@) + q.0 =~= q.0);
    }
    while k < n
        invariant
            pos <= cur <= b@.len(),
            k <= n,
            ({
                let rem = dec_list(
                    *t,
                    n as int - k as int,
                    b@.subrange(cur as int, b@.len() as int),
                );
                &&& (dec_list(*t, n as int, s0) is Some <==> rem is Some)
                &&& (rem matches Some(q) ==> dec_list(*t, n as int, s0) == Some(
                    (val_views(acc@) + q.0, cur - pos + q.1),
                ))
            }),
        decreases n as int - k as int,
    {
        let ghost scur = b@.subrange(cur as int, b@.len() as int);
        let e = decode_at(t, b, cur);
        match e {
            Ok((v, used)) => {
                let ghost pre_acc = acc@;
                proof {
                    assert(scur.subrange(used as int, scur.len() as int) =~= b@.subrange(
                        cur + used,
                        b@.len() as int,
                    ));
                }
                acc.push(v);
                proof {
                    assert(acc@.subrange(0, acc@.len() - 1) =~= pre_acc);
                    assert(acc@.last() == v);
                    assert(val_views(acc@) == val_views(pre_acc).push(v@));
                    let rem2 = dec_list(
                        *t,
                        n as int - k as int - 1,
                        b@.subrange(cur + used, b@.len() as int),
                    );
                    assert(rem2 matches Some(q2) ==> val_views(pre_acc).push(v@) + q2.0 =~=
                        val_views(pre_acc) + (seq![v@] + q2.0));
                    assert(b.len() == b@.len());
                }
                cur = cur + used;
                k = k + 1;
            },
            Err(_) => {
                return Err(CodecError::Truncated);
            },
        }
    }
    proof {
        assert(dec_list(*t, 0, b@.subrange(cur as int, b@.len() as int)) == Some(
            (Seq::<ValView>::empty(), 0int),
        ));
        assert(val_views(acc@) + Seq::<ValView>::empty() =~= val_views(acc@));
    }
    Ok((acc, cur - pos))
}

/// Decode one value for each declared field type from `b`, starting at
/// `pos`.
#[verifier::loop_isolation(false)]
fn decode_fields_at(ts: &Vec<FieldType>, b: &Vec<u8>, pos: usize) -> (r: Result<
    (Vec<Value>, usize),
    CodecError,
>)
    requires
        pos <= b@.len(),
    ensures
        r matches Ok(p) ==> pos + p.1 <= b@.len() && dec_fields(
            ts@,
            b@.subrange(pos as int, b@.len() as int),
        ) == Some((val_views(p.0@), p.1 as int)),
        r is Ok <==> dec_fields(ts@, b@.subrange(pos as int, b@.len() as int)) is Some,
        r matches Err(e) ==> e == CodecError::Truncated,
    decreases ts@, 0int,
{
    let ghost s0 = b@.subrange(pos as int, b@.len() as int);
    let mut acc: Vec<Value> = Vec::new();
    let mut cur: usize = pos;
    let mut k: usize = 0;
    proof {
        assert(ts@.subrange(0, ts@.len() as int) =~= ts@);
        assert(val_views(acc@) =~= Seq::<ValView>::empty());
        assert(dec_fields(ts@, s0) matches Some(q) ==> val_views(acc@) + q.0 =~= q.0);
        assert(ts.len() == ts@.len());
    }
    while k < ts.len()
        invariant
            pos <= cur <= b@.len(),
            k <= ts@.len(),
            ({
                let rem = dec_fields(
                    ts@.subrange(k as int, ts@.len() as int),
                    b@.subrange(cur as int, b@.len() as int),
                );
                &&& (dec_fields(ts@, s0) is Some <==> rem is Some)
                &&& (rem matches Some(q) ==> dec_fields(ts@, s0) == Some(
                    (val_views(acc@) + q.0, cur - pos + q.1),
                ))
            }),
        decreases ts@.len() - k,
    {
        let ghost scur = b@.subrange(cur as int, b@.len() as int);
        let ghost tsub = ts@.subrange(k as int, ts@.len() as int);
        proof {
            assert(tsub[0] == ts@[k as int]);
            assert(tsub.subrange(1, tsub.len() as int) =~= ts@.subrange(
                k + 1,
                ts@.len() as int,
            ));
        }
        let e = decode_at(&ts[k], b, cur);
        match e {
            Ok((v, used)) => {
                let ghost pre_acc = acc@;
                proof {
                    assert(scur.subrange(used as int, scur.len() as int) =~= b@.subrange(
                        cur + used,
                        b@.len() as int,
                    ));
                }
                acc.push(v);
                proof {
                    assert(acc@.subrange(0, acc@.len() - 1) =~= pre_acc);
                    assert(acc@.last() == v);
                    assert(val_views(acc@) == val_views(pre_acc).push(v@));
                    let rem2 = dec_fields(
                        ts@.subrange(k + 1, ts@.len() as int),
                        b@.subrange(cur + used, b@.len() as int),
                    );
                    assert(rem2 matches Some(q2) ==> val_views(pre_acc).push(v@) + q2.0 =~=
                        val_views(pre_acc) + (seq![v@] + q2.0));
                    assert(b.len() == b@.len());
                }
                cur = cur + used;
                k = k + 1;
            },
            Err(_) => {
                return Err(CodecError::Truncated);
            },
        }
    }
    proof {
        assert(ts@.subrange(ts@.len() as int, ts@.len() as int) =~= Seq::<FieldType>::empty());
        assert(dec_fields(
            ts@.subrange(ts@.len() as int, ts@.len() as int),
            b@.subrange(cur as int, b@.len() as int),
        ) == Some((Seq::<ValView>::empty(), 0int)));
        assert(val_views(acc@) + Seq::<ValView>::empty() =~= val_views(acc@));
    }
    Ok((acc, cur - pos))
}

/// Decode `b` as one value of the declared type `t`, consuming the whole
/// buffer: too few bytes is a truncation, too many is trailing garbage.
pub fn decode(t: &FieldType, b: &Vec<u8>) -> (r: Result<Value, CodecError>)
    ensures
        r matches Ok(v) ==> dec(*t, b@) == Some((v@, b@.len() as int)),
        r is Ok <==> (dec(*t, b@) matches Some(q) && q.1 == b@.len()),
        r == Err::<Value, CodecError>(CodecError::Truncated) <==> dec(*t, b@) is None,
        r == Err::<Value, CodecError>(CodecError::TrailingBytes) <==> (dec(*t, b@) matches Some(
            q,
        ) && q.1 != b@.len()),
{
    proof {
        assert(b@.subrange(0, b@.len() as int) =~= b@);
        assert(b.len() == b@.len());
    }
    match decode_at(t, b, 0) {
        Ok((v, used)) => {
            if used == b.len() {
                Ok(v)
            } else {
                Err(CodecError::TrailingBytes)
            }
        },
        Err(_) => Err(CodecError::Truncated),
    }
}
} // verus!
