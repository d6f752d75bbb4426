//! The composite derivation engine.
//!
//! Given a [`Shape`], the engine provides an encoder and a matching decoder
//! for dynamically shaped values: [`encode_value`] concatenates leaf
//! encodings in declaration order, with a count prefix for sequences and a
//! tag byte for sums; [`decode_value`] walks the same shape, advancing past
//! each decoded field by the length of its re-encoding, and aborts on the
//! first failure.  Canonicity ([`lemma_dec_val_canonical`]) makes that
//! advancement rule sound, and [`lemma_dec_val_round_trip`] states when
//! decoding inverts encoding.

use vstd::prelude::*;
use vstd::bytes::*;
use vstd::utf8::*;
use vstd::slice::*;
use crate::error::OrbyteError;
use crate::schema::Shape;
use crate::schema::Field;
use crate::schema::Alternative;
use crate::serialize::Serialize;
use crate::deserialize::Deserialize;

verus! {

/// A dynamically shaped value: the runtime form that the engine encodes and
/// decodes.  The floating point leaves carry IEEE754 bit patterns as plain
/// integers; callers convert at the boundary.
#[derive(Debug, PartialEq)]
pub enum Value {
    U8(u8),
    U16(u16),
    U32(u32),
    U64(u64),
    I8(i8),
    I16(i16),
    I32(i32),
    I64(i64),
    F32Bits(u32),
    F64Bits(u64),
    Bool(bool),
    Char(char),
    Text(String),
    Sequence(Vec<Value>),
    Optional(Option<Box<Value>>),
    Product(Vec<Value>),
    Sum(u8, Vec<Value>),
}

/// The abstract value of a [`Value`]: text as its characters, children as
/// mathematical sequences.  An optional is a sequence of zero or one
/// elements.
pub enum ValueV {
    U8(u8),
    U16(u16),
    U32(u32),
    U64(u64),
    I8(i8),
    I16(i16),
    I32(i32),
    I64(i64),
    F32Bits(u32),
    F64Bits(u64),
    Bool(bool),
    Char(char),
    Text(Seq<char>),
    Sequence(Seq<ValueV>),
    Optional(Seq<ValueV>),
    Product(Seq<ValueV>),
    Sum(u8, Seq<ValueV>),
}

/// The abstract value of a concrete [`Value`].
pub open spec fn view_of(v: Value) -> ValueV
    decreases v,
{
    match v {
        Value::U8(x) => ValueV::U8(x),
        Value::U16(x) => ValueV::U16(x),
        Value::U32(x) => ValueV::U32(x),
        Value::U64(x) => ValueV::U64(x),
        Value::I8(x) => ValueV::I8(x),
        Value::I16(x) => ValueV::I16(x),
        Value::I32(x) => ValueV::I32(x),
        Value::I64(x) => ValueV::I64(x),
        Value::F32Bits(x) => ValueV::F32Bits(x),
        Value::F64Bits(x) => ValueV::F64Bits(x),
        Value::Bool(x) => ValueV::Bool(x),
        Value::Char(x) => ValueV::Char(x),
        Value::Text(s) => ValueV::Text(s@),
        Value::Sequence(elems) => ValueV::Sequence(views_of(elems@)),
        Value::Optional(o) => match o {
            None => ValueV::Optional(Seq::empty()),
            Some(bx) => ValueV::Optional(seq![view_of(*bx)]),
        },
        Value::Product(vals) => ValueV::Product(views_of(vals@)),
        Value::Sum(tag, vals) => ValueV::Sum(tag, views_of(vals@)),
    }
}

/// The abstract values of a list of concrete values, in order.
pub open spec fn views_of(vs: Seq<Value>) -> Seq<ValueV>
    decreases vs,
{
    if vs.len() == 0 {
        Seq::empty()
    } else {
        seq![view_of(vs[0])] + views_of(vs.drop_first())
    }
}

/// [`views_of`] maps element by element.
pub proof fn lemma_views_of(vs: Seq<Value>)
    ensures
        views_of(vs).len() == vs.len(),
        forall|i: int| 0 <= i < vs.len() ==> #[trigger] views_of(vs)[i] == view_of(vs[i]),
    decreases vs.len(),
{
    if vs.len() > 0 {
        lemma_views_of(vs.drop_first());
        assert forall|i: int| 0 <= i < vs.len() implies #[trigger] views_of(vs)[i] == view_of(
            vs[i],
        ) by {
            if i > 0 {
                assert(views_of(vs)[i] == views_of(vs.drop_first())[i - 1]);
                assert(vs.drop_first()[i - 1] == vs[i]);
            }
        }
    }
}

/// Well-formedness of an abstract value: every text within fits the one-byte
/// length, every sequence count fits the four-byte count, and an optional
/// holds at most one element.
pub open spec fn val_wf(v: ValueV) -> bool
    decreases v,
{
    match v {
        ValueV::Text(s) => encode_utf8(s).len() <= 255,
        ValueV::Sequence(elems) => elems.len() <= u32::MAX && (forall|i: int|
            0 <= i < elems.len() ==> val_wf(#[trigger] elems[i])),
        ValueV::Optional(o) => o.len() <= 1 && (forall|i: int|
            0 <= i < o.len() ==> val_wf(#[trigger] o[i])),
        ValueV::Product(vals) => forall|i: int| 0 <= i < vals.len() ==> val_wf(#[trigger] vals[i]),
        ValueV::Sum(tag, vals) => forall|i: int|
            0 <= i < vals.len() ==> val_wf(#[trigger] vals[i]),
        _ => true,
    }
}

/// Whether an abstract value has the given shape.  A sum value must select a
/// declared alternative: its discriminant is that alternative's declaration
/// index, and its fields must match that alternative's product.
pub open spec fn conforms(v: ValueV, s: Shape) -> bool
    decreases v, 0nat,
{
    match v {
        ValueV::U8(_) => s is U8,
        ValueV::U16(_) => s is U16,
        ValueV::U32(_) => s is U32,
        ValueV::U64(_) => s is U64,
        ValueV::I8(_) => s is I8,
        ValueV::I16(_) => s is I16,
        ValueV::I32(_) => s is I32,
        ValueV::I64(_) => s is I64,
        ValueV::F32Bits(_) => s is F32,
        ValueV::F64Bits(_) => s is F64,
        ValueV::Bool(_) => s is Bool,
        ValueV::Char(_) => s is Char,
        ValueV::Text(_) => s is Text,
        ValueV::Sequence(elems) => match s {
            Shape::Sequence(inner) => forall|i: int|
                0 <= i < elems.len() ==> conforms(#[trigger] elems[i], *inner),
            _ => false,
        },
        ValueV::Optional(o) => match s {
            Shape::Optional(inner) => o.len() <= 1 && (forall|i: int|
                0 <= i < o.len() ==> conforms(#[trigger] o[i], *inner)),
            _ => false,
        },
        ValueV::Product(vals) => match s {
            Shape::Product(fields) => conforms_fields(vals, fields@),
            _ => false,
        },
        ValueV::Sum(tag, vals) => match s {
            Shape::Sum(alts) => (tag as int) < alts@.len() && conforms_fields(
                vals,
                alts@[tag as int].fields@,
            ),
            _ => false,
        },
    }
}

/// Whether a list of abstract values matches a product's fields, position by
/// position.
pub open spec fn conforms_fields(vs: Seq<ValueV>, fields: Seq<Field>) -> bool
    decreases vs, 1nat,
{
    vs.len() == fields.len() && (forall|i: int|
        0 <= i < vs.len() ==> conforms(#[trigger] vs[i], fields[i].shape))
}

/// The bytes that an abstract value encodes to.  Encoding is value-directed:
/// a product is the concatenation of its field encodings in declaration
/// order, a sum is its tag byte followed by the selected alternative's
/// fields, a sequence is its four-byte count followed by its elements, and
/// an absent optional is nothing at all.
pub open spec fn enc_val(v: ValueV) -> Seq<u8>
    decreases v, 0nat,
{
    match v {
        ValueV::U8(x) => <u8 as Serialize>::spec_enc(x),
        ValueV::U16(x) => <u16 as Serialize>::spec_enc(x),
        ValueV::U32(x) => <u32 as Serialize>::spec_enc(x),
        ValueV::U64(x) => <u64 as Serialize>::spec_enc(x),
        ValueV::I8(x) => <i8 as Serialize>::spec_enc(x),
        ValueV::I16(x) => <i16 as Serialize>::spec_enc(x),
        ValueV::I32(x) => <i32 as Serialize>::spec_enc(x),
        ValueV::I64(x) => <i64 as Serialize>::spec_enc(x),
        ValueV::F32Bits(x) => spec_u32_to_le_bytes(x),
        ValueV::F64Bits(x) => spec_u64_to_le_bytes(x),
        ValueV::Bool(x) => <bool as Serialize>::spec_enc(x),
        ValueV::Char(x) => <char as Serialize>::spec_enc(x),
        ValueV::Text(s) => <String as Serialize>::spec_enc(s),
        ValueV::Sequence(elems) => spec_u32_to_le_bytes(elems.len() as u32) + enc_vals(elems),
        ValueV::Optional(o) => enc_vals(o),
        ValueV::Product(vals) => enc_vals(vals),
        ValueV::Sum(tag, vals) => seq![tag] + enc_vals(vals),
    }
}

/// The concatenation of the encodings of a list of abstract values.
pub open spec fn enc_vals(vs: Seq<ValueV>) -> Seq<u8>
    decreases vs, 1nat,
{
    if vs.len() == 0 {
        Seq::empty()
    } else {
        enc_vals(vs.drop_last()) + enc_val(vs.last())
    }
}

/// Unfolds [`enc_vals`] at the front.
pub proof fn lemma_enc_vals_first(vs: Seq<ValueV>)
    requires
        vs.len() > 0,
    ensures
        enc_vals(vs) == enc_val(vs[0]) + enc_vals(vs.drop_first()),
    decreases vs.len(),
{
    if vs.len() == 1 {
        assert(vs.drop_last() =~= Seq::<ValueV>::empty());
        assert(vs.drop_first() =~= Seq::<ValueV>::empty());
        assert(enc_vals(vs) =~= enc_val(vs[0]) + enc_vals(vs.drop_first()));
    } else {
        lemma_enc_vals_first(vs.drop_last());
        assert(vs.drop_last().drop_first() =~= vs.drop_first().drop_last());
        assert(vs.drop_first().last() == vs.last());
        assert(enc_vals(vs) =~= enc_val(vs[0]) + enc_vals(vs.drop_first()));
    }
}

/// The mathematical decode of a value of shape `s` from the front of `b`.
pub open spec fn dec_val(s: Shape, b: Seq<u8>) -> Result<ValueV, OrbyteError>
    decreases s, 0nat,
{
    match s {
        Shape::U8 => match <u8 as Deserialize>::spec_deser(b) {
            Ok(x) => Ok(ValueV::U8(x)),
            Err(e) => Err(e),
        },
        Shape::U16 => match <u16 as Deserialize>::spec_deser(b) {
            Ok(x) => Ok(ValueV::U16(x)),
            Err(e) => Err(e),
        },
        Shape::U32 => match <u32 as Deserialize>::spec_deser(b) {
            Ok(x) => Ok(ValueV::U32(x)),
            Err(e) => Err(e),
        },
        Shape::U64 => match <u64 as Deserialize>::spec_deser(b) {
            Ok(x) => Ok(ValueV::U64(x)),
            Err(e) => Err(e),
        },
        Shape::I8 => match <i8 as Deserialize>::spec_deser(b) {
            Ok(x) => Ok(ValueV::I8(x)),
            Err(e) => Err(e),
        },
        Shape::I16 => match <i16 as Deserialize>::spec_deser(b) {
            Ok(x) => Ok(ValueV::I16(x)),
            Err(e) => Err(e),
        },
        Shape::I32 => match <i32 as Deserialize>::spec_deser(b) {
            Ok(x) => Ok(ValueV::I32(x)),
            Err(e) => Err(e),
        },
        Shape::I64 => match <i64 as Deserialize>::spec_deser(b) {
            Ok(x) => Ok(ValueV::I64(x)),
            Err(e) => Err(e),
        },
        Shape::F32 => if b.len() < 4 {
            Err(OrbyteError::InvalidLength)
        } else {
            Ok(ValueV::F32Bits(spec_u32_from_le_bytes(b.take(4))))
        },
        Shape::F64 => if b.len() < 8 {
            Err(OrbyteError::InvalidLength)
        } else {
            Ok(ValueV::F64Bits(spec_u64_from_le_bytes(b.take(8))))
        },
        Shape::Bool => match <bool as Deserialize>::spec_deser(b) {
            Ok(x) => Ok(ValueV::Bool(x)),
            Err(e) => Err(e),
        },
        Shape::Char => match <char as Deserialize>::spec_deser(b) {
            Ok(x) => Ok(ValueV::Char(x)),
            Err(e) => Err(e),
        },
        Shape::Text => match <String as Deserialize>::spec_deser(b) {
            Ok(s) => Ok(ValueV::Text(s)),
            Err(e) => Err(e),
        },
        Shape::Sequence(inner) => if b.len() < 4 {
            Err(OrbyteError::InvalidLength)
        } else {
            match dec_elems(*inner, b.skip(4), spec_u32_from_le_bytes(b.take(4)) as nat) {
                Ok(vs) => Ok(ValueV::Sequence(vs)),
                Err(e) => Err(e),
            }
        },
        Shape::Optional(inner) => if b.len() == 0 {
            Ok(ValueV::Optional(Seq::empty()))
        } else {
            match dec_val(*inner, b) {
                Ok(x) => Ok(ValueV::Optional(seq![x])),
                Err(e) => Err(e),
            }
        },
        Shape::Product(fields) => match dec_fields(fields@, b) {
            Ok(vs) => Ok(ValueV::Product(vs)),
            Err(e) => Err(e),
        },
        Shape::Sum(alts) => if b.len() < 1 {
            Err(OrbyteError::InvalidLength)
        } else if (b[0] as int) < alts@.len() {
            match dec_fields(alts@[b[0] as int].fields@, b.skip(1)) {
                Ok(vs) => Ok(ValueV::Sum(b[0], vs)),
                Err(e) => Err(e),
            }
        } else {
            Err(OrbyteError::UnrecognizedTag)
        },
    }
}

/// The mathematical decode of `n` consecutive elements of shape `s` from the
/// front of `b`, each element's consumed length computed from its
/// re-encoding.
pub open spec fn dec_elems(s: Shape, b: Seq<u8>, n: nat) -> Result<Seq<ValueV>, OrbyteError>
    decreases s, n,
{
    if n == 0 {
        Ok(Seq::empty())
    } else {
        match dec_val(s, b) {
            Err(e) => Err(e),
            Ok(v) => match dec_elems(s, b.skip(enc_val(v).len() as int), (n - 1) as nat) {
                Err(e) => Err(e),
                Ok(tail) => Ok(seq![v] + tail),
            },
        }
    }
}

/// The mathematical decode of a product's fields, in declaration order, from
/// the front of `b`.
pub open spec fn dec_fields(fields: Seq<Field>, b: Seq<u8>) -> Result<Seq<ValueV>, OrbyteError>
    decreases fields, 0nat,
{
    if fields.len() == 0 {
        Ok(Seq::empty())
    } else {
        match dec_val(fields[0].shape, b) {
            Err(e) => Err(e),
            Ok(v) => match dec_fields(fields.drop_first(), b.skip(enc_val(v).len() as int)) {
                Err(e) => Err(e),
                Ok(tail) => Ok(seq![v] + tail),
            },
        }
    }
}

/// Canonicity of the engine's decode: a decoded value is well formed, has
/// the shape it was decoded against, and re-encodes to exactly the prefix of
/// the buffer that the decode consumed.  This law is what makes the
/// re-encoding cursor rule of composite decoding sound.
pub proof fn lemma_dec_val_canonical(s: Shape, b: Seq<u8>)
    ensures
        dec_val(s, b) matches Ok(v) ==> (val_wf(v) && conforms(v, s) && enc_val(v).len() <= b.len()
            && enc_val(v) == b.take(enc_val(v).len() as int)),
    decreases s, 0nat,
{
    match s {
        Shape::U8 => {
            <u8 as Deserialize>::lemma_deser_canonical(b);
        },
        Shape::U16 => {
            <u16 as Deserialize>::lemma_deser_canonical(b);
        },
        Shape::U32 => {
            <u32 as Deserialize>::lemma_deser_canonical(b);
        },
        Shape::U64 => {
            <u64 as Deserialize>::lemma_deser_canonical(b);
        },
        Shape::I8 => {
            <i8 as Deserialize>::lemma_deser_canonical(b);
        },
        Shape::I16 => {
            <i16 as Deserialize>::lemma_deser_canonical(b);
        },
        Shape::I32 => {
            <i32 as Deserialize>::lemma_deser_canonical(b);
        },
        Shape::I64 => {
            <i64 as Deserialize>::lemma_deser_canonical(b);
        },
        Shape::F32 => {
            lemma_auto_spec_u32_to_from_le_bytes();
            if b.len() >= 4 {
                assert(b.take(4).len() == 4);
            }
        },
        Shape::F64 => {
            lemma_auto_spec_u64_to_from_le_bytes();
            if b.len() >= 8 {
                assert(b.take(8).len() == 8);
            }
        },
        Shape::Bool => {
            <bool as Deserialize>::lemma_deser_canonical(b);
        },
        Shape::Char => {
            <char as Deserialize>::lemma_deser_canonical(b);
        },
        Shape::Text => {
            <String as Deserialize>::lemma_deser_canonical(b);
        },
        Shape::Sequence(inner) => {
            lemma_auto_spec_u32_to_from_le_bytes();
            if b.len() >= 4 {
                let n = spec_u32_from_le_bytes(b.take(4)) as nat;
                lemma_dec_elems_canonical(*inner, b.skip(4), n);
                if let Ok(vs) = dec_elems(*inner, b.skip(4), n) {
                    let v = ValueV::Sequence(vs);
                    let l = enc_vals(vs).len() as int;
                    assert(b.take(4).len() == 4);
                    assert(vs.len() as u32 == spec_u32_from_le_bytes(b.take(4)));
                    assert(enc_val(v) =~= b.take(4 + l));
                    assert(ValueV::Sequence(vs)->Sequence_0 == vs);
                    assert(val_wf(v));
                    assert(conforms(v, s));
                }
            }
        },
        Shape::Optional(inner) => {
            if b.len() == 0 {
                let v = ValueV::Optional(Seq::empty());
                assert(enc_vals(Seq::<ValueV>::empty()) == Seq::<u8>::empty());
                assert(enc_val(v) =~= b.take(0));
                assert(ValueV::Optional(Seq::<ValueV>::empty())->Optional_0
                    == Seq::<ValueV>::empty());
                assert(val_wf(v));
                assert(conforms(v, s));
            } else {
                lemma_dec_val_canonical(*inner, b);
                if let Ok(x) = dec_val(*inner, b) {
                    let iv = seq![x];
                    let v = ValueV::Optional(iv);
                    assert(iv.drop_last() =~= Seq::<ValueV>::empty());
                    assert(enc_vals(Seq::<ValueV>::empty()) == Seq::<u8>::empty());
                    assert(enc_vals(iv) == enc_vals(iv.drop_last()) + enc_val(iv.last()));
                    assert(enc_vals(iv) =~= enc_val(x));
                    assert(ValueV::Optional(iv)->Optional_0 == iv);
                    assert(val_wf(v));
                    assert(conforms(v, s));
                }
            }
        },
        Shape::Product(fields) => {
            lemma_dec_fields_canonical(fields@, b);
            if let Ok(vs) = dec_fields(fields@, b) {
                assert(ValueV::Product(vs)->Product_0 == vs);
                assert(val_wf(ValueV::Product(vs)));
                assert(conforms(ValueV::Product(vs), s));
            }
        },
        Shape::Sum(alts) => {
            if b.len() >= 1 && (b[0] as int) < alts@.len() {
                lemma_dec_fields_canonical(alts@[b[0] as int].fields@, b.skip(1));
                if let Ok(vs) = dec_fields(alts@[b[0] as int].fields@, b.skip(1)) {
                    let v = ValueV::Sum(b[0], vs);
                    let l = enc_vals(vs).len() as int;
                    assert(enc_val(v) =~= b.take(1 + l));
                    assert(ValueV::Sum(b[0], vs)->Sum_1 == vs);
                    assert(val_wf(v));
                    assert(conforms(v, s));
                }
            }
        },
    }
}

/// Canonicity for element lists, by induction on the count.
pub proof fn lemma_dec_elems_canonical(s: Shape, b: Seq<u8>, n: nat)
    ensures
        dec_elems(s, b, n) matches Ok(vs) ==> (vs.len() == n && (forall|i: int|
            0 <= i < vs.len() ==> val_wf(#[trigger] vs[i])) && (forall|i: int|
            0 <= i < vs.len() ==> conforms(#[trigger] vs[i], s)) && enc_vals(vs).len() <= b.len()
            && enc_vals(vs) == b.take(enc_vals(vs).len() as int)),
    decreases s, n,
{
    if n > 0 {
        lemma_dec_val_canonical(s, b);
        if let Ok(v) = dec_val(s, b) {
            let l0 = enc_val(v).len() as int;
            let b1 = b.skip(l0);
            lemma_dec_elems_canonical(s, b1, (n - 1) as nat);
            if let Ok(tail) = dec_elems(s, b1, (n - 1) as nat) {
                let vs = seq![v] + tail;
                assert(vs.drop_first() =~= tail);
                lemma_enc_vals_first(vs);
                let l1 = enc_vals(tail).len() as int;
                assert(enc_vals(vs) =~= b.take(l0 + l1));
                assert forall|i: int| 0 <= i < vs.len() implies val_wf(#[trigger] vs[i]) by {
                    if i > 0 {
                        assert(vs[i] == tail[i - 1]);
                    }
                }
                assert forall|i: int| 0 <= i < vs.len() implies conforms(#[trigger] vs[i], s) by {
                    if i > 0 {
                        assert(vs[i] == tail[i - 1]);
                    }
                }
            }
        }
    }
}

/// Canonicity for product fields, by induction on the field list.
pub proof fn lemma_dec_fields_canonical(fields: Seq<Field>, b: Seq<u8>)
    ensures
        dec_fields(fields, b) matches Ok(vs) ==> ((forall|i: int|
            0 <= i < vs.len() ==> val_wf(#[trigger] vs[i])) && conforms_fields(vs, fields)
            && enc_vals(vs).len() <= b.len() && enc_vals(vs) == b.take(
            enc_vals(vs).len() as int,
        )),
    decreases fields, 1nat,
{
    if fields.len() == 0 {
        let vs = Seq::<ValueV>::empty();
        assert(enc_vals(vs) =~= b.take(0));
        assert(conforms_fields(vs, fields));
    } else {
        lemma_dec_val_canonical(fields[0].shape, b);
        if let Ok(v) = dec_val(fields[0].shape, b) {
            let l0 = enc_val(v).len() as int;
            let b1 = b.skip(l0);
            lemma_dec_fields_canonical(fields.drop_first(), b1);
            if let Ok(tail) = dec_fields(fields.drop_first(), b1) {
                let vs = seq![v] + tail;
                assert(vs.drop_first() =~= tail);
                lemma_enc_vals_first(vs);
                let l1 = enc_vals(tail).len() as int;
                assert(enc_vals(vs) =~= b.take(l0 + l1));
                assert forall|i: int| 0 <= i < vs.len() implies val_wf(#[trigger] vs[i]) by {
                    if i > 0 {
                        assert(vs[i] == tail[i - 1]);
                    }
                }
                assert forall|i: int| 0 <= i < vs.len() implies conforms(
                    #[trigger] vs[i],
                    fields[i].shape,
                ) by {
                    if i > 0 {
                        assert(vs[i] == tail[i - 1]);
                        assert(fields.drop_first()[i - 1] == fields[i]);
                        assert(conforms(tail[i - 1], fields.drop_first()[i - 1].shape));
                    }
                }
                assert(conforms_fields(vs, fields));
            }
        }
    }
}

/// Encodes the elements of `vs`, in order, appending nothing else.
fn encode_list(vs: &Vec<Value>) -> (r: Vec<u8>)
    requires
        forall|i: int| 0 <= i < vs@.len() ==> val_wf(#[trigger] views_of(vs@)[i]),
    ensures
        r@ == enc_vals(views_of(vs@)),
    decreases vs@, 1nat,
{
    proof {
        lemma_views_of(vs@);
    }
    let ghost ev = views_of(vs@);
    let mut r: Vec<u8> = Vec::new();
    let mut i: usize = 0;
    while i < vs.len()
        invariant
            0 <= i <= vs@.len(),
            ev == views_of(vs@),
            ev.len() == vs@.len(),
            forall|j: int| 0 <= j < vs@.len() ==> val_wf(#[trigger] ev[j]),
            forall|j: int| 0 <= j < vs@.len() ==> #[trigger] ev[j] == view_of(vs@[j]),
            r@ == enc_vals(ev.take(i as int)),
        decreases vs@.len() - i,
    {
        proof {
            assert(ev[i as int] == view_of(vs@[i as int]));
            assert(val_wf(ev[i as int]));
        }
        let mut b = encode_value(&vs[i]);
        r.append(&mut b);
        proof {
            assert(ev.take(i + 1).drop_last() =~= ev.take(i as int));
            assert(ev.take(i + 1).last() == ev[i as int]);
            assert(r@ =~= enc_vals(ev.take(i + 1)));
        }
        i = i + 1;
    }
    proof {
        assert(ev.take(ev.len() as int) =~= ev);
    }
    r
}

/// Encodes a well-formed value into its byte sequence.  Encoding never
/// fails: any in-memory value within the format's limits can be encoded.
pub fn encode_value(v: &Value) -> (r: Vec<u8>)
    requires
        val_wf(view_of(*v)),
    ensures
        r@ == enc_val(view_of(*v)),
    decreases *v, 0nat,
{
    match v {
        Value::U8(x) => x.serialize(),
        Value::U16(x) => x.serialize(),
        Value::U32(x) => x.serialize(),
        Value::U64(x) => x.serialize(),
        Value::I8(x) => x.serialize(),
        Value::I16(x) => x.serialize(),
        Value::I32(x) => x.serialize(),
        Value::I64(x) => x.serialize(),
        Value::F32Bits(x) => u32_to_le_bytes(*x),
        Value::F64Bits(x) => u64_to_le_bytes(*x),
        Value::Bool(x) => x.serialize(),
        Value::Char(x) => x.serialize(),
        Value::Text(s) => s.serialize(),
        Value::Sequence(elems) => {
            proof {
                lemma_views_of(elems@);
                assert(view_of(*v) == ValueV::Sequence(views_of(elems@)));
            }
            let mut r = u32_to_le_bytes(elems.len() as u32);
            let mut b = encode_list(elems);
            r.append(&mut b);
            r
        },
        Value::Optional(o) => match o {
            None => {
                let r: Vec<u8> = Vec::new();
                proof {
                    assert(r@ =~= enc_val(view_of(*v)));
                }
                r
            },
            Some(bx) => {
                let ghost x = view_of(*(*bx));
                let ghost inner = seq![x];
                proof {
                    assert(view_of(*v) == ValueV::Optional(inner));
                    assert(inner[0] == x);
                    assert(val_wf(x));
                }
                let r = encode_value(bx);
                proof {
                    assert(inner.last() == x);
                    assert(inner.drop_last() =~= Seq::<ValueV>::empty());
                    assert(enc_vals(Seq::<ValueV>::empty()) == Seq::<u8>::empty());
                    assert(enc_vals(inner) == enc_vals(inner.drop_last()) + enc_val(inner.last()));
                    assert(enc_vals(inner) =~= enc_val(x));
                }
                r
            },
        },
        Value::Product(vals) => {
            proof {
                lemma_views_of(vals@);
                assert(view_of(*v) == ValueV::Product(views_of(vals@)));
                let ev = views_of(vals@);
                assert forall|i: int| 0 <= i < vals@.len() implies val_wf(
                    #[trigger] views_of(vals@)[i],
                ) by {
                    assert(ValueV::Product(ev)->Product_0 == ev);
                    assert(val_wf(ValueV::Product(ev)));
                    assert(ev.len() == vals@.len());
                    assert(val_wf(ev[i]));
                }
            }
            encode_list(vals)
        },
        Value::Sum(tag, vals) => {
            proof {
                lemma_views_of(vals@);
                assert(view_of(*v) == ValueV::Sum(*tag, views_of(vals@)));
                let ev = views_of(vals@);
                assert forall|i: int| 0 <= i < vals@.len() implies val_wf(
                    #[trigger] views_of(vals@)[i],
                ) by {
                    assert(ValueV::Sum(*tag, ev)->Sum_1 == ev);
                    assert(val_wf(ValueV::Sum(*tag, ev)));
                    assert(ev.len() == vals@.len());
                    assert(val_wf(ev[i]));
                }
            }
            let mut r: Vec<u8> = Vec::new();
            r.push(*tag);
            let mut b = encode_list(vals);
            r.append(&mut b);
            proof {
                assert(r@ =~= seq![*tag] + enc_vals(views_of(vals@)));
            }
            r
        },
    }
}

/// Decodes a product's fields from the front of `bytes`, in declaration
/// order, advancing past each field by the length of its re-encoding.
fn decode_fields(fields: &Vec<Field>, bytes: &[u8]) -> (r: Result<Vec<Value>, OrbyteError>)
    ensures
        match r {
            Ok(vals) => dec_fields(fields@, bytes@) == Ok::<Seq<ValueV>, OrbyteError>(
                views_of(vals@),
            ) && (forall|i: int| 0 <= i < vals@.len() ==> val_wf(#[trigger] views_of(vals@)[i])),
            Err(e) => dec_fields(fields@, bytes@) == Err::<Seq<ValueV>, OrbyteError>(e),
        },
    decreases fields@, 1nat,
{
    let mut result: Vec<Value> = Vec::new();
    let mut offset: usize = 0;
    let mut i: usize = 0;
    proof {
        lemma_views_of(result@);
        assert(bytes@.skip(0) =~= bytes@);
        assert(fields@.skip(0) =~= fields@);
    }
    while i < fields.len()
        invariant
            0 <= i <= fields@.len(),
            0 <= offset <= bytes@.len(),
            views_of(result@).len() == i,
            forall|j: int| 0 <= j < i ==> val_wf(#[trigger] views_of(result@)[j]),
            dec_fields(fields@, bytes@) == (match dec_fields(
                fields@.skip(i as int),
                bytes@.skip(offset as int),
            ) {
                Ok(tail) => Ok::<Seq<ValueV>, OrbyteError>(views_of(result@) + tail),
                Err(e) => Err::<Seq<ValueV>, OrbyteError>(e),
            }),
        decreases fields@.len() - i,
    {
        let ghost pre = result@;
        let ghost remaining = bytes@.skip(offset as int);
        proof {
            assert(remaining =~= bytes@.subrange(offset as int, bytes@.len() as int));
            assert(fields@.skip(i as int)[0] == fields@[i as int]);
            assert(fields@.skip(i as int).drop_first() =~= fields@.skip(i + 1));
        }
        match decode_value(&fields[i].shape, slice_subrange(bytes, offset, bytes.len())) {
            Err(e) => {
                return Err(e);
            },
            Ok(item) => {
                proof {
                    lemma_dec_val_canonical(fields@[i as int].shape, remaining);
                }
                let enc = encode_value(&item);
                let l = enc.len();
                result.push(item);
                proof {
                    lemma_views_of(pre);
                    lemma_views_of(result@);
                    assert(views_of(result@) =~= views_of(pre) + seq![view_of(item)]);
                    assert(remaining.skip(l as int) =~= bytes@.skip(offset + l));
                    if let Ok(tail) = dec_fields(fields@.skip(i + 1), bytes@.skip(offset + l)) {
                        assert(views_of(pre) + (seq![view_of(item)] + tail) =~= (views_of(pre)
                            + seq![view_of(item)]) + tail);
                    }
                }
                offset = offset + l;
                i = i + 1;
            },
        }
    }
    proof {
        lemma_views_of(result@);
        assert(fields@.skip(i as int) =~= Seq::<Field>::empty());
        assert(dec_fields(fields@.skip(i as int), bytes@.skip(offset as int)) == Ok::<
            Seq<ValueV>,
            OrbyteError,
        >(Seq::<ValueV>::empty()));
        assert(views_of(result@) + Seq::<ValueV>::empty() =~= views_of(result@));
    }
    Ok(result)
}

/// Decodes a value of shape `s` from the front of `bytes`: the sole fallible
/// operation.  Exactly when the buffer does not hold a value of the shape,
/// the first failure met is returned.
#[verifier::rlimit(100)]
pub fn decode_value(s: &Shape, bytes: &[u8]) -> (r: Result<Value, OrbyteError>)
    ensures
        match r {
            Ok(v) => dec_val(*s, bytes@) == Ok::<ValueV, OrbyteError>(view_of(v)) && val_wf(
                view_of(v),
            ),
            Err(e) => dec_val(*s, bytes@) == Err::<ValueV, OrbyteError>(e),
        },
    decreases *s, 0nat,
{
    match s {
        Shape::U8 => match <u8 as Deserialize>::deserialize(bytes) {
            Ok(x) => Ok(Value::U8(x)),
            Err(e) => Err(e),
        },
        Shape::U16 => match <u16 as Deserialize>::deserialize(bytes) {
            Ok(x) => Ok(Value::U16(x)),
            Err(e) => Err(e),
        },
        Shape::U32 => match <u32 as Deserialize>::deserialize(bytes) {
            Ok(x) => Ok(Value::U32(x)),
            Err(e) => Err(e),
        },
        Shape::U64 => match <u64 as Deserialize>::deserialize(bytes) {
            Ok(x) => Ok(Value::U64(x)),
            Err(e) => Err(e),
        },
        Shape::I8 => match <i8 as Deserialize>::deserialize(bytes) {
            Ok(x) => Ok(Value::I8(x)),
            Err(e) => Err(e),
        },
        Shape::I16 => match <i16 as Deserialize>::deserialize(bytes) {
            Ok(x) => Ok(Value::I16(x)),
            Err(e) => Err(e),
        },
        Shape::I32 => match <i32 as Deserialize>::deserialize(bytes) {
            Ok(x) => Ok(Value::I32(x)),
            Err(e) => Err(e),
        },
        Shape::I64 => match <i64 as Deserialize>::deserialize(bytes) {
            Ok(x) => Ok(Value::I64(x)),
            Err(e) => Err(e),
        },
        Shape::F32 => {
            if bytes.len() < 4 {
                Err(OrbyteError::InvalidLength)
            } else {
                Ok(Value::F32Bits(u32_from_le_bytes(slice_subrange(bytes, 0, 4))))
            }
        },
        Shape::F64 => {
            if bytes.len() < 8 {
                Err(OrbyteError::InvalidLength)
            } else {
                Ok(Value::F64Bits(u64_from_le_bytes(slice_subrange(bytes, 0, 8))))
            }
        },
        Shape::Bool => match <bool as Deserialize>::deserialize(bytes) {
            Ok(x) => Ok(Value::Bool(x)),
            Err(e) => Err(e),
        },
        Shape::Char => match <char as Deserialize>::deserialize(bytes) {
            Ok(x) => Ok(Value::Char(x)),
            Err(e) => Err(e),
        },
        Shape::Text => match <String as Deserialize>::deserialize(bytes) {
            Ok(x) => Ok(Value::Text(x)),
            Err(e) => Err(e),
        },
        Shape::Sequence(inner) => {
            if bytes.len() < 4 {
                return Err(OrbyteError::InvalidLength);
            }
            let n32 = u32_from_le_bytes(slice_subrange(bytes, 0, 4));
            let n = n32 as usize;
            let mut result: Vec<Value> = Vec::new();
            let mut offset: usize = 4;
            let mut i: usize = 0;
            proof {
                lemma_views_of(result@);
            }
            while i < n
                invariant
                    *s == Shape::Sequence(*inner),
                    0 <= i <= n,
                    4 <= offset <= bytes@.len(),
                    n == spec_u32_from_le_bytes(bytes@.take(4)) as nat,
                    views_of(result@).len() == i,
                    forall|j: int| 0 <= j < i ==> val_wf(#[trigger] views_of(result@)[j]),
                    dec_elems(**inner, bytes@.skip(4), n as nat) == (match dec_elems(
                        **inner,
                        bytes@.skip(offset as int),
                        (n - i) as nat,
                    ) {
                        Ok(tail) => Ok::<Seq<ValueV>, OrbyteError>(views_of(result@) + tail),
                        Err(e) => Err::<Seq<ValueV>, OrbyteError>(e),
                    }),
                decreases n - i,
            {
                let ghost pre = result@;
                let ghost remaining = bytes@.skip(offset as int);
                proof {
                    assert(remaining =~= bytes@.subrange(offset as int, bytes@.len() as int));
                }
                match decode_value(inner, slice_subrange(bytes, offset, bytes.len())) {
                    Err(e) => {
                        return Err(e);
                    },
                    Ok(item) => {
                        proof {
                            lemma_dec_val_canonical(**inner, remaining);
                        }
                        let enc = encode_value(&item);
                        let l = enc.len();
                        result.push(item);
                        proof {
                            lemma_views_of(pre);
                            lemma_views_of(result@);
                            assert(views_of(result@) =~= views_of(pre) + seq![view_of(item)]);
                            assert(remaining.skip(l as int) =~= bytes@.skip(offset + l));
                            if let Ok(tail) = dec_elems(
                                **inner,
                                bytes@.skip(offset + l),
                                (n - i - 1) as nat,
                            ) {
                                assert(views_of(pre) + (seq![view_of(item)] + tail) =~= (views_of(
                                    pre,
                                ) + seq![view_of(item)]) + tail);
                            }
                        }
                        offset = offset + l;
                        i = i + 1;
                    },
                }
            }
            proof {
                let ev = views_of(result@);
                assert(ev + Seq::<ValueV>::empty() =~= ev);
                assert(ValueV::Sequence(ev)->Sequence_0 == ev);
                assert(val_wf(ValueV::Sequence(ev)));
            }
            Ok(Value::Sequence(result))
        },
        Shape::Optional(inner) => {
            if bytes.len() == 0 {
                proof {
                    assert(ValueV::Optional(Seq::<ValueV>::empty())->Optional_0
                        == Seq::<ValueV>::empty());
                    assert(val_wf(ValueV::Optional(Seq::<ValueV>::empty())));
                }
                Ok(Value::Optional(None))
            } else {
                match decode_value(inner, bytes) {
                    Ok(x) => {
                        proof {
                            let iv = seq![view_of(x)];
                            assert(ValueV::Optional(iv)->Optional_0 == iv);
                            assert(iv[0] == view_of(x));
                            assert(val_wf(ValueV::Optional(iv)));
                        }
                        Ok(Value::Optional(Some(Box::new(x))))
                    },
                    Err(e) => Err(e),
                }
            }
        },
        Shape::Product(fields) => match decode_fields(fields, bytes) {
            Ok(vals) => {
                proof {
                    lemma_views_of(vals@);
                    let ev = views_of(vals@);
                    assert(ValueV::Product(ev)->Product_0 == ev);
                    assert(val_wf(ValueV::Product(ev)));
                }
                Ok(Value::Product(vals))
            },
            Err(e) => Err(e),
        },
        Shape::Sum(alts) => {
            if bytes.len() < 1 {
                return Err(OrbyteError::InvalidLength);
            }
            let tag = *slice_index_get(bytes, 0);
            if (tag as usize) < alts.len() {
                match decode_fields(&alts[tag as usize].fields, slice_subrange(
                    bytes,
                    1,
                    bytes.len(),
                )) {
                    Ok(vals) => {
                        proof {
                            lemma_views_of(vals@);
                            let ev = views_of(vals@);
                            assert(ValueV::Sum(tag, ev)->Sum_1 == ev);
                            assert(val_wf(ValueV::Sum(tag, ev)));
                        }
                        Ok(Value::Sum(tag, vals))
                    },
                    Err(e) => Err(e),
                }
            } else {
                Err(OrbyteError::UnrecognizedTag)
            }
        },
    }
}

/// When decoding the encoding of `v` followed by `rest` is unambiguous.
///
/// The markerless optional encoding makes an absent value indistinguishable
/// from trailing bytes, so an absent optional requires `rest` to be empty
/// and a present one requires something on the wire; every other kind of
/// value constrains only its children.
pub open spec fn val_unamb(v: ValueV, rest: Seq<u8>) -> bool
    decreases v, 0nat,
{
    match v {
        ValueV::Sequence(elems) => vals_unamb(elems, rest),
        ValueV::Optional(o) => if o.len() == 0 {
            rest.len() == 0
        } else {
            enc_val(o[0]).len() + rest.len() > 0 && val_unamb(o[0], rest)
        },
        ValueV::Product(vals) => vals_unamb(vals, rest),
        ValueV::Sum(tag, vals) => vals_unamb(vals, rest),
        _ => true,
    }
}

/// Each element of a list must be unambiguous before the encodings of the
/// elements that follow it, and then before `rest`.
pub open spec fn vals_unamb(vs: Seq<ValueV>, rest: Seq<u8>) -> bool
    decreases vs, 1nat,
{
    forall|i: int|
        0 <= i < vs.len() ==> val_unamb(#[trigger] vs[i], enc_vals(vs.skip(i + 1)) + rest)
}

/// Round trip: decoding the encoding of a well-formed conforming value,
/// followed by trailing bytes the format can tell apart from it, yields the
/// value back.  With empty trailing bytes this is the plain round trip for
/// every shape the engine derives.
pub proof fn lemma_dec_val_round_trip(s: Shape, v: ValueV, rest: Seq<u8>)
    requires
        conforms(v, s),
        val_wf(v),
        val_unamb(v, rest),
    ensures
        dec_val(s, enc_val(v) + rest) == Ok::<ValueV, OrbyteError>(v),
    decreases v, 0nat,
{
    let b = enc_val(v) + rest;
    match v {
        ValueV::U8(x) => {
            <u8 as Deserialize>::lemma_round_trip(x, rest);
        },
        ValueV::U16(x) => {
            <u16 as Deserialize>::lemma_round_trip(x, rest);
        },
        ValueV::U32(x) => {
            <u32 as Deserialize>::lemma_round_trip(x, rest);
        },
        ValueV::U64(x) => {
            <u64 as Deserialize>::lemma_round_trip(x, rest);
        },
        ValueV::I8(x) => {
            <i8 as Deserialize>::lemma_round_trip(x, rest);
        },
        ValueV::I16(x) => {
            <i16 as Deserialize>::lemma_round_trip(x, rest);
        },
        ValueV::I32(x) => {
            <i32 as Deserialize>::lemma_round_trip(x, rest);
        },
        ValueV::I64(x) => {
            <i64 as Deserialize>::lemma_round_trip(x, rest);
        },
        ValueV::F32Bits(x) => {
            lemma_auto_spec_u32_to_from_le_bytes();
            assert((spec_u32_to_le_bytes(x) + rest).take(4) =~= spec_u32_to_le_bytes(x));
        },
        ValueV::F64Bits(x) => {
            lemma_auto_spec_u64_to_from_le_bytes();
            assert((spec_u64_to_le_bytes(x) + rest).take(8) =~= spec_u64_to_le_bytes(x));
        },
        ValueV::Bool(x) => {
            <bool as Deserialize>::lemma_round_trip(x, rest);
        },
        ValueV::Char(x) => {
            <char as Deserialize>::lemma_round_trip(x, rest);
        },
        ValueV::Text(x) => {
            <String as Deserialize>::lemma_round_trip(x, rest);
        },
        ValueV::Sequence(elems) => {
            if let Shape::Sequence(inner) = s {
                lemma_auto_spec_u32_to_from_le_bytes();
                let e = enc_vals(elems);
                assert(ValueV::Sequence(elems)->Sequence_0 == elems);
                assert(b.take(4) =~= spec_u32_to_le_bytes(elems.len() as u32));
                assert(b.skip(4) =~= e + rest);
                assert forall|i: int| 0 <= i < elems.len() implies conforms(
                    #[trigger] elems[i],
                    *inner,
                ) && val_wf(elems[i]) by {
                    assert(conforms(v, s));
                    assert(val_wf(v));
                }
                lemma_dec_elems_round_trip(*inner, elems, rest);
                assert(spec_u32_from_le_bytes(b.take(4)) as nat == elems.len());
            }
        },
        ValueV::Optional(o) => {
            if let Shape::Optional(inner) = s {
                assert(ValueV::Optional(o)->Optional_0 == o);
                if o.len() == 0 {
                    assert(o =~= Seq::<ValueV>::empty());
                    assert(b =~= Seq::<u8>::empty());
                } else {
                    assert(o.len() == 1);
                    assert(o.drop_last() =~= Seq::<ValueV>::empty());
                    assert(enc_vals(Seq::<ValueV>::empty()) == Seq::<u8>::empty());
                    assert(enc_vals(o) == enc_vals(o.drop_last()) + enc_val(o.last()));
                    assert(enc_vals(o) =~= enc_val(o[0]));
                    assert(b.len() > 0);
                    assert(conforms(o[0], *inner));
                    assert(val_wf(o[0]));
                    lemma_dec_val_round_trip(*inner, o[0], rest);
                    assert(seq![o[0]] =~= o);
                }
            }
        },
        ValueV::Product(vals) => {
            if let Shape::Product(fields) = s {
                assert(ValueV::Product(vals)->Product_0 == vals);
                assert forall|i: int| 0 <= i < vals.len() implies val_wf(#[trigger] vals[i]) by {
                    assert(val_wf(v));
                }
                lemma_dec_fields_round_trip(fields@, vals, rest);
            }
        },
        ValueV::Sum(tag, vals) => {
            if let Shape::Sum(alts) = s {
                assert(ValueV::Sum(tag, vals)->Sum_1 == vals);
                assert(b[0] == tag);
                assert(b.skip(1) =~= enc_vals(vals) + rest);
                assert forall|i: int| 0 <= i < vals.len() implies val_wf(#[trigger] vals[i]) by {
                    assert(val_wf(v));
                }
                lemma_dec_fields_round_trip(alts@[tag as int].fields@, vals, rest);
            }
        },
    }
}

/// Plain round trip for the engine: decoding the exact encoding of a
/// well-formed conforming value, against its own shape, yields the value
/// back, whenever the value is unambiguous before an empty tail.
pub proof fn lemma_plain_dec_round_trip(s: Shape, v: ValueV)
    requires
        conforms(v, s),
        val_wf(v),
        val_unamb(v, Seq::empty()),
    ensures
        dec_val(s, enc_val(v)) == Ok::<ValueV, OrbyteError>(v),
{
    lemma_dec_val_round_trip(s, v, Seq::empty());
    assert(enc_val(v) + Seq::<u8>::empty() =~= enc_val(v));
}

/// Round trip for element lists, by induction on the list.
pub proof fn lemma_dec_elems_round_trip(s: Shape, vs: Seq<ValueV>, rest: Seq<u8>)
    requires
        forall|i: int| 0 <= i < vs.len() ==> conforms(#[trigger] vs[i], s),
        forall|i: int| 0 <= i < vs.len() ==> val_wf(#[trigger] vs[i]),
        vals_unamb(vs, rest),
    ensures
        dec_elems(s, enc_vals(vs) + rest, vs.len()) == Ok::<Seq<ValueV>, OrbyteError>(vs),
    decreases vs, 1nat,
{
    if vs.len() == 0 {
        assert(vs =~= Seq::<ValueV>::empty());
    } else {
        let tail = vs.drop_first();
        let b = enc_vals(vs) + rest;
        lemma_enc_vals_first(vs);
        assert(vs.skip(1) =~= tail);
        assert(b =~= enc_val(vs[0]) + (enc_vals(tail) + rest));
        assert(val_unamb(vs[0], enc_vals(vs.skip(1)) + rest));
        lemma_dec_val_round_trip(s, vs[0], enc_vals(tail) + rest);
        assert(b.skip(enc_val(vs[0]).len() as int) =~= enc_vals(tail) + rest);
        assert forall|i: int| 0 <= i < tail.len() implies val_unamb(
            #[trigger] tail[i],
            enc_vals(tail.skip(i + 1)) + rest,
        ) by {
            assert(tail.skip(i + 1) =~= vs.skip(i + 2));
            assert(tail[i] == vs[i + 1]);
            assert(val_unamb(vs[i + 1], enc_vals(vs.skip(i + 2)) + rest));
        }
        assert(forall|i: int| 0 <= i < tail.len() ==> #[trigger] tail[i] == vs[i + 1]);
        lemma_dec_elems_round_trip(s, tail, rest);
        assert(seq![vs[0]] + tail =~= vs);
    }
}

/// Round trip for product fields, by induction on the field list.
pub proof fn lemma_dec_fields_round_trip(fields: Seq<Field>, vs: Seq<ValueV>, rest: Seq<u8>)
    requires
        conforms_fields(vs, fields),
        forall|i: int| 0 <= i < vs.len() ==> val_wf(#[trigger] vs[i]),
        vals_unamb(vs, rest),
    ensures
        dec_fields(fields, enc_vals(vs) + rest) == Ok::<Seq<ValueV>, OrbyteError>(vs),
    decreases vs, 1nat,
{
    if vs.len() == 0 {
        assert(vs =~= Seq::<ValueV>::empty());
    } else {
        let tail = vs.drop_first();
        let b = enc_vals(vs) + rest;
        lemma_enc_vals_first(vs);
        assert(vs.skip(1) =~= tail);
        assert(b =~= enc_val(vs[0]) + (enc_vals(tail) + rest));
        assert(val_unamb(vs[0], enc_vals(vs.skip(1)) + rest));
        assert(conforms(vs[0], fields[0].shape));
        lemma_dec_val_round_trip(fields[0].shape, vs[0], enc_vals(tail) + rest);
        assert(b.skip(enc_val(vs[0]).len() as int) =~= enc_vals(tail) + rest);
        assert forall|i: int| 0 <= i < tail.len() implies val_unamb(
            #[trigger] tail[i],
            enc_vals(tail.skip(i + 1)) + rest,
        ) by {
            assert(tail.skip(i + 1) =~= vs.skip(i + 2));
            assert(tail[i] == vs[i + 1]);
            assert(val_unamb(vs[i + 1], enc_vals(vs.skip(i + 2)) + rest));
        }
        assert forall|i: int| 0 <= i < tail.len() implies conforms(
            #[trigger] tail[i],
            fields.drop_first()[i].shape,
        ) && val_wf(tail[i]) by {
            assert(tail[i] == vs[i + 1]);
            assert(fields.drop_first()[i] == fields[i + 1]);
            assert(conforms(vs[i + 1], fields[i + 1].shape));
        }
        assert(conforms_fields(tail, fields.drop_first()));
        lemma_dec_fields_round_trip(fields.drop_first(), tail, rest);
        assert(seq![vs[0]] + tail =~= vs);
    }
}

/// Tag assignment for sums: a conforming sum value's discriminant is the
/// declaration index of the alternative it selects, it is transmitted as the
/// one tag byte opening the encoding, and two values that select distinct
/// alternatives differ in that byte.  A sum declaring the full 256
/// alternatives therefore uses tags 0 to 255 without collision; no further
/// alternative is representable, the tag being a single byte.
pub proof fn lemma_sum_tags(alts: Vec<Alternative>, v1: ValueV, v2: ValueV)
    requires
        v1 is Sum,
        v2 is Sum,
        conforms(v1, Shape::Sum(alts)),
        conforms(v2, Shape::Sum(alts)),
    ensures
        (v1->Sum_0 as int) < alts@.len(),
        enc_val(v1).len() >= 1 && enc_val(v1)[0] == v1->Sum_0,
        v1->Sum_0 != v2->Sum_0 ==> enc_val(v1)[0] != enc_val(v2)[0],
{
    let tag1 = v1->Sum_0;
    let vals1 = v1->Sum_1;
    assert(v1 == ValueV::Sum(tag1, vals1));
    assert(enc_val(v1) == seq![tag1] + enc_vals(vals1));
    assert(enc_val(v1)[0] == tag1);
    let tag2 = v2->Sum_0;
    let vals2 = v2->Sum_1;
    assert(v2 == ValueV::Sum(tag2, vals2));
    assert(enc_val(v2) == seq![tag2] + enc_vals(vals2));
    assert(enc_val(v2)[0] == tag2);
}


/// Two shapes with the same skeleton: equal up to field and alternative
/// names.  Names are reconstruction metadata only.
pub open spec fn same_skeleton(s1: Shape, s2: Shape) -> bool
    decreases s1, 0nat,
{
    match s1 {
        Shape::U8 => s2 is U8,
        Shape::U16 => s2 is U16,
        Shape::U32 => s2 is U32,
        Shape::U64 => s2 is U64,
        Shape::I8 => s2 is I8,
        Shape::I16 => s2 is I16,
        Shape::I32 => s2 is I32,
        Shape::I64 => s2 is I64,
        Shape::F32 => s2 is F32,
        Shape::F64 => s2 is F64,
        Shape::Bool => s2 is Bool,
        Shape::Char => s2 is Char,
        Shape::Text => s2 is Text,
        Shape::Sequence(i1) => s2 matches Shape::Sequence(i2) && same_skeleton(*i1, *i2),
        Shape::Optional(i1) => s2 matches Shape::Optional(i2) && same_skeleton(*i1, *i2),
        Shape::Product(f1) => s2 matches Shape::Product(f2) && same_fields(f1@, f2@),
        Shape::Sum(a1) => s2 matches Shape::Sum(a2) && a1@.len() == a2@.len() && (forall|i: int|
            0 <= i < a1@.len() ==> same_fields(#[trigger] a1@[i].fields@, a2@[i].fields@)),
    }
}

/// Two field lists with the same shapes position by position, whatever
/// their names.
pub open spec fn same_fields(f1: Seq<Field>, f2: Seq<Field>) -> bool
    decreases f1, 1nat,
{
    f1.len() == f2.len() && (forall|i: int|
        0 <= i < f1.len() ==> same_skeleton(#[trigger] f1[i].shape, f2[i].shape))
}

/// Renaming invariance: decoding reads field order and field shapes, never
/// names, so two shapes that differ only in their names decode every buffer
/// to the same result.  Encoding is value-directed and reads no shape at
/// all, so the whole wire format is unchanged under renaming.
pub proof fn lemma_rename_dec_val(s1: Shape, s2: Shape, b: Seq<u8>)
    requires
        same_skeleton(s1, s2),
    ensures
        dec_val(s1, b) == dec_val(s2, b),
    decreases s1, 0nat,
{
    match s1 {
        Shape::Sequence(i1) => {
            if let Shape::Sequence(i2) = s2 {
                if b.len() >= 4 {
                    lemma_rename_dec_elems(
                        *i1,
                        *i2,
                        b.skip(4),
                        spec_u32_from_le_bytes(b.take(4)) as nat,
                    );
                }
            }
        },
        Shape::Optional(i1) => {
            if let Shape::Optional(i2) = s2 {
                if b.len() > 0 {
                    lemma_rename_dec_val(*i1, *i2, b);
                }
            }
        },
        Shape::Product(f1) => {
            if let Shape::Product(f2) = s2 {
                lemma_rename_dec_fields(f1@, f2@, b);
            }
        },
        Shape::Sum(a1) => {
            if let Shape::Sum(a2) = s2 {
                if b.len() >= 1 && (b[0] as int) < a1@.len() {
                    assert(same_fields(a1@[b[0] as int].fields@, a2@[b[0] as int].fields@));
                    lemma_rename_dec_fields(a1@[b[0] as int].fields@, a2@[b[0] as int].fields@, b.skip(1));
                }
            }
        },
        _ => {},
    }
}

/// Renaming invariance for element lists.
pub proof fn lemma_rename_dec_elems(s1: Shape, s2: Shape, b: Seq<u8>, n: nat)
    requires
        same_skeleton(s1, s2),
    ensures
        dec_elems(s1, b, n) == dec_elems(s2, b, n),
    decreases s1, n,
{
    if n > 0 {
        lemma_rename_dec_val(s1, s2, b);
        if let Ok(v) = dec_val(s1, b) {
            lemma_rename_dec_elems(s1, s2, b.skip(enc_val(v).len() as int), (n - 1) as nat);
        }
    }
}

/// Renaming invariance for product fields.
pub proof fn lemma_rename_dec_fields(f1: Seq<Field>, f2: Seq<Field>, b: Seq<u8>)
    requires
        same_fields(f1, f2),
    ensures
        dec_fields(f1, b) == dec_fields(f2, b),
    decreases f1, 1nat,
{
    if f1.len() > 0 {
        assert(same_skeleton(f1[0].shape, f2[0].shape));
        lemma_rename_dec_val(f1[0].shape, f2[0].shape, b);
        if let Ok(v) = dec_val(f1[0].shape, b) {
            assert forall|i: int| 0 <= i < f1.drop_first().len() implies same_skeleton(
                #[trigger] f1.drop_first()[i].shape,
                f2.drop_first()[i].shape,
            ) by {
                assert(f1.drop_first()[i] == f1[i + 1]);
                assert(f2.drop_first()[i] == f2[i + 1]);
                assert(same_skeleton(f1[i + 1].shape, f2[i + 1].shape));
            }
            assert(same_fields(f1.drop_first(), f2.drop_first()));
            lemma_rename_dec_fields(f1.drop_first(), f2.drop_first(), b.skip(enc_val(v).len() as int));
        }
    }
}


} // verus!

