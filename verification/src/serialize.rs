//! Serialization logic for converting Rust types into byte vectors.

use vstd::prelude::*;
use vstd::bytes::*;
use vstd::utf8::*;
use vstd::string::StrSliceExecFns;

verus! {

/// Trait for types that can be serialized into a byte vector.
///
/// The wire format is fixed: little-endian fixed-width scalars, one-byte
/// length-prefixed UTF-8 text, four-byte count-prefixed sequences, and
/// markerless optional values.  [`Serialize::spec_enc`] is the mathematical
/// encoding of a value, stated over its deep view; `serialize` is proved to
/// produce exactly those bytes.  Encoding never fails on well-formed values.
pub trait Serialize: DeepView {
    /// Whether an abstract value lies within the format's limits: text of at
    /// most 255 UTF-8 bytes, and sequences of at most `u32::MAX` elements.
    /// Larger values are a caller contract violation, since the one-byte
    /// length and the four-byte count cannot hold them.
    spec fn spec_wf(v: Self::V) -> bool;

    /// The bytes that the abstract value `v` encodes to.
    spec fn spec_enc(v: Self::V) -> Seq<u8>;

    /// Serializes `self` into a byte vector.
    fn serialize(&self) -> (r: Vec<u8>)
        requires
            Self::spec_wf(self.deep_view()),
        ensures
            r@ == Self::spec_enc(self.deep_view()),
    ;
}

impl Serialize for u8 {
    open spec fn spec_wf(v: u8) -> bool {
        true
    }

    open spec fn spec_enc(v: u8) -> Seq<u8> {
        seq![v]
    }

    fn serialize(&self) -> (r: Vec<u8>) {
        let mut r: Vec<u8> = Vec::new();
        r.push(*self);
        proof {
            assert(r@ =~= seq![*self]);
        }
        r
    }
}

impl Serialize for u16 {
    open spec fn spec_wf(v: u16) -> bool {
        true
    }

    open spec fn spec_enc(v: u16) -> Seq<u8> {
        spec_u16_to_le_bytes(v)
    }

    fn serialize(&self) -> (r: Vec<u8>) {
        u16_to_le_bytes(*self)
    }
}

impl Serialize for u32 {
    open spec fn spec_wf(v: u32) -> bool {
        true
    }

    open spec fn spec_enc(v: u32) -> Seq<u8> {
        spec_u32_to_le_bytes(v)
    }

    fn serialize(&self) -> (r: Vec<u8>) {
        u32_to_le_bytes(*self)
    }
}

impl Serialize for u64 {
    open spec fn spec_wf(v: u64) -> bool {
        true
    }

    open spec fn spec_enc(v: u64) -> Seq<u8> {
        spec_u64_to_le_bytes(v)
    }

    fn serialize(&self) -> (r: Vec<u8>) {
        u64_to_le_bytes(*self)
    }
}

impl Serialize for i8 {
    open spec fn spec_wf(v: i8) -> bool {
        true
    }

    open spec fn spec_enc(v: i8) -> Seq<u8> {
        seq![v as u8]
    }

    fn serialize(&self) -> (r: Vec<u8>) {
        let mut r: Vec<u8> = Vec::new();
        r.push(*self as u8);
        proof {
            assert(r@ =~= Self::spec_enc(*self));
        }
        r
    }
}

impl Serialize for i16 {
    open spec fn spec_wf(v: i16) -> bool {
        true
    }

    open spec fn spec_enc(v: i16) -> Seq<u8> {
        spec_u16_to_le_bytes(v as u16)
    }

    fn serialize(&self) -> (r: Vec<u8>) {
        u16_to_le_bytes(*self as u16)
    }
}

impl Serialize for i32 {
    open spec fn spec_wf(v: i32) -> bool {
        true
    }

    open spec fn spec_enc(v: i32) -> Seq<u8> {
        spec_u32_to_le_bytes(v as u32)
    }

    fn serialize(&self) -> (r: Vec<u8>) {
        u32_to_le_bytes(*self as u32)
    }
}

impl Serialize for i64 {
    open spec fn spec_wf(v: i64) -> bool {
        true
    }

    open spec fn spec_enc(v: i64) -> Seq<u8> {
        spec_u64_to_le_bytes(v as u64)
    }

    fn serialize(&self) -> (r: Vec<u8>) {
        u64_to_le_bytes(*self as u64)
    }
}

impl Serialize for bool {
    open spec fn spec_wf(v: bool) -> bool {
        true
    }

    open spec fn spec_enc(v: bool) -> Seq<u8> {
        seq![if v { 1u8 } else { 0u8 }]
    }

    fn serialize(&self) -> (r: Vec<u8>) {
        let mut r: Vec<u8> = Vec::new();
        r.push(if *self { 1 } else { 0 });
        proof {
            assert(r@ =~= Self::spec_enc(*self));
        }
        r
    }
}

impl Serialize for char {
    open spec fn spec_wf(v: char) -> bool {
        true
    }

    open spec fn spec_enc(v: char) -> Seq<u8> {
        spec_u32_to_le_bytes(v as u32)
    }

    fn serialize(&self) -> (r: Vec<u8>) {
        u32_to_le_bytes(*self as u32)
    }
}

impl Serialize for String {
    open spec fn spec_wf(v: Seq<char>) -> bool {
        encode_utf8(v).len() <= 255
    }

    open spec fn spec_enc(v: Seq<char>) -> Seq<u8> {
        seq![encode_utf8(v).len() as u8] + encode_utf8(v)
    }

    fn serialize(&self) -> (r: Vec<u8>) {
        let mut bytes = self.as_str().as_bytes_vec();
        let mut r: Vec<u8> = Vec::new();
        r.push(bytes.len() as u8);
        r.append(&mut bytes);
        proof {
            assert(r@ =~= Self::spec_enc(self.deep_view()));
        }
        r
    }
}

/// The concatenation of the encodings of the elements of `v`, in order.
pub open spec fn spec_enc_elems<T: Serialize>(v: Seq<T::V>) -> Seq<u8>
    decreases v.len(),
{
    if v.len() == 0 {
        Seq::empty()
    } else {
        spec_enc_elems::<T>(v.drop_last()) + T::spec_enc(v.last())
    }
}

/// Unfolds [`spec_enc_elems`] at the front: the encoding of a non-empty list
/// of elements is the first element's encoding followed by the rest's.
pub proof fn lemma_enc_elems_first<T: Serialize>(v: Seq<T::V>)
    requires
        v.len() > 0,
    ensures
        spec_enc_elems::<T>(v) == T::spec_enc(v[0]) + spec_enc_elems::<T>(v.drop_first()),
    decreases v.len(),
{
    if v.len() == 1 {
        assert(v.drop_last() =~= Seq::<T::V>::empty());
        assert(v.drop_first() =~= Seq::<T::V>::empty());
        assert(spec_enc_elems::<T>(v) =~= T::spec_enc(v[0]) + spec_enc_elems::<T>(v.drop_first()));
    } else {
        lemma_enc_elems_first::<T>(v.drop_last());
        assert(v.drop_last().drop_first() =~= v.drop_first().drop_last());
        assert(v.drop_first().last() == v.last());
        assert(spec_enc_elems::<T>(v) =~= T::spec_enc(v[0]) + spec_enc_elems::<T>(v.drop_first()));
    }
}

impl<T: Serialize> Serialize for Vec<T> {
    open spec fn spec_wf(v: Seq<T::V>) -> bool {
        v.len() <= u32::MAX && forall|i: int| 0 <= i < v.len() ==> T::spec_wf(#[trigger] v[i])
    }

    open spec fn spec_enc(v: Seq<T::V>) -> Seq<u8> {
        spec_u32_to_le_bytes(v.len() as u32) + spec_enc_elems::<T>(v)
    }

    fn serialize(&self) -> (r: Vec<u8>) {
        let ghost dv = self.deep_view();
        let mut r = u32_to_le_bytes(self.len() as u32);
        let mut i: usize = 0;
        while i < self.len()
            invariant
                0 <= i <= self.len(),
                dv == self.deep_view(),
                Self::spec_wf(dv),
                dv.len() == self@.len(),
                r@ == spec_u32_to_le_bytes(dv.len() as u32) + spec_enc_elems::<T>(
                    dv.take(i as int),
                ),
            decreases self.len() - i,
        {
            assert(dv[i as int] == self@[i as int].deep_view());
            let mut item = self[i].serialize();
            r.append(&mut item);
            proof {
                assert(dv.take(i + 1).drop_last() =~= dv.take(i as int));
                assert(dv.take(i + 1).last() == dv[i as int]);
                assert(r@ =~= spec_u32_to_le_bytes(dv.len() as u32) + spec_enc_elems::<T>(
                    dv.take(i + 1),
                ));
            }
            i = i + 1;
        }
        proof {
            assert(dv.take(dv.len() as int) =~= dv);
        }
        r
    }
}

impl<T: Serialize> Serialize for Option<T> {
    open spec fn spec_wf(v: Option<T::V>) -> bool {
        match v {
            None => true,
            Some(x) => T::spec_wf(x),
        }
    }

    open spec fn spec_enc(v: Option<T::V>) -> Seq<u8> {
        match v {
            None => Seq::empty(),
            Some(x) => T::spec_enc(x),
        }
    }

    fn serialize(&self) -> (r: Vec<u8>) {
        match self {
            None => Vec::new(),
            Some(value) => value.serialize(),
        }
    }
}

} // verus!
