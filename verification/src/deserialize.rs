//! Deserialization logic for converting byte slices into Rust types.

use vstd::prelude::*;
use vstd::bytes::*;
use vstd::slice::*;
use vstd::utf8::*;
use crate::error::OrbyteError;
use crate::serialize::Serialize;
use crate::serialize::spec_enc_elems;
use crate::serialize::lemma_enc_elems_first;

verus! {

/// Relies on `char::from_u32`: it returns the character with the given code
/// point, and `None` exactly when the value is not a Unicode scalar value,
/// that is, a surrogate or above the largest character.
#[verifier::external_body]
fn char_from_u32(u: u32) -> (r: Option<char>)
    ensures
        r is Some <==> is_scalar(u),
        r matches Some(c) ==> c as u32 == u,
{
    char::from_u32(u)
}

/// Relies on `String::from_utf8`: it returns the string whose UTF-8 encoding
/// is exactly the given bytes, and fails exactly when no string encodes to
/// them, that is, when the bytes are not valid UTF-8.
#[verifier::external_body]
fn string_from_utf8(v: Vec<u8>) -> (r: Option<String>)
    ensures
        r is Some <==> valid_utf8(v@),
        r matches Some(s) ==> encode_utf8(s@) == v@,
{
    match String::from_utf8(v) {
        Ok(s) => Some(s),
        Err(_) => None,
    }
}

/// Trait for types that can be deserialized from a byte slice.
///
/// [`Deserialize::spec_deser`] is the mathematical decode: the abstract value
/// that the front of a buffer holds, or the first error met.  `deserialize` is
/// proved to agree with it exactly.  Two laws accompany the decode:
///
/// * `lemma_deser_canonical`: every value a buffer decodes to is well formed
///   and re-encodes to exactly the prefix of the buffer it was read from.
///   Composite decoding advances its cursor by the length of the re-encoding
///   of each just-decoded field, and this law is what makes that sound.
/// * `lemma_round_trip`: decoding the encoding of a well-formed value,
///   followed by any trailing bytes that the format can tell apart from it,
///   yields that value back.
pub trait Deserialize: Serialize + Sized {
    /// The abstract value that the front of `b` decodes to, or the error.
    spec fn spec_deser(b: Seq<u8>) -> Result<Self::V, OrbyteError>;

    /// Deserializes a byte slice into an instance of `Self`.
    ///
    /// Returns `Err` exactly when `b` does not start with a valid encoding,
    /// with the error that [`Deserialize::spec_deser`] assigns to `b`.
    fn deserialize(bytes: &[u8]) -> (r: Result<Self, OrbyteError>)
        ensures
            match r {
                Ok(v) => Self::spec_deser(bytes@) == Ok::<Self::V, OrbyteError>(v.deep_view())
                    && Self::spec_wf(v.deep_view()),
                Err(e) => Self::spec_deser(bytes@) == Err::<Self::V, OrbyteError>(e),
            },
    ;

    /// Canonicity: a decoded value is well formed, and its encoding is the
    /// prefix of the buffer that the decode consumed.
    proof fn lemma_deser_canonical(b: Seq<u8>)
        ensures
            Self::spec_deser(b) matches Ok(v) ==> (Self::spec_wf(v) && Self::spec_enc(v).len()
                <= b.len() && Self::spec_enc(v) == b.take(Self::spec_enc(v).len() as int)),
    ;

    /// When decoding the encoding of `v` followed by `rest` is unambiguous.
    ///
    /// The markerless optional encoding makes an absent value
    /// indistinguishable from trailing bytes, so optionals constrain `rest`;
    /// every other kind of value decodes unambiguously under any `rest`.
    spec fn spec_unambiguous(v: Self::V, rest: Seq<u8>) -> bool;

    /// Round trip: the encoding of a well-formed value, followed by trailing
    /// bytes the format can tell apart from it, decodes back to that value.
    proof fn lemma_round_trip(v: Self::V, rest: Seq<u8>)
        requires
            Self::spec_wf(v),
            Self::spec_unambiguous(v, rest),
        ensures
            Self::spec_deser(Self::spec_enc(v) + rest) == Ok::<Self::V, OrbyteError>(v),
    ;
}

/// Plain round trip: decoding the exact encoding of a well-formed value
/// yields that value back, for any codec of this crate, whenever the value
/// is unambiguous before an empty tail.  Only an optional whose wrapped
/// encoding is empty, such as a present absent optional, is excluded: the
/// markerless optional encoding cannot distinguish it from the absent one.
pub proof fn lemma_plain_round_trip<T: Deserialize>(v: T::V)
    requires
        T::spec_wf(v),
        T::spec_unambiguous(v, Seq::empty()),
    ensures
        T::spec_deser(T::spec_enc(v)) == Ok::<T::V, OrbyteError>(v),
{
    T::lemma_round_trip(v, Seq::empty());
    assert(T::spec_enc(v) + Seq::<u8>::empty() =~= T::spec_enc(v));
}

impl Deserialize for u8 {
    open spec fn spec_deser(b: Seq<u8>) -> Result<u8, OrbyteError> {
        if b.len() < 1 {
            Err(OrbyteError::InvalidLength)
        } else {
            Ok(b[0])
        }
    }

    fn deserialize(bytes: &[u8]) -> (r: Result<Self, OrbyteError>) {
        if bytes.len() < 1 {
            Err(OrbyteError::InvalidLength)
        } else {
            Ok(*slice_index_get(bytes, 0))
        }
    }

    proof fn lemma_deser_canonical(b: Seq<u8>) {
        if b.len() >= 1 {
            assert(Self::spec_enc(b[0]) =~= b.take(1));
        }
    }

    open spec fn spec_unambiguous(v: u8, rest: Seq<u8>) -> bool {
        true
    }

    proof fn lemma_round_trip(v: u8, rest: Seq<u8>) {
        let b = Self::spec_enc(v) + rest;
        assert(b[0] == v);
    }
}

impl Deserialize for u16 {
    open spec fn spec_deser(b: Seq<u8>) -> Result<u16, OrbyteError> {
        if b.len() < 2 {
            Err(OrbyteError::InvalidLength)
        } else {
            Ok(spec_u16_from_le_bytes(b.take(2)))
        }
    }

    fn deserialize(bytes: &[u8]) -> (r: Result<Self, OrbyteError>) {
        if bytes.len() < 2 {
            Err(OrbyteError::InvalidLength)
        } else {
            Ok(u16_from_le_bytes(slice_subrange(bytes, 0, 2)))
        }
    }

    proof fn lemma_deser_canonical(b: Seq<u8>) {
        lemma_auto_spec_u16_to_from_le_bytes();
        if b.len() >= 2 {
            assert(b.take(2).len() == 2);
        }
    }

    open spec fn spec_unambiguous(v: u16, rest: Seq<u8>) -> bool {
        true
    }

    proof fn lemma_round_trip(v: u16, rest: Seq<u8>) {
        lemma_auto_spec_u16_to_from_le_bytes();
        assert((spec_u16_to_le_bytes(v) + rest).take(2) =~= spec_u16_to_le_bytes(v));
    }
}

impl Deserialize for u32 {
    open spec fn spec_deser(b: Seq<u8>) -> Result<u32, OrbyteError> {
        if b.len() < 4 {
            Err(OrbyteError::InvalidLength)
        } else {
            Ok(spec_u32_from_le_bytes(b.take(4)))
        }
    }

    fn deserialize(bytes: &[u8]) -> (r: Result<Self, OrbyteError>) {
        if bytes.len() < 4 {
            Err(OrbyteError::InvalidLength)
        } else {
            Ok(u32_from_le_bytes(slice_subrange(bytes, 0, 4)))
        }
    }

    proof fn lemma_deser_canonical(b: Seq<u8>) {
        lemma_auto_spec_u32_to_from_le_bytes();
        if b.len() >= 4 {
            assert(b.take(4).len() == 4);
        }
    }

    open spec fn spec_unambiguous(v: u32, rest: Seq<u8>) -> bool {
        true
    }

    proof fn lemma_round_trip(v: u32, rest: Seq<u8>) {
        lemma_auto_spec_u32_to_from_le_bytes();
        assert((spec_u32_to_le_bytes(v) + rest).take(4) =~= spec_u32_to_le_bytes(v));
    }
}

impl Deserialize for u64 {
    open spec fn spec_deser(b: Seq<u8>) -> Result<u64, OrbyteError> {
        if b.len() < 8 {
            Err(OrbyteError::InvalidLength)
        } else {
            Ok(spec_u64_from_le_bytes(b.take(8)))
        }
    }

    fn deserialize(bytes: &[u8]) -> (r: Result<Self, OrbyteError>) {
        if bytes.len() < 8 {
            Err(OrbyteError::InvalidLength)
        } else {
            Ok(u64_from_le_bytes(slice_subrange(bytes, 0, 8)))
        }
    }

    proof fn lemma_deser_canonical(b: Seq<u8>) {
        lemma_auto_spec_u64_to_from_le_bytes();
        if b.len() >= 8 {
            assert(b.take(8).len() == 8);
        }
    }

    open spec fn spec_unambiguous(v: u64, rest: Seq<u8>) -> bool {
        true
    }

    proof fn lemma_round_trip(v: u64, rest: Seq<u8>) {
        lemma_auto_spec_u64_to_from_le_bytes();
        assert((spec_u64_to_le_bytes(v) + rest).take(8) =~= spec_u64_to_le_bytes(v));
    }
}

impl Deserialize for i8 {
    open spec fn spec_deser(b: Seq<u8>) -> Result<i8, OrbyteError> {
        if b.len() < 1 {
            Err(OrbyteError::InvalidLength)
        } else {
            Ok(b[0] as i8)
        }
    }

    fn deserialize(bytes: &[u8]) -> (r: Result<Self, OrbyteError>) {
        if bytes.len() < 1 {
            Err(OrbyteError::InvalidLength)
        } else {
            Ok(*slice_index_get(bytes, 0) as i8)
        }
    }

    proof fn lemma_deser_canonical(b: Seq<u8>) {
        if b.len() >= 1 {
            let x = b[0];
            assert((x as i8) as u8 == x) by (bit_vector);
            assert(Self::spec_enc(b[0] as i8) =~= b.take(1));
        }
    }

    open spec fn spec_unambiguous(v: i8, rest: Seq<u8>) -> bool {
        true
    }

    proof fn lemma_round_trip(v: i8, rest: Seq<u8>) {
        let b = Self::spec_enc(v) + rest;
        assert(b[0] == v as u8);
        assert((v as u8) as i8 == v) by (bit_vector);
    }
}

impl Deserialize for i16 {
    open spec fn spec_deser(b: Seq<u8>) -> Result<i16, OrbyteError> {
        if b.len() < 2 {
            Err(OrbyteError::InvalidLength)
        } else {
            Ok(spec_u16_from_le_bytes(b.take(2)) as i16)
        }
    }

    fn deserialize(bytes: &[u8]) -> (r: Result<Self, OrbyteError>) {
        if bytes.len() < 2 {
            Err(OrbyteError::InvalidLength)
        } else {
            Ok(u16_from_le_bytes(slice_subrange(bytes, 0, 2)) as i16)
        }
    }

    proof fn lemma_deser_canonical(b: Seq<u8>) {
        lemma_auto_spec_u16_to_from_le_bytes();
        if b.len() >= 2 {
            let u = spec_u16_from_le_bytes(b.take(2));
            assert((u as i16) as u16 == u) by (bit_vector);
        }
    }

    open spec fn spec_unambiguous(v: i16, rest: Seq<u8>) -> bool {
        true
    }

    proof fn lemma_round_trip(v: i16, rest: Seq<u8>) {
        lemma_auto_spec_u16_to_from_le_bytes();
        assert((spec_u16_to_le_bytes(v as u16) + rest).take(2) =~= spec_u16_to_le_bytes(v as u16));
        assert((v as u16) as i16 == v) by (bit_vector);
    }
}

impl Deserialize for i32 {
    open spec fn spec_deser(b: Seq<u8>) -> Result<i32, OrbyteError> {
        if b.len() < 4 {
            Err(OrbyteError::InvalidLength)
        } else {
            Ok(spec_u32_from_le_bytes(b.take(4)) as i32)
        }
    }

    fn deserialize(bytes: &[u8]) -> (r: Result<Self, OrbyteError>) {
        if bytes.len() < 4 {
            Err(OrbyteError::InvalidLength)
        } else {
            Ok(u32_from_le_bytes(slice_subrange(bytes, 0, 4)) as i32)
        }
    }

    proof fn lemma_deser_canonical(b: Seq<u8>) {
        lemma_auto_spec_u32_to_from_le_bytes();
        if b.len() >= 4 {
            let u = spec_u32_from_le_bytes(b.take(4));
            assert((u as i32) as u32 == u) by (bit_vector);
        }
    }

    open spec fn spec_unambiguous(v: i32, rest: Seq<u8>) -> bool {
        true
    }

    proof fn lemma_round_trip(v: i32, rest: Seq<u8>) {
        lemma_auto_spec_u32_to_from_le_bytes();
        assert((spec_u32_to_le_bytes(v as u32) + rest).take(4) =~= spec_u32_to_le_bytes(v as u32));
        assert((v as u32) as i32 == v) by (bit_vector);
    }
}

impl Deserialize for i64 {
    open spec fn spec_deser(b: Seq<u8>) -> Result<i64, OrbyteError> {
        if b.len() < 8 {
            Err(OrbyteError::InvalidLength)
        } else {
            Ok(spec_u64_from_le_bytes(b.take(8)) as i64)
        }
    }

    fn deserialize(bytes: &[u8]) -> (r: Result<Self, OrbyteError>) {
        if bytes.len() < 8 {
            Err(OrbyteError::InvalidLength)
        } else {
            Ok(u64_from_le_bytes(slice_subrange(bytes, 0, 8)) as i64)
        }
    }

    proof fn lemma_deser_canonical(b: Seq<u8>) {
        lemma_auto_spec_u64_to_from_le_bytes();
        if b.len() >= 8 {
            let u = spec_u64_from_le_bytes(b.take(8));
            assert((u as i64) as u64 == u) by (bit_vector);
        }
    }

    open spec fn spec_unambiguous(v: i64, rest: Seq<u8>) -> bool {
        true
    }

    proof fn lemma_round_trip(v: i64, rest: Seq<u8>) {
        lemma_auto_spec_u64_to_from_le_bytes();
        assert((spec_u64_to_le_bytes(v as u64) + rest).take(8) =~= spec_u64_to_le_bytes(v as u64));
        assert((v as u64) as i64 == v) by (bit_vector);
    }
}

impl Deserialize for bool {
    open spec fn spec_deser(b: Seq<u8>) -> Result<bool, OrbyteError> {
        if b.len() < 1 {
            Err(OrbyteError::InvalidLength)
        } else if b[0] == 0 {
            Ok(false)
        } else if b[0] == 1 {
            Ok(true)
        } else {
            Err(OrbyteError::InvalidBool)
        }
    }

    fn deserialize(bytes: &[u8]) -> (r: Result<Self, OrbyteError>) {
        if bytes.len() < 1 {
            Err(OrbyteError::InvalidLength)
        } else {
            let byte = *slice_index_get(bytes, 0);
            if byte == 0 {
                Ok(false)
            } else if byte == 1 {
                Ok(true)
            } else {
                Err(OrbyteError::InvalidBool)
            }
        }
    }

    proof fn lemma_deser_canonical(b: Seq<u8>) {
        if b.len() >= 1 && (b[0] == 0 || b[0] == 1) {
            assert(Self::spec_enc(b[0] == 1) =~= b.take(1));
        }
    }

    open spec fn spec_unambiguous(v: bool, rest: Seq<u8>) -> bool {
        true
    }

    proof fn lemma_round_trip(v: bool, rest: Seq<u8>) {
        let b = Self::spec_enc(v) + rest;
        assert(b[0] == if v { 1u8 } else { 0u8 });
    }
}

impl Deserialize for char {
    open spec fn spec_deser(b: Seq<u8>) -> Result<char, OrbyteError> {
        if b.len() < 4 {
            Err(OrbyteError::InvalidLength)
        } else if is_scalar(spec_u32_from_le_bytes(b.take(4))) {
            Ok(spec_u32_from_le_bytes(b.take(4)) as char)
        } else {
            Err(OrbyteError::InvalidChar)
        }
    }

    fn deserialize(bytes: &[u8]) -> (r: Result<Self, OrbyteError>) {
        if bytes.len() < 4 {
            return Err(OrbyteError::InvalidLength);
        }
        let u = u32_from_le_bytes(slice_subrange(bytes, 0, 4));
        match char_from_u32(u) {
            Some(c) => {
                proof {
                    char_u32_cast(c, u);
                }
                Ok(c)
            },
            None => Err(OrbyteError::InvalidChar),
        }
    }

    proof fn lemma_deser_canonical(b: Seq<u8>) {
        lemma_auto_spec_u32_to_from_le_bytes();
        if b.len() >= 4 {
            let u = spec_u32_from_le_bytes(b.take(4));
            if is_scalar(u) {
                assert((u as char) as u32 == u);
            }
        }
    }

    open spec fn spec_unambiguous(v: char, rest: Seq<u8>) -> bool {
        true
    }

    proof fn lemma_round_trip(v: char, rest: Seq<u8>) {
        lemma_auto_spec_u32_to_from_le_bytes();
        char_is_scalar(v);
        assert((spec_u32_to_le_bytes(v as u32) + rest).take(4) =~= spec_u32_to_le_bytes(v as u32));
        char_u32_cast(v, v as u32);
    }
}

impl Deserialize for String {
    open spec fn spec_deser(b: Seq<u8>) -> Result<Seq<char>, OrbyteError> {
        if b.len() < 1 {
            Err(OrbyteError::InvalidLength)
        } else if b.len() < 1 + (b[0] as int) {
            Err(OrbyteError::InvalidLength)
        } else if valid_utf8(b.subrange(1, 1 + (b[0] as int))) {
            Ok(decode_utf8(b.subrange(1, 1 + (b[0] as int))))
        } else {
            Err(OrbyteError::InvalidUtf8)
        }
    }

    fn deserialize(bytes: &[u8]) -> (r: Result<Self, OrbyteError>) {
        if bytes.len() < 1 {
            return Err(OrbyteError::InvalidLength);
        }
        let n = (*slice_index_get(bytes, 0)) as usize;
        if bytes.len() < 1 + n {
            return Err(OrbyteError::InvalidLength);
        }
        let body = slice_to_vec(slice_subrange(bytes, 1, 1 + n));
        match string_from_utf8(body) {
            Some(s) => {
                proof {
                    encode_utf8_decode_utf8(s@);
                }
                Ok(s)
            },
            None => Err(OrbyteError::InvalidUtf8),
        }
    }

    proof fn lemma_deser_canonical(b: Seq<u8>) {
        if b.len() >= 1 && b.len() >= 1 + (b[0] as int) {
            let body = b.subrange(1, 1 + (b[0] as int));
            if valid_utf8(body) {
                let v = decode_utf8(body);
                decode_utf8_encode_utf8(body);
                assert(Self::spec_enc(v) =~= b.take(1 + (b[0] as int)));
            }
        }
    }

    open spec fn spec_unambiguous(v: Seq<char>, rest: Seq<u8>) -> bool {
        true
    }

    proof fn lemma_round_trip(v: Seq<char>, rest: Seq<u8>) {
        let e = encode_utf8(v);
        let b = Self::spec_enc(v) + rest;
        assert(b[0] == e.len() as u8);
        assert(b.subrange(1, 1 + (b[0] as int)) =~= e);
        encode_utf8_valid_utf8(v);
        encode_utf8_decode_utf8(v);
    }
}

/// The mathematical decode of `n` consecutive elements from the front of `b`.
/// The cursor advances past each element by the length of its re-encoding,
/// mirroring the executable rule.
pub open spec fn spec_deser_elems<T: Deserialize>(b: Seq<u8>, n: nat) -> Result<
    Seq<T::V>,
    OrbyteError,
>
    decreases n,
{
    if n == 0 {
        Ok(Seq::empty())
    } else {
        match T::spec_deser(b) {
            Err(e) => Err(e),
            Ok(v) => match spec_deser_elems::<T>(
                b.skip(T::spec_enc(v).len() as int),
                (n - 1) as nat,
            ) {
                Err(e) => Err(e),
                Ok(tail) => Ok(seq![v] + tail),
            },
        }
    }
}

/// Canonicity of element-list decoding: `n` decoded elements are all well
/// formed and their concatenated encodings are exactly the consumed prefix.
pub proof fn lemma_deser_elems_canonical<T: Deserialize>(b: Seq<u8>, n: nat)
    ensures
        spec_deser_elems::<T>(b, n) matches Ok(vs) ==> (vs.len() == n && (forall|i: int|
            0 <= i < vs.len() ==> T::spec_wf(#[trigger] vs[i])) && spec_enc_elems::<T>(vs).len()
            <= b.len() && spec_enc_elems::<T>(vs) == b.take(spec_enc_elems::<T>(vs).len() as int)),
    decreases n,
{
    if n > 0 {
        T::lemma_deser_canonical(b);
        if let Ok(v) = T::spec_deser(b) {
            let l0 = T::spec_enc(v).len() as int;
            let b1 = b.skip(l0);
            lemma_deser_elems_canonical::<T>(b1, (n - 1) as nat);
            if let Ok(tail) = spec_deser_elems::<T>(b1, (n - 1) as nat) {
                let vs = seq![v] + tail;
                assert(vs.drop_first() =~= tail);
                lemma_enc_elems_first::<T>(vs);
                let l1 = spec_enc_elems::<T>(tail).len() as int;
                assert(spec_enc_elems::<T>(vs) =~= b.take(l0 + l1));
                assert(forall|i: int| 0 <= i < vs.len() ==> T::spec_wf(#[trigger] vs[i])) by {
                    assert(forall|i: int| 1 <= i < vs.len() ==> vs[i] == tail[i - 1]);
                }
            }
        }
    }
}

/// Round trip for element lists: the concatenated encodings of well-formed
/// elements, followed by `rest`, decode back to those elements whenever each
/// element is unambiguous before what follows it.
pub proof fn lemma_deser_elems_round_trip<T: Deserialize>(vs: Seq<T::V>, rest: Seq<u8>)
    requires
        forall|i: int| 0 <= i < vs.len() ==> T::spec_wf(#[trigger] vs[i]),
        forall|i: int|
            0 <= i < vs.len() ==> T::spec_unambiguous(
                #[trigger] vs[i],
                spec_enc_elems::<T>(vs.skip(i + 1)) + rest,
            ),
    ensures
        spec_deser_elems::<T>(spec_enc_elems::<T>(vs) + rest, vs.len()) == Ok::<
            Seq<T::V>,
            OrbyteError,
        >(vs),
    decreases vs.len(),
{
    if vs.len() > 0 {
        let tail = vs.drop_first();
        let b = spec_enc_elems::<T>(vs) + rest;
        lemma_enc_elems_first::<T>(vs);
        assert(vs.skip(1) =~= tail);
        assert(b =~= T::spec_enc(vs[0]) + (spec_enc_elems::<T>(tail) + rest));
        T::lemma_round_trip(vs[0], spec_enc_elems::<T>(tail) + rest);
        assert(b.skip(T::spec_enc(vs[0]).len() as int) =~= spec_enc_elems::<T>(tail) + rest);
        assert(forall|i: int| 0 <= i < tail.len() ==> tail[i] == vs[i + 1]);
        assert(forall|i: int|
            0 <= i < tail.len() ==> T::spec_unambiguous(
                #[trigger] tail[i],
                spec_enc_elems::<T>(tail.skip(i + 1)) + rest,
            )) by {
            assert forall|i: int| 0 <= i < tail.len() implies T::spec_unambiguous(
                #[trigger] tail[i],
                spec_enc_elems::<T>(tail.skip(i + 1)) + rest,
            ) by {
                assert(tail.skip(i + 1) =~= vs.skip(i + 2));
                assert(T::spec_unambiguous(vs[i + 1], spec_enc_elems::<T>(vs.skip(i + 2)) + rest));
            }
        }
        lemma_deser_elems_round_trip::<T>(tail, rest);
        assert(seq![vs[0]] + tail =~= vs);
    } else {
        assert(vs =~= Seq::<T::V>::empty());
    }
}

impl<T: Deserialize> Deserialize for Vec<T> {
    open spec fn spec_deser(b: Seq<u8>) -> Result<Seq<T::V>, OrbyteError> {
        if b.len() < 4 {
            Err(OrbyteError::InvalidLength)
        } else {
            spec_deser_elems::<T>(b.skip(4), spec_u32_from_le_bytes(b.take(4)) as nat)
        }
    }

    fn deserialize(bytes: &[u8]) -> (r: Result<Self, OrbyteError>) {
        if bytes.len() < 4 {
            return Err(OrbyteError::InvalidLength);
        }
        let n32 = u32_from_le_bytes(slice_subrange(bytes, 0, 4));
        let n = n32 as usize;
        let mut result: Vec<T> = Vec::new();
        let mut offset: usize = 4;
        let mut i: usize = 0;
        proof {
            assert(bytes@.skip(4) =~= bytes@.skip(4));
        }
        while i < n
            invariant
                4 <= offset <= bytes@.len(),
                0 <= i <= n,
                n == spec_u32_from_le_bytes(bytes@.take(4)) as nat,
                result.deep_view().len() == i,
                forall|j: int| 0 <= j < i ==> T::spec_wf(#[trigger] result.deep_view()[j]),
                spec_deser_elems::<T>(bytes@.skip(4), n as nat) == (match spec_deser_elems::<T>(
                    bytes@.skip(offset as int),
                    (n - i) as nat,
                ) {
                    Ok(tail) => Ok::<Seq<T::V>, OrbyteError>(result.deep_view() + tail),
                    Err(e) => Err::<Seq<T::V>, OrbyteError>(e),
                }),
            decreases n - i,
        {
            let ghost pre = result.deep_view();
            let ghost remaining = bytes@.skip(offset as int);
            match T::deserialize(slice_subrange(bytes, offset, bytes.len())) {
                Err(e) => {
                    return Err(e);
                },
                Ok(item) => {
                    proof {
                        T::lemma_deser_canonical(remaining);
                    }
                    let enc = item.serialize();
                    let l = enc.len();
                    result.push(item);
                    proof {
                        assert(remaining.skip(l as int) =~= bytes@.skip(offset + l));
                        assert(result.deep_view() =~= pre + seq![item.deep_view()]);
                        if let Ok(tail) = spec_deser_elems::<T>(
                            bytes@.skip(offset + l),
                            (n - i - 1) as nat,
                        ) {
                            assert(pre + (seq![item.deep_view()] + tail) =~= (pre + seq![
                                item.deep_view(),
                            ]) + tail);
                        }
                    }
                    offset = offset + l;
                    i = i + 1;
                },
            }
        }
        proof {
            assert(result.deep_view() + Seq::<T::V>::empty() =~= result.deep_view());
        }
        Ok(result)
    }

    proof fn lemma_deser_canonical(b: Seq<u8>) {
        lemma_auto_spec_u32_to_from_le_bytes();
        if b.len() >= 4 {
            let n = spec_u32_from_le_bytes(b.take(4)) as nat;
            lemma_deser_elems_canonical::<T>(b.skip(4), n);
            if let Ok(vs) = spec_deser_elems::<T>(b.skip(4), n) {
                let l = spec_enc_elems::<T>(vs).len() as int;
                assert(b.take(4).len() == 4);
                assert((vs.len() as u32) == spec_u32_from_le_bytes(b.take(4)));
                assert(Self::spec_enc(vs) =~= b.take(4 + l));
            }
        }
    }

    open spec fn spec_unambiguous(v: Seq<T::V>, rest: Seq<u8>) -> bool {
        forall|i: int|
            0 <= i < v.len() ==> T::spec_unambiguous(
                #[trigger] v[i],
                spec_enc_elems::<T>(v.skip(i + 1)) + rest,
            )
    }

    proof fn lemma_round_trip(v: Seq<T::V>, rest: Seq<u8>) {
        lemma_auto_spec_u32_to_from_le_bytes();
        let b = Self::spec_enc(v) + rest;
        assert(b.take(4) =~= spec_u32_to_le_bytes(v.len() as u32));
        assert(b.skip(4) =~= spec_enc_elems::<T>(v) + rest);
        lemma_deser_elems_round_trip::<T>(v, rest);
        assert(spec_u32_from_le_bytes(b.take(4)) as nat == v.len());
    }
}

impl<T: Deserialize> Deserialize for Option<T> {
    open spec fn spec_deser(b: Seq<u8>) -> Result<Option<T::V>, OrbyteError> {
        if b.len() == 0 {
            Ok(None)
        } else {
            match T::spec_deser(b) {
                Ok(x) => Ok(Some(x)),
                Err(e) => Err(e),
            }
        }
    }

    fn deserialize(bytes: &[u8]) -> (r: Result<Self, OrbyteError>) {
        if bytes.len() == 0 {
            Ok(None)
        } else {
            match T::deserialize(bytes) {
                Ok(x) => Ok(Some(x)),
                Err(e) => Err(e),
            }
        }
    }

    proof fn lemma_deser_canonical(b: Seq<u8>) {
        if b.len() == 0 {
            assert(Seq::<u8>::empty() =~= b.take(0));
        } else {
            T::lemma_deser_canonical(b);
        }
    }

    open spec fn spec_unambiguous(v: Option<T::V>, rest: Seq<u8>) -> bool {
        match v {
            None => rest.len() == 0,
            Some(x) => T::spec_enc(x).len() + rest.len() > 0 && T::spec_unambiguous(x, rest),
        }
    }

    proof fn lemma_round_trip(v: Option<T::V>, rest: Seq<u8>) {
        match v {
            None => {
                assert(Self::spec_enc(v) + rest =~= Seq::<u8>::empty());
            },
            Some(x) => {
                T::lemma_round_trip(x, rest);
            },
        }
    }
}

} // verus!
