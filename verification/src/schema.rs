//! The shape descriptor: the declarative description of a composite type.
//!
//! A shape is either a leaf, a sequence or optional wrapper, a product of
//! fields, or a sum of named alternatives.  Shapes are immutable; encoding
//! and decoding only read them.  Field and alternative order is fixed when
//! the shape is written down and defines the wire format; names are
//! reconstruction metadata and are never transmitted.

use vstd::prelude::*;

verus! {

/// How a product field is identified: by a name carried for reconstruction
/// only, or purely by its position.  Either way the wire format is the same.
pub enum FieldName {
    Named(String),
    Positional,
}

/// A field of a product: its identification and the shape of its value.
pub struct Field {
    pub name: FieldName,
    pub shape: Shape,
}

/// One alternative of a sum: a name and the fields of its product, possibly
/// empty.  Its discriminant is its zero-based declaration position in the
/// enclosing sum; it is not stored here.
pub struct Alternative {
    pub name: String,
    pub fields: Vec<Field>,
}

/// The abstract, declarative description of a type's wire format.
///
/// The 32-bit and 64-bit floating point leaves carry their IEEE754 bit
/// patterns as plain integers at this level; the wire format is the same
/// little-endian four or eight bytes either way.
pub enum Shape {
    U8,
    U16,
    U32,
    U64,
    I8,
    I16,
    I32,
    I64,
    F32,
    F64,
    Bool,
    Char,
    Text,
    Sequence(Box<Shape>),
    Optional(Box<Shape>),
    Product(Vec<Field>),
    Sum(Vec<Alternative>),
}

/// Well-formedness of a shape: every sum declares at most 256 alternatives,
/// so that each alternative's discriminant, its declaration index, fits the
/// one tag byte.  A 257th alternative is unrepresentable by construction.
pub open spec fn shape_wf(s: Shape) -> bool
    decreases s,
{
    match s {
        Shape::Sequence(inner) => shape_wf(*inner),
        Shape::Optional(inner) => shape_wf(*inner),
        Shape::Product(fields) => forall|i: int|
            0 <= i < fields@.len() ==> shape_wf(#[trigger] fields@[i].shape),
        Shape::Sum(alts) => alts@.len() <= 256 && forall|i: int, j: int|
            0 <= i < alts@.len() && 0 <= j < alts@[i].fields@.len() ==> shape_wf(
                #[trigger] alts@[i].fields@[j].shape,
            ),
        _ => true,
    }
}

} // verus!
