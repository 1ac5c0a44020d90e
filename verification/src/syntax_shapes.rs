use vstd::prelude::*;

use crate::record_reflection_shapes::{plain_record, string_model, string_shape};
use crate::record_shapes::{opt_shape_model, pairs_model, RecordShape, ShapeModel, ValueShape};
use crate::value_types::{PrimitiveTag, RuntimeTypeFact, TypeModel};

verus! {

/// The kind of a numeric literal operand.
#[derive(Clone, Copy, Debug, PartialEq, Eq, Structural)]
pub enum NumericLiteralKind {
    Integer,
    Float,
}

/// The suffix written on an integer literal.
#[derive(Clone, Copy, Debug, PartialEq, Eq, Structural)]
pub enum IntegerSuffix {
    I8,
    I16,
    I32,
    I64,
    U8,
    U16,
    U32,
    U64,
}

/// The suffix written on a float literal.
#[derive(Clone, Copy, Debug, PartialEq, Eq, Structural)]
pub enum FloatSuffix {
    F32,
    F64,
}

/// A literal, as far as its type is concerned.
#[derive(Clone, Copy, Debug, PartialEq, Eq, Structural)]
pub enum LiteralKind {
    Bool,
    Char,
    Integer(Option<IntegerSuffix>),
    Float(Option<FloatSuffix>),
    String,
    Bytes,
}

pub open spec fn io_error_pairs() -> Seq<(Seq<char>, ShapeModel)> {
    seq![("kind"@, string_model()), ("message"@, string_model()), ("path"@, string_model())]
}

/// The record an I/O error carries: `kind`, `message` and `path`, all strings.
pub fn io_error_shape() -> (r: ValueShape)
    ensures
        r@ == plain_record(io_error_pairs()),
{
    let fields = vec![
        (String::from_str("kind"), string_shape()),
        (String::from_str("message"), string_shape()),
        (String::from_str("path"), string_shape()),
    ];
    assert(pairs_model(fields@) =~= io_error_pairs());
    ValueShape::Record(RecordShape::from_field_shapes(fields))
}

/// Whether either operand of a numeric binary expression is a float literal.
pub fn left_float_or_right_float(left: NumericLiteralKind, right: NumericLiteralKind) -> (r: bool)
    ensures
        r == (left == NumericLiteralKind::Float || right == NumericLiteralKind::Float),
{
    match (left, right) {
        (NumericLiteralKind::Float, _) => true,
        (_, NumericLiteralKind::Float) => true,
        _ => false,
    }
}

/// The scalar type of an arithmetic expression between two numeric literals:
/// `f64` when either is a float, `i64` otherwise; none when an operand is not
/// a numeric literal.
pub fn arithmetic_shape(left: Option<NumericLiteralKind>, right: Option<NumericLiteralKind>) -> (r:
    Option<String>)
    ensures
        match (left, right) {
            (Some(l), Some(rt)) => r matches Some(name) && name@ == (if l == NumericLiteralKind::Float
                || rt == NumericLiteralKind::Float {
                "f64"@
            } else {
                "i64"@
            }),
            _ => r is None,
        },
{
    match (left, right) {
        (Some(l), Some(rt)) => Some(
            if left_float_or_right_float(l, rt) {
                String::from_str("f64")
            } else {
                String::from_str("i64")
            },
        ),
        _ => None,
    }
}

pub open spec fn integer_suffix_tag_spec(suffix: Option<IntegerSuffix>) -> PrimitiveTag {
    match suffix {
        Some(IntegerSuffix::I8) => PrimitiveTag::I8,
        Some(IntegerSuffix::I16) => PrimitiveTag::I16,
        Some(IntegerSuffix::I32) => PrimitiveTag::I32,
        Some(IntegerSuffix::I64) => PrimitiveTag::I64,
        None => PrimitiveTag::I64,
        Some(IntegerSuffix::U8) => PrimitiveTag::U8,
        Some(IntegerSuffix::U16) => PrimitiveTag::U16,
        Some(IntegerSuffix::U32) => PrimitiveTag::U32,
        Some(IntegerSuffix::U64) => PrimitiveTag::U64,
    }
}

pub open spec fn float_suffix_tag_spec(suffix: Option<FloatSuffix>) -> PrimitiveTag {
    match suffix {
        Some(FloatSuffix::F32) => PrimitiveTag::F32,
        _ => PrimitiveTag::F64,
    }
}

/// The primitive type of a literal: an unsuffixed integer is `i64`, an
/// unsuffixed float `f64`.
pub open spec fn literal_tag(literal: LiteralKind) -> PrimitiveTag {
    match literal {
        LiteralKind::Bool => PrimitiveTag::Bool,
        LiteralKind::Char => PrimitiveTag::Char,
        LiteralKind::Integer(suffix) => integer_suffix_tag_spec(suffix),
        LiteralKind::Float(suffix) => float_suffix_tag_spec(suffix),
        LiteralKind::String => PrimitiveTag::String,
        LiteralKind::Bytes => PrimitiveTag::Bytes,
    }
}

/// The primitive type an integer literal with the given suffix has.
pub fn integer_suffix_tag(suffix: Option<IntegerSuffix>) -> (r: PrimitiveTag)
    ensures
        r == integer_suffix_tag_spec(suffix),
{
    match suffix {
        Some(IntegerSuffix::I8) => PrimitiveTag::I8,
        Some(IntegerSuffix::I16) => PrimitiveTag::I16,
        Some(IntegerSuffix::I32) => PrimitiveTag::I32,
        None | Some(IntegerSuffix::I64) => PrimitiveTag::I64,
        Some(IntegerSuffix::U8) => PrimitiveTag::U8,
        Some(IntegerSuffix::U16) => PrimitiveTag::U16,
        Some(IntegerSuffix::U32) => PrimitiveTag::U32,
        Some(IntegerSuffix::U64) => PrimitiveTag::U64,
    }
}

/// The primitive type a float literal with the given suffix has.
pub fn float_suffix_tag(suffix: Option<FloatSuffix>) -> (r: PrimitiveTag)
    ensures
        r == float_suffix_tag_spec(suffix),
{
    match suffix {
        Some(FloatSuffix::F32) => PrimitiveTag::F32,
        None | Some(FloatSuffix::F64) => PrimitiveTag::F64,
    }
}

/// The runtime type of a literal.
pub fn literal_type(literal: LiteralKind) -> (r: RuntimeTypeFact)
    ensures
        r@ == TypeModel::Primitive(literal_tag(literal)),
{
    let tag = match literal {
        LiteralKind::Bool => PrimitiveTag::Bool,
        LiteralKind::Char => PrimitiveTag::Char,
        LiteralKind::Integer(suffix) => integer_suffix_tag(suffix),
        LiteralKind::Float(suffix) => float_suffix_tag(suffix),
        LiteralKind::String => PrimitiveTag::String,
        LiteralKind::Bytes => PrimitiveTag::Bytes,
    };
    RuntimeTypeFact::primitive(tag)
}

/// The value a `?` expression yields from an operand of the given shape.
pub open spec fn unwrap_try_model(shape: ShapeModel) -> Option<ShapeModel> {
    match shape {
        ShapeModel::Option(v) => Some(*v),
        ShapeModel::Result(Some(ok), _) => Some(*ok),
        ShapeModel::Result(None, _) => Some(ShapeModel::Unknown),
        _ => None,
    }
}

/// The shape of what `?` yields from an optional or fallible value.
pub fn unwrap_try_shape(shape: ValueShape) -> (r: Option<ValueShape>)
    ensures
        opt_shape_model(r) == unwrap_try_model(shape@),
{
    let ghost m = shape@;
    match shape {
        ValueShape::Option(value) => Some(*value),
        ValueShape::Result { ok: Some(ok), .. } => Some(*ok),
        ValueShape::Result { .. } => {
            let u = ValueShape::Unknown;
            assert(u@ == ShapeModel::Unknown);
            Some(u)
        },
        _ => {
            assert(unwrap_try_model(m) is None);
            None
        },
    }
}

} // verus!
