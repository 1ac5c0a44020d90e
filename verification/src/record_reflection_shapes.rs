use vstd::prelude::*;

use crate::record_shapes::{
    built_record, field_value_model, has_field, pairs_model, RecordShape, ShapeModel, ValueShape,
};
use crate::text::str_eq;

verus! {

pub open spec fn bool_model() -> ShapeModel {
    ShapeModel::Scalar("bool"@)
}

pub open spec fn i64_model() -> ShapeModel {
    ShapeModel::Scalar("i64"@)
}

pub open spec fn string_model() -> ShapeModel {
    ShapeModel::Scalar("String"@)
}

pub open spec fn array_of(element: ShapeModel) -> ShapeModel {
    ShapeModel::Array(Box::new(element))
}

/// A map from strings to values of unknown shape.
pub open spec fn attrs_model() -> ShapeModel {
    ShapeModel::MapType(Box::new(string_model()), Box::new(ShapeModel::Unknown))
}

/// The untyped record built from `(name, shape)` pairs.
pub open spec fn plain_record(pairs: Seq<(Seq<char>, ShapeModel)>) -> ShapeModel {
    ShapeModel::Record(built_record(None, pairs))
}

pub open spec fn effects_pairs() -> Seq<(Seq<char>, ShapeModel)> {
    seq![
        ("calls_reflection"@, bool_model()),
        ("emits_events"@, bool_model()),
        ("reads_host"@, bool_model()),
        ("reads_reflection"@, bool_model()),
        ("reads_time"@, bool_model()),
        ("reads_io"@, bool_model()),
        ("uses_random"@, bool_model()),
        ("writes_host"@, bool_model()),
        ("writes_reflection"@, bool_model()),
        ("writes_io"@, bool_model()),
    ]
}

pub open spec fn source_span_pairs() -> Seq<(Seq<char>, ShapeModel)> {
    seq![("end"@, i64_model()), ("source"@, i64_model()), ("start"@, i64_model())]
}

pub open spec fn module_pairs() -> Seq<(Seq<char>, ShapeModel)> {
    seq![
        ("attrs"@, attrs_model()),
        ("docs"@, ShapeModel::Unknown),
        ("exports"@, array_of(string_model())),
        ("name"@, string_model()),
        ("origin"@, string_model()),
        ("source_span"@, plain_record(source_span_pairs())),
    ]
}

pub open spec fn field_access_pairs() -> Seq<(Seq<char>, ShapeModel)> {
    seq![
        ("readable"@, bool_model()),
        ("reflect_readable"@, bool_model()),
        ("reflect_writable"@, bool_model()),
        ("required_permissions"@, array_of(string_model())),
        ("writable"@, bool_model()),
    ]
}

pub open spec fn field_pairs() -> Seq<(Seq<char>, ShapeModel)> {
    seq![
        ("access"@, plain_record(field_access_pairs())),
        ("attrs"@, attrs_model()),
        ("defaulted"@, bool_model()),
        ("docs"@, ShapeModel::Unknown),
        ("id"@, i64_model()),
        ("name"@, string_model()),
        ("origin"@, string_model()),
        ("owner"@, string_model()),
        ("source_span"@, ShapeModel::Unknown),
        ("type"@, ShapeModel::Unknown),
        ("writable"@, bool_model()),
    ]
}

pub open spec fn param_pairs() -> Seq<(Seq<char>, ShapeModel)> {
    seq![("defaulted"@, bool_model()), ("name"@, string_model()), ("type"@, ShapeModel::Unknown)]
}

pub open spec fn function_access_pairs() -> Seq<(Seq<char>, ShapeModel)> {
    seq![
        ("public"@, bool_model()),
        ("reflect_callable"@, bool_model()),
        ("reflect_visible"@, bool_model()),
        ("required_permissions"@, array_of(string_model())),
    ]
}

pub open spec fn function_pairs() -> Seq<(Seq<char>, ShapeModel)> {
    seq![
        ("access"@, plain_record(function_access_pairs())),
        ("attrs"@, attrs_model()),
        ("docs"@, ShapeModel::Unknown),
        ("effects"@, plain_record(effects_pairs())),
        ("id"@, i64_model()),
        ("module"@, ShapeModel::Unknown),
        ("name"@, string_model()),
        ("origin"@, string_model()),
        ("params"@, array_of(plain_record(param_pairs()))),
        ("public"@, bool_model()),
        ("return"@, ShapeModel::Unknown),
        ("returns"@, ShapeModel::Unknown),
        ("source_span"@, ShapeModel::Unknown),
    ]
}

pub open spec fn method_access_pairs() -> Seq<(Seq<char>, ShapeModel)> {
    seq![
        ("public"@, bool_model()),
        ("reflect_callable"@, bool_model()),
        ("required_permissions"@, array_of(string_model())),
    ]
}

pub open spec fn method_pairs() -> Seq<(Seq<char>, ShapeModel)> {
    seq![
        ("access"@, plain_record(method_access_pairs())),
        ("attrs"@, attrs_model()),
        ("docs"@, ShapeModel::Unknown),
        ("effects"@, plain_record(effects_pairs())),
        ("id"@, i64_model()),
        ("name"@, string_model()),
        ("origin"@, string_model()),
        ("owner"@, string_model()),
        ("params"@, array_of(plain_record(param_pairs()))),
        ("return"@, ShapeModel::Unknown),
        ("returns"@, ShapeModel::Unknown),
        ("source_span"@, ShapeModel::Unknown),
    ]
}

pub open spec fn trait_pairs() -> Seq<(Seq<char>, ShapeModel)> {
    seq![
        ("attrs"@, attrs_model()),
        ("docs"@, ShapeModel::Unknown),
        ("id"@, i64_model()),
        ("methods"@, array_of(plain_record(method_pairs()))),
        ("name"@, string_model()),
        ("origin"@, string_model()),
        ("source_span"@, plain_record(source_span_pairs())),
    ]
}

pub open spec fn type_pairs() -> Seq<(Seq<char>, ShapeModel)> {
    seq![
        ("attrs"@, attrs_model()),
        ("docs"@, ShapeModel::Unknown),
        ("field_count"@, i64_model()),
        ("id"@, i64_model()),
        ("kind"@, string_model()),
        ("method_count"@, i64_model()),
        ("name"@, string_model()),
        ("origin"@, string_model()),
        ("schema_hash"@, ShapeModel::Unknown),
        ("source_span"@, plain_record(source_span_pairs())),
        ("trait_count"@, i64_model()),
        ("variant_count"@, i64_model()),
    ]
}

pub open spec fn variant_pairs() -> Seq<(Seq<char>, ShapeModel)> {
    seq![
        ("attrs"@, attrs_model()),
        ("docs"@, ShapeModel::Unknown),
        ("fields"@, array_of(plain_record(field_pairs()))),
        ("id"@, i64_model()),
        ("name"@, string_model()),
        ("origin"@, string_model()),
        ("owner"@, string_model()),
        ("source_span"@, ShapeModel::Unknown),
    ]
}

/// What `reflect::access` gives back for a target of the given shape: the
/// target's own `access` field, or the target itself when it already carries
/// `required_permissions` and one of the `reflect_*` flags.
pub open spec fn reflect_access_model(target: ShapeModel) -> Option<ShapeModel> {
    match target {
        ShapeModel::Record(rec) => if field_value_model(rec, "access"@) is Some {
            field_value_model(rec, "access"@)
        } else if has_field(rec, "required_permissions"@) && (has_field(rec, "reflect_callable"@)
            || has_field(rec, "reflect_readable"@) || has_field(rec, "reflect_visible"@) || has_field(
            rec,
            "reflect_writable"@,
        )) {
            Some(target)
        } else {
            None
        },
        _ => None,
    }
}

/// The shape of the value a `reflect` native function returns.
pub open spec fn native_call_model(function: Seq<char>, first_arg: Option<ShapeModel>) -> Option<
    ShapeModel,
> {
    if function == "attrs"@ {
        Some(attrs_model())
    } else if function == "access"@ {
        match first_arg {
            Some(target) => reflect_access_model(target),
            None => None,
        }
    } else if function == "effects"@ {
        Some(plain_record(effects_pairs()))
    } else if function == "field"@ {
        Some(plain_record(field_pairs()))
    } else if function == "fields"@ {
        Some(array_of(plain_record(field_pairs())))
    } else if function == "function"@ {
        Some(plain_record(function_pairs()))
    } else if function == "functions"@ {
        Some(array_of(plain_record(function_pairs())))
    } else if function == "module"@ {
        Some(plain_record(module_pairs()))
    } else if function == "modules"@ {
        Some(array_of(plain_record(module_pairs())))
    } else if function == "method"@ {
        Some(plain_record(method_pairs()))
    } else if function == "methods"@ {
        Some(array_of(plain_record(method_pairs())))
    } else if function == "params"@ {
        Some(array_of(plain_record(param_pairs())))
    } else if function == "source_span"@ {
        Some(plain_record(source_span_pairs()))
    } else if function == "trait_info"@ {
        Some(plain_record(trait_pairs()))
    } else if function == "traits"@ {
        Some(array_of(plain_record(trait_pairs())))
    } else if function == "type_info"@ || function == "type_of"@ {
        Some(plain_record(type_pairs()))
    } else if function == "types"@ {
        Some(array_of(plain_record(type_pairs())))
    } else if function == "variant_info"@ {
        Some(plain_record(variant_pairs()))
    } else if function == "variants"@ {
        Some(array_of(plain_record(variant_pairs())))
    } else if function == "exports"@ || function == "permissions"@ || function
        == "required_permissions"@ {
        Some(array_of(string_model()))
    } else {
        None
    }
}

/// The shape of the value the `reflect` native `function` returns, given the
/// shape of its first argument.
pub fn native_call_shape(function: &str, first_arg: Option<ValueShape>) -> (r: Option<ValueShape>)
    ensures
        match r {
            Some(v) => native_call_model(function@, crate::record_shapes::opt_shape_model(first_arg))
                == Some(v@),
            None => native_call_model(function@, crate::record_shapes::opt_shape_model(first_arg)) is None,
        },
{
    if str_eq(function, "attrs") {
        Some(attrs_shape())
    } else if str_eq(function, "access") {
        match first_arg {
            Some(target) => reflect_access_shape(target),
            None => None,
        }
    } else if str_eq(function, "effects") {
        Some(effects_record_shape())
    } else if str_eq(function, "field") {
        Some(field_record_shape())
    } else if str_eq(function, "fields") {
        Some(ValueShape::Array(Box::new(field_record_shape())))
    } else if str_eq(function, "function") {
        Some(function_record_shape())
    } else if str_eq(function, "functions") {
        Some(ValueShape::Array(Box::new(function_record_shape())))
    } else if str_eq(function, "module") {
        Some(module_record_shape())
    } else if str_eq(function, "modules") {
        Some(ValueShape::Array(Box::new(module_record_shape())))
    } else if str_eq(function, "method") {
        Some(method_record_shape())
    } else if str_eq(function, "methods") {
        Some(ValueShape::Array(Box::new(method_record_shape())))
    } else if str_eq(function, "params") {
        Some(ValueShape::Array(Box::new(param_record_shape())))
    } else if str_eq(function, "source_span") {
        Some(source_span_record_shape())
    } else if str_eq(function, "trait_info") {
        Some(trait_record_shape())
    } else if str_eq(function, "traits") {
        Some(ValueShape::Array(Box::new(trait_record_shape())))
    } else if str_eq(function, "type_info") || str_eq(function, "type_of") {
        Some(type_record_shape())
    } else if str_eq(function, "types") {
        Some(ValueShape::Array(Box::new(type_record_shape())))
    } else if str_eq(function, "variant_info") {
        Some(variant_record_shape())
    } else if str_eq(function, "variants") {
        Some(ValueShape::Array(Box::new(variant_record_shape())))
    } else if str_eq(function, "exports") || str_eq(function, "permissions") || str_eq(
        function,
        "required_permissions",
    ) {
        Some(ValueShape::Array(Box::new(string_shape())))
    } else {
        None
    }
}

/// The access record of a reflected target.
pub fn reflect_access_shape(target: ValueShape) -> (r: Option<ValueShape>)
    ensures
        match r {
            Some(v) => reflect_access_model(target@) == Some(v@),
            None => reflect_access_model(target@) is None,
        },
{
    let found = match target.as_record() {
        Some(record) => match record.field_value_shape("access") {
            Some(access) => Some(access.duplicate()),
            None => None,
        },
        None => None,
    };
    if found.is_some() {
        return found;
    }
    let keep = match target.as_record() {
        Some(record) => {
            let has_required_permissions = record.field_slot("required_permissions").is_some();
            let has_access_flag = record.field_slot("reflect_callable").is_some() || record.field_slot(
                "reflect_readable",
            ).is_some() || record.field_slot("reflect_visible").is_some() || record.field_slot(
                "reflect_writable",
            ).is_some();
            has_required_permissions && has_access_flag
        },
        None => false,
    };
    if keep {
        Some(target)
    } else {
        None
    }
}

fn plain_record_shape(fields: Vec<(String, ValueShape)>) -> (r: ValueShape)
    ensures
        r@ == plain_record(pairs_model(fields@)),
{
    ValueShape::Record(RecordShape::from_field_shapes(fields))
}

pub fn effects_record_shape() -> (r: ValueShape)
    ensures
        r@ == plain_record(effects_pairs()),
{
    let fields = vec![
        (String::from_str("calls_reflection"), bool_shape()),
        (String::from_str("emits_events"), bool_shape()),
        (String::from_str("reads_host"), bool_shape()),
        (String::from_str("reads_reflection"), bool_shape()),
        (String::from_str("reads_time"), bool_shape()),
        (String::from_str("reads_io"), bool_shape()),
        (String::from_str("uses_random"), bool_shape()),
        (String::from_str("writes_host"), bool_shape()),
        (String::from_str("writes_reflection"), bool_shape()),
        (String::from_str("writes_io"), bool_shape()),
    ];
    assert(pairs_model(fields@) =~= effects_pairs());
    plain_record_shape(fields)
}

pub fn module_record_shape() -> (r: ValueShape)
    ensures
        r@ == plain_record(module_pairs()),
{
    let fields = vec![
        (String::from_str("attrs"), attrs_shape()),
        (String::from_str("docs"), ValueShape::Unknown),
        (String::from_str("exports"), ValueShape::Array(Box::new(string_shape()))),
        (String::from_str("name"), string_shape()),
        (String::from_str("origin"), string_shape()),
        (String::from_str("source_span"), source_span_record_shape()),
    ];
    assert(pairs_model(fields@) =~= module_pairs());
    plain_record_shape(fields)
}

pub fn field_record_shape() -> (r: ValueShape)
    ensures
        r@ == plain_record(field_pairs()),
{
    let fields = vec![
        (String::from_str("access"), field_access_record_shape()),
        (String::from_str("attrs"), attrs_shape()),
        (String::from_str("defaulted"), bool_shape()),
        (String::from_str("docs"), ValueShape::Unknown),
        (String::from_str("id"), i64_shape()),
        (String::from_str("name"), string_shape()),
        (String::from_str("origin"), string_shape()),
        (String::from_str("owner"), string_shape()),
        (String::from_str("source_span"), ValueShape::Unknown),
        (String::from_str("type"), ValueShape::Unknown),
        (String::from_str("writable"), bool_shape()),
    ];
    assert(pairs_model(fields@) =~= field_pairs());
    plain_record_shape(fields)
}

pub fn field_access_record_shape() -> (r: ValueShape)
    ensures
        r@ == plain_record(field_access_pairs()),
{
    let fields = vec![
        (String::from_str("readable"), bool_shape()),
        (String::from_str("reflect_readable"), bool_shape()),
        (String::from_str("reflect_writable"), bool_shape()),
        (String::from_str("required_permissions"), ValueShape::Array(Box::new(string_shape()))),
        (String::from_str("writable"), bool_shape()),
    ];
    assert(pairs_model(fields@) =~= field_access_pairs());
    plain_record_shape(fields)
}

pub fn function_record_shape() -> (r: ValueShape)
    ensures
        r@ == plain_record(function_pairs()),
{
    let fields = vec![
        (String::from_str("access"), function_access_record_shape()),
        (String::from_str("attrs"), attrs_shape()),
        (String::from_str("docs"), ValueShape::Unknown),
        (String::from_str("effects"), effects_record_shape()),
        (String::from_str("id"), i64_shape()),
        (String::from_str("module"), ValueShape::Unknown),
        (String::from_str("name"), string_shape()),
        (String::from_str("origin"), string_shape()),
        (String::from_str("params"), ValueShape::Array(Box::new(param_record_shape()))),
        (String::from_str("public"), bool_shape()),
        (String::from_str("return"), ValueShape::Unknown),
        (String::from_str("returns"), ValueShape::Unknown),
        (String::from_str("source_span"), ValueShape::Unknown),
    ];
    assert(pairs_model(fields@) =~= function_pairs());
    plain_record_shape(fields)
}

pub fn function_access_record_shape() -> (r: ValueShape)
    ensures
        r@ == plain_record(function_access_pairs()),
{
    let fields = vec![
        (String::from_str("public"), bool_shape()),
        (String::from_str("reflect_callable"), bool_shape()),
        (String::from_str("reflect_visible"), bool_shape()),
        (String::from_str("required_permissions"), ValueShape::Array(Box::new(string_shape()))),
    ];
    assert(pairs_model(fields@) =~= function_access_pairs());
    plain_record_shape(fields)
}

pub fn method_record_shape() -> (r: ValueShape)
    ensures
        r@ == plain_record(method_pairs()),
{
    let fields = vec![
        (String::from_str("access"), method_access_record_shape()),
        (String::from_str("attrs"), attrs_shape()),
        (String::from_str("docs"), ValueShape::Unknown),
        (String::from_str("effects"), effects_record_shape()),
        (String::from_str("id"), i64_shape()),
        (String::from_str("name"), string_shape()),
        (String::from_str("origin"), string_shape()),
        (String::from_str("owner"), string_shape()),
        (String::from_str("params"), ValueShape::Array(Box::new(param_record_shape()))),
        (String::from_str("return"), ValueShape::Unknown),
        (String::from_str("returns"), ValueShape::Unknown),
        (String::from_str("source_span"), ValueShape::Unknown),
    ];
    assert(pairs_model(fields@) =~= method_pairs());
    plain_record_shape(fields)
}

pub fn method_access_record_shape() -> (r: ValueShape)
    ensures
        r@ == plain_record(method_access_pairs()),
{
    let fields = vec![
        (String::from_str("public"), bool_shape()),
        (String::from_str("reflect_callable"), bool_shape()),
        (String::from_str("required_permissions"), ValueShape::Array(Box::new(string_shape()))),
    ];
    assert(pairs_model(fields@) =~= method_access_pairs());
    plain_record_shape(fields)
}

pub fn param_record_shape() -> (r: ValueShape)
    ensures
        r@ == plain_record(param_pairs()),
{
    let fields = vec![
        (String::from_str("defaulted"), bool_shape()),
        (String::from_str("name"), string_shape()),
        (String::from_str("type"), ValueShape::Unknown),
    ];
    assert(pairs_model(fields@) =~= param_pairs());
    plain_record_shape(fields)
}

pub fn source_span_record_shape() -> (r: ValueShape)
    ensures
        r@ == plain_record(source_span_pairs()),
{
    let fields = vec![
        (String::from_str("end"), i64_shape()),
        (String::from_str("source"), i64_shape()),
        (String::from_str("start"), i64_shape()),
    ];
    assert(pairs_model(fields@) =~= source_span_pairs());
    plain_record_shape(fields)
}

pub fn trait_record_shape() -> (r: ValueShape)
    ensures
        r@ == plain_record(trait_pairs()),
{
    let fields = vec![
        (String::from_str("attrs"), attrs_shape()),
        (String::from_str("docs"), ValueShape::Unknown),
        (String::from_str("id"), i64_shape()),
        (String::from_str("methods"), ValueShape::Array(Box::new(method_record_shape()))),
        (String::from_str("name"), string_shape()),
        (String::from_str("origin"), string_shape()),
        (String::from_str("source_span"), source_span_record_shape()),
    ];
    assert(pairs_model(fields@) =~= trait_pairs());
    plain_record_shape(fields)
}

pub fn type_record_shape() -> (r: ValueShape)
    ensures
        r@ == plain_record(type_pairs()),
{
    let fields = vec![
        (String::from_str("attrs"), attrs_shape()),
        (String::from_str("docs"), ValueShape::Unknown),
        (String::from_str("field_count"), i64_shape()),
        (String::from_str("id"), i64_shape()),
        (String::from_str("kind"), string_shape()),
        (String::from_str("method_count"), i64_shape()),
        (String::from_str("name"), string_shape()),
        (String::from_str("origin"), string_shape()),
        (String::from_str("schema_hash"), ValueShape::Unknown),
        (String::from_str("source_span"), source_span_record_shape()),
        (String::from_str("trait_count"), i64_shape()),
        (String::from_str("variant_count"), i64_shape()),
    ];
    assert(pairs_model(fields@) =~= type_pairs());
    plain_record_shape(fields)
}

pub fn variant_record_shape() -> (r: ValueShape)
    ensures
        r@ == plain_record(variant_pairs()),
{
    let fields = vec![
        (String::from_str("attrs"), attrs_shape()),
        (String::from_str("docs"), ValueShape::Unknown),
        (String::from_str("fields"), ValueShape::Array(Box::new(field_record_shape()))),
        (String::from_str("id"), i64_shape()),
        (String::from_str("name"), string_shape()),
        (String::from_str("origin"), string_shape()),
        (String::from_str("owner"), string_shape()),
        (String::from_str("source_span"), ValueShape::Unknown),
    ];
    assert(pairs_model(fields@) =~= variant_pairs());
    plain_record_shape(fields)
}

/// A map from strings to values of unknown shape.
pub fn attrs_shape() -> (r: ValueShape)
    ensures
        r@ == attrs_model(),
{
    let key = string_shape();
    let unknown = ValueShape::Unknown;
    assert(unknown@ == ShapeModel::Unknown);
    ValueShape::MapType { key: Box::new(key), value: Box::new(unknown) }
}

pub fn bool_shape() -> (r: ValueShape)
    ensures
        r@ == bool_model(),
{
    ValueShape::Scalar(String::from_str("bool"))
}

pub fn i64_shape() -> (r: ValueShape)
    ensures
        r@ == i64_model(),
{
    ValueShape::Scalar(String::from_str("i64"))
}

pub fn string_shape() -> (r: ValueShape)
    ensures
        r@ == string_model(),
{
    ValueShape::Scalar(String::from_str("String"))
}

} // verus!
