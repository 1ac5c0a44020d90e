use lib::hir_shapes::{common_hir_shape, hir_method_shape};
use lib::record_reflection_shapes::{
    bool_shape, effects_record_shape, field_record_shape, i64_shape, native_call_shape, reflect_access_shape,
    source_span_record_shape, string_shape,
};
use lib::record_shapes::{callback_param_shapes, common_shape, RecordShape, ValueShape};
use lib::syntax_shapes::{
    arithmetic_shape, io_error_shape, left_float_or_right_float, literal_type, unwrap_try_shape, IntegerSuffix,
    LiteralKind, NumericLiteralKind,
};
use lib::value_types::{PrimitiveTag, RuntimeTypeFact, StandardRuntimeType};

fn scalar(name: &str) -> ValueShape {
    ValueShape::Scalar(name.to_string())
}

#[test]
fn record_fields_are_sorted_and_the_last_shape_wins() {
    let record = RecordShape::from_field_shapes(vec![
        ("b".to_string(), bool_shape()),
        ("a".to_string(), i64_shape()),
        ("b".to_string(), string_shape()),
    ]);
    assert_eq!(record.field_slot("a"), Some(0));
    assert_eq!(record.field_slot("b"), Some(1));
    assert_eq!(record.field_slot("c"), None);
    assert_eq!(record.field_value_shape("b"), Some(&string_shape()));
    assert_eq!(record.field_value_shape("a"), Some(&i64_shape()));
    assert_eq!(record.record_type_name(), None);
}

#[test]
fn typed_record_keeps_its_type_name() {
    let record = RecordShape::from_field_shapes_with_type(
        Some("geo::Point".to_string()),
        vec![("y".to_string(), i64_shape()), ("x".to_string(), i64_shape())],
    );
    assert_eq!(record.record_type_name(), Some("geo::Point"));
    assert_eq!(record.field_slot("x"), Some(0));
    assert_eq!(record.field_slot("y"), Some(1));
}

#[test]
fn nested_record_shape_is_found_through_its_field() {
    let inner = RecordShape::from_field_shapes(vec![("v".to_string(), bool_shape())]);
    let outer = RecordShape::from_field_shapes(vec![
        ("inner".to_string(), ValueShape::Record(inner)),
        ("n".to_string(), i64_shape()),
    ]);
    let found = outer.field_record_shape("inner").expect("inner record");
    assert_eq!(found.field_slot("v"), Some(0));
    assert!(outer.field_record_shape("n").is_none());
}

#[test]
fn map_entry_has_key_then_value() {
    let entry = ValueShape::map_entry(string_shape(), i64_shape());
    let record = entry.as_record().expect("record");
    assert_eq!(record.record_type_name(), Some("MapEntry"));
    assert_eq!(record.field_slot("key"), Some(0));
    assert_eq!(record.field_slot("value"), Some(1));
    assert_eq!(record.field_value_shape("value"), Some(&i64_shape()));
}

#[test]
fn shape_of_a_type_proves_the_type_again() {
    let fact = RuntimeTypeFact::Array(Box::new(RuntimeTypeFact::Primitive(PrimitiveTag::I64)));
    let shape = ValueShape::from_runtime_type(RuntimeTypeFact::Array(Box::new(RuntimeTypeFact::Primitive(
        PrimitiveTag::I64,
    ))));
    assert_eq!(shape, ValueShape::Array(Box::new(scalar("i64"))));
    assert_eq!(shape.value_type(), Some(fact));

    let tuple = RuntimeTypeFact::Tuple(vec![
        RuntimeTypeFact::Primitive(PrimitiveTag::Bool),
        RuntimeTypeFact::Standard(StandardRuntimeType::Range),
    ]);
    let shape = ValueShape::from_runtime_type(RuntimeTypeFact::Tuple(vec![
        RuntimeTypeFact::Primitive(PrimitiveTag::Bool),
        RuntimeTypeFact::Standard(StandardRuntimeType::Range),
    ]));
    assert_eq!(shape.value_type(), Some(tuple));
}

#[test]
fn char_shape_proves_no_type() {
    let shape = ValueShape::from_runtime_type(RuntimeTypeFact::Primitive(PrimitiveTag::Char));
    assert_eq!(shape, scalar("char"));
    assert_eq!(shape.value_type(), None);
}

#[test]
fn unknown_element_proves_the_bare_standard_type() {
    let shape = ValueShape::Array(Box::new(ValueShape::Unknown));
    assert_eq!(shape.value_type(), Some(RuntimeTypeFact::Standard(StandardRuntimeType::Array)));
    let result = ValueShape::Result { ok: Some(Box::new(scalar("i64"))), err: None };
    assert_eq!(result.value_type(), Some(RuntimeTypeFact::Standard(StandardRuntimeType::Result)));
    assert_eq!(scalar("Unit").value_type(), Some(RuntimeTypeFact::Primitive(PrimitiveTag::Unit)));
}

#[test]
fn collection_accessors() {
    let array = ValueShape::Array(Box::new(i64_shape()));
    assert_eq!(array.array_element(), Some(&i64_shape()));
    assert!(array.array_element_record().is_none());
    assert!(array.iterator_item().is_none());
    let map = ValueShape::MapType { key: Box::new(string_shape()), value: Box::new(bool_shape()) };
    let (k, v) = map.map_parts().expect("map");
    assert_eq!(k, &string_shape());
    assert_eq!(v, &bool_shape());
    let iter = ValueShape::Iterator(Box::new(bool_shape()));
    assert_eq!(iter.iterator_item(), Some(&bool_shape()));
}

#[test]
fn common_shape_needs_agreement() {
    assert_eq!(common_shape(vec![]), None);
    assert_eq!(common_shape(vec![i64_shape(), i64_shape()]), Some(i64_shape()));
    assert_eq!(common_shape(vec![i64_shape(), bool_shape()]), None);
    assert_eq!(common_hir_shape(vec![]), ValueShape::Unknown);
    assert_eq!(common_hir_shape(vec![bool_shape(), bool_shape()]), bool_shape());
    assert_eq!(common_hir_shape(vec![bool_shape(), i64_shape()]), ValueShape::Unknown);
}

#[test]
fn callback_parameters_follow_the_receiver() {
    let map = ValueShape::MapType { key: Box::new(string_shape()), value: Box::new(bool_shape()) };
    assert_eq!(callback_param_shapes(&map, "filter", 1), Some(vec![Some(bool_shape())]));
    assert_eq!(callback_param_shapes(&map, "filter", 2), Some(vec![Some(string_shape()), Some(bool_shape())]));
    let option = ValueShape::Option(Box::new(i64_shape()));
    assert_eq!(callback_param_shapes(&option, "or_else", 0), Some(vec![]));
    assert_eq!(callback_param_shapes(&option, "map", 1), Some(vec![Some(i64_shape())]));
    let result = ValueShape::Result { ok: None, err: Some(Box::new(string_shape())) };
    assert_eq!(callback_param_shapes(&result, "map", 1), Some(vec![None]));
    assert_eq!(callback_param_shapes(&result, "map_err", 1), Some(vec![Some(string_shape())]));
    assert_eq!(callback_param_shapes(&result, "unwrap_or", 1), None);
    assert_eq!(callback_param_shapes(&i64_shape(), "map", 1), None);
}

#[test]
fn method_result_shapes() {
    assert_eq!(hir_method_shape(string_shape(), "len", None, None), Some(i64_shape()));
    assert_eq!(hir_method_shape(string_shape(), "trim", None, None), Some(string_shape()));
    assert_eq!(hir_method_shape(string_shape(), "contains", None, None), Some(bool_shape()));
    assert_eq!(
        hir_method_shape(string_shape(), "find", None, None),
        Some(ValueShape::Option(Box::new(i64_shape())))
    );
    assert_eq!(hir_method_shape(i64_shape(), "find", None, None), None);
    assert_eq!(
        hir_method_shape(string_shape(), "split_once", None, None),
        Some(ValueShape::Option(Box::new(ValueShape::Tuple(vec![string_shape(), string_shape()]))))
    );
    assert_eq!(
        hir_method_shape(string_shape(), "chars", None, None),
        Some(ValueShape::Iterator(Box::new(scalar("char"))))
    );
    let array = ValueShape::Array(Box::new(bool_shape()));
    assert_eq!(
        hir_method_shape(ValueShape::Array(Box::new(bool_shape())), "map", None, Some(i64_shape())),
        Some(ValueShape::Array(Box::new(i64_shape())))
    );
    assert_eq!(
        hir_method_shape(array, "first", None, None),
        Some(ValueShape::Option(Box::new(bool_shape())))
    );
    assert_eq!(hir_method_shape(i64_shape(), "no_such_method", None, None), None);
}

#[test]
fn unwrap_or_prefers_a_known_payload() {
    let unknown = ValueShape::Option(Box::new(ValueShape::Unknown));
    assert_eq!(hir_method_shape(unknown, "unwrap_or", Some(i64_shape()), None), Some(i64_shape()));
    let known = ValueShape::Option(Box::new(bool_shape()));
    assert_eq!(hir_method_shape(known, "unwrap_or", Some(i64_shape()), None), Some(bool_shape()));
    let no_ok = ValueShape::Result { ok: None, err: None };
    assert_eq!(hir_method_shape(no_ok, "unwrap_or", Some(i64_shape()), None), Some(i64_shape()));
}

#[test]
fn flatten_merges_nested_options_and_results() {
    let nested = ValueShape::Option(Box::new(ValueShape::Option(Box::new(i64_shape()))));
    assert_eq!(hir_method_shape(nested, "flatten", None, None), Some(ValueShape::Option(Box::new(i64_shape()))));
    let nested = ValueShape::Result {
        ok: Some(Box::new(ValueShape::Result { ok: Some(Box::new(i64_shape())), err: None })),
        err: Some(Box::new(string_shape())),
    };
    assert_eq!(
        hir_method_shape(nested, "flatten", None, None),
        Some(ValueShape::Result { ok: Some(Box::new(i64_shape())), err: Some(Box::new(string_shape())) })
    );
}

#[test]
fn effects_record_sorts_its_flags() {
    let effects = effects_record_shape();
    let record = effects.as_record().expect("record");
    assert_eq!(record.field_slot("calls_reflection"), Some(0));
    assert_eq!(record.field_slot("emits_events"), Some(1));
    assert_eq!(record.field_slot("reads_host"), Some(2));
    assert_eq!(record.field_slot("reads_io"), Some(3));
    assert_eq!(record.field_slot("reads_reflection"), Some(4));
    assert_eq!(record.field_slot("reads_time"), Some(5));
    assert_eq!(record.field_slot("writes_reflection"), Some(9));
}

#[test]
fn reflection_natives_have_shapes() {
    let fields = native_call_shape("fields", None).expect("shape");
    let field = fields.array_element_record().expect("record");
    assert_eq!(field.field_slot("access"), Some(0));
    assert_eq!(field.field_slot("writable"), Some(10));
    assert_eq!(native_call_shape("type_of", None), native_call_shape("type_info", None));
    assert_eq!(
        native_call_shape("permissions", None),
        Some(ValueShape::Array(Box::new(string_shape())))
    );
    assert_eq!(native_call_shape("nothing", None), None);
    assert_eq!(native_call_shape("access", None), None);
    let span = source_span_record_shape();
    assert_eq!(span.as_record().expect("record").field_slot("start"), Some(2));
}

#[test]
fn reflected_access_comes_from_the_access_field() {
    let field = field_record_shape();
    let access = reflect_access_shape(field).expect("access");
    let record = access.as_record().expect("record");
    assert_eq!(record.field_slot("required_permissions"), Some(3));
    let itself = reflect_access_shape(access.duplicate()).expect("itself");
    assert_eq!(itself, access);
    assert_eq!(reflect_access_shape(i64_shape()), None);
}

#[test]
fn syntax_shape_helpers() {
    let error = io_error_shape();
    let record = error.as_record().expect("record");
    assert_eq!(record.field_slot("kind"), Some(0));
    assert_eq!(record.field_slot("path"), Some(2));
    assert!(left_float_or_right_float(NumericLiteralKind::Integer, NumericLiteralKind::Float));
    assert!(!left_float_or_right_float(NumericLiteralKind::Integer, NumericLiteralKind::Integer));
    assert_eq!(arithmetic_shape(Some(NumericLiteralKind::Float), Some(NumericLiteralKind::Integer)), Some("f64".to_string()));
    assert_eq!(arithmetic_shape(Some(NumericLiteralKind::Integer), Some(NumericLiteralKind::Integer)), Some("i64".to_string()));
    assert_eq!(arithmetic_shape(None, Some(NumericLiteralKind::Integer)), None);
    assert_eq!(literal_type(LiteralKind::Integer(None)), RuntimeTypeFact::Primitive(PrimitiveTag::I64));
    assert_eq!(
        literal_type(LiteralKind::Integer(Some(IntegerSuffix::U8))),
        RuntimeTypeFact::Primitive(PrimitiveTag::U8)
    );
    assert_eq!(literal_type(LiteralKind::Float(None)), RuntimeTypeFact::Primitive(PrimitiveTag::F64));
}

#[test]
fn try_unwraps_options_and_results() {
    assert_eq!(unwrap_try_shape(ValueShape::Option(Box::new(i64_shape()))), Some(i64_shape()));
    assert_eq!(
        unwrap_try_shape(ValueShape::Result { ok: Some(Box::new(bool_shape())), err: None }),
        Some(bool_shape())
    );
    assert_eq!(unwrap_try_shape(ValueShape::Result { ok: None, err: None }), Some(ValueShape::Unknown));
    assert_eq!(unwrap_try_shape(i64_shape()), None);
}
