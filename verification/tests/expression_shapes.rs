use lib::compiler::{Compiler, CompilerFacts};
use lib::expr_shapes::{hir_binary_shape, hir_literal_shape, sorted_init_name_list};
use lib::field_slots::{FieldSlotInfo, ScriptFieldSlots};
use lib::hir::{
    HirBinaryOp, HirBlock, HirCallArgument, HirExpr, HirLambdaBody, HirLiteral, HirMapEntry, HirRecordFieldInit, HirStmt,
};
use lib::options::CompilerOptions;
use lib::record_reflection_shapes::{bool_shape, i64_shape, string_shape};
use lib::record_shapes::ValueShape;
use lib::value_types::{PrimitiveTag, RuntimeTypeFact};

fn facts() -> CompilerFacts {
    let slots = ScriptFieldSlots::new().with_record_field(
        "geo::Point".to_string(),
        "x".to_string(),
        FieldSlotInfo { slot: 0, fact: None, value_type: Some(RuntimeTypeFact::Primitive(PrimitiveTag::I64)) },
    );
    CompilerFacts {
        options: CompilerOptions::new(),
        type_symbols: vec![(2, "geo::Point".to_string())],
        global_slots: vec![],
        script_field_slots: slots,
        pattern_declarations: vec![],
    }
}

fn int_shape() -> ValueShape {
    ValueShape::from_runtime_type(RuntimeTypeFact::Primitive(PrimitiveTag::I64))
}

fn text_shape() -> ValueShape {
    ValueShape::from_runtime_type(RuntimeTypeFact::Primitive(PrimitiveTag::String))
}

fn lit(value: i64) -> HirExpr {
    HirExpr::Literal(HirLiteral::Int(value))
}

fn text(value: &str) -> HirExpr {
    HirExpr::Literal(HirLiteral::Str(value.to_string()))
}

fn path(parts: &[&str]) -> HirExpr {
    HirExpr::Path(parts.iter().map(|p| p.to_string()).collect())
}

fn call(callee: HirExpr, arguments: Vec<HirExpr>) -> HirExpr {
    HirExpr::Call {
        callee: Box::new(callee),
        arguments: arguments.into_iter().map(|value| HirCallArgument { name: None, value: Some(value) }).collect(),
    }
}

fn method(receiver: HirExpr, name: &str, arguments: Vec<HirExpr>) -> HirExpr {
    call(HirExpr::Field { receiver: Box::new(receiver), name: name.to_string() }, arguments)
}

fn field(name: &str, value: HirExpr) -> HirRecordFieldInit {
    HirRecordFieldInit { name: name.to_string(), value: Some(value) }
}

#[test]
fn literals_and_operators_have_scalar_shapes() {
    let compiler = Compiler::new(facts());
    assert_eq!(hir_literal_shape(&HirLiteral::Int(3)), Some(int_shape()));
    assert_eq!(hir_literal_shape(&HirLiteral::Invalid), None);
    assert_eq!(compiler.value_shape_for_hir_expression(&HirExpr::Unit), Some(ValueShape::Scalar("()".to_string())));
    assert_eq!(hir_binary_shape(HirBinaryOp::Less), bool_shape());
    assert_eq!(hir_binary_shape(HirBinaryOp::Range), ValueShape::Scalar("Range".to_string()));
    assert_eq!(hir_binary_shape(HirBinaryOp::Add), ValueShape::Unknown);
}

#[test]
fn collections_take_the_common_element_shape() {
    let compiler = Compiler::new(facts());
    let same = HirExpr::Array(vec![lit(1), lit(2)]);
    assert_eq!(compiler.value_shape_for_hir_expression(&same), Some(ValueShape::Array(Box::new(int_shape()))));
    let mixed = HirExpr::Array(vec![lit(1), text("a")]);
    assert_eq!(compiler.value_shape_for_hir_expression(&mixed), Some(ValueShape::Array(Box::new(ValueShape::Unknown))));
    let tuple = HirExpr::Tuple(vec![lit(1), text("a")]);
    assert_eq!(compiler.value_shape_for_hir_expression(&tuple), Some(ValueShape::Tuple(vec![int_shape(), text_shape()])));
    let map = HirExpr::MapLiteral(vec![HirMapEntry { key: Some(text("k")), logical_key: Some("k".to_string()), value: Some(lit(1)) }]);
    assert_eq!(
        compiler.value_shape_for_hir_expression(&map),
        Some(ValueShape::MapType { key: Box::new(text_shape()), value: Box::new(int_shape()) })
    );
}

#[test]
fn record_literals_sort_their_fields() {
    let compiler = Compiler::new(facts());
    let record = HirExpr::Record {
        path: Some(vec!["Pair".to_string()]),
        declaration: None,
        fields: vec![field("b", lit(1)), field("a", text("x")), field("b", text("y"))],
    };
    let shape = compiler.value_shape_for_hir_expression(&record).expect("a record shape");
    let shape = shape.as_record().expect("a record");
    assert_eq!(shape.record_type_name(), Some("Pair"));
    assert_eq!(shape.field_slot("a"), Some(0));
    assert_eq!(shape.field_slot("b"), Some(1));
    assert_eq!(shape.field_value_shape("b"), Some(&text_shape()));
    let names = sorted_init_name_list(&vec![field("b", lit(1)), field("a", lit(2)), field("b", lit(3))]);
    assert_eq!(names, vec!["a".to_string(), "b".to_string()]);
}

#[test]
fn empty_record_literals_take_the_declared_type_shape() {
    let compiler = Compiler::new(facts());
    let by_declaration = HirExpr::Record { path: Some(vec!["Point".to_string()]), declaration: Some(2), fields: vec![] };
    let shape = compiler.value_shape_for_hir_expression(&by_declaration).expect("a record shape");
    let shape = shape.as_record().expect("a record");
    assert_eq!(shape.record_type_name(), Some("geo::Point"));
    assert_eq!(shape.field_value_shape("x"), Some(&int_shape()));
    let variant = HirExpr::Record {
        path: Some(vec!["Shape".to_string(), "Circle".to_string()]),
        declaration: None,
        fields: vec![field("r", lit(1))],
    };
    assert_eq!(compiler.value_shape_for_hir_expression(&variant), None);
    let unknown = HirExpr::Record { path: Some(vec!["Nothing".to_string()]), declaration: None, fields: vec![] };
    assert_eq!(compiler.value_shape_for_hir_expression(&unknown), None);
}

#[test]
fn try_unwraps_the_payload_of_an_option_or_a_result() {
    let mut compiler = Compiler::new(facts());
    let some = call(path(&["option", "some"]), vec![lit(1)]);
    assert_eq!(compiler.value_shape_for_hir_expression(&HirExpr::Try(Some(Box::new(some)))), Some(int_shape()));
    let err = call(path(&["result", "err"]), vec![lit(1)]);
    assert_eq!(
        compiler.value_shape_for_hir_expression(&HirExpr::Try(Some(Box::new(err)))),
        Some(ValueShape::Unknown)
    );
    let statement = HirStmt::Let {
        pattern: Some(lib::hir::HirPattern::Binding { local: Some("n".to_string()) }),
        initializer: Some(lit(4)),
    };
    assert_eq!(compiler.compile_hir_statement(&statement), Ok(false));
    assert_eq!(compiler.value_shape_for_hir_expression(&path(&["n"])), Some(int_shape()));
}

#[test]
fn let_bindings_record_the_shape_of_their_value() {
    let mut compiler = Compiler::new(facts());
    let register = compiler.alloc_register().expect("a register");
    compiler.bind_local_with_shape(
        "pair".to_string(),
        register,
        Some(ValueShape::Record(lib::record_shapes::RecordShape::from_field_shapes(vec![(
            "a".to_string(),
            ValueShape::Array(Box::new(int_shape())),
        )]))),
    );
    let access = HirExpr::Field { receiver: Box::new(path(&["pair"])), name: "a".to_string() };
    assert_eq!(compiler.value_shape_for_hir_expression(&access), Some(ValueShape::Array(Box::new(int_shape()))));
    let index = HirExpr::Index { receiver: Box::new(access), index: Box::new(lit(0)) };
    assert_eq!(compiler.value_shape_for_hir_expression(&index), Some(int_shape()));
    assert_eq!(compiler.value_shape_for_hir_expression(&path(&["missing"])), None);
}

#[test]
fn built_in_constructors_wrap_their_argument() {
    let compiler = Compiler::new(facts());
    assert_eq!(
        compiler.value_shape_for_hir_expression(&call(path(&["option", "some"]), vec![lit(1)])),
        Some(ValueShape::Option(Box::new(int_shape())))
    );
    assert_eq!(
        compiler.value_shape_for_hir_expression(&call(path(&["option", "none"]), vec![])),
        Some(ValueShape::Option(Box::new(ValueShape::Unknown)))
    );
    assert_eq!(
        compiler.value_shape_for_hir_expression(&call(path(&["result", "err"]), vec![text("e")])),
        Some(ValueShape::Result { ok: None, err: Some(Box::new(text_shape())) })
    );
    assert_eq!(
        compiler.value_shape_for_hir_expression(&call(path(&["set", "from_array"]), vec![HirExpr::Array(vec![lit(1)])])),
        Some(ValueShape::SetType(Box::new(int_shape())))
    );
    assert_eq!(compiler.value_shape_for_hir_expression(&call(path(&["io", "read"]), vec![])), None);
}

#[test]
fn method_calls_use_the_receiver_and_the_callback() {
    let compiler = Compiler::new(facts());
    let array = HirExpr::Array(vec![lit(1), lit(2)]);
    assert_eq!(
        compiler.value_shape_for_hir_expression(&method(array, "len", vec![])),
        Some(i64_shape())
    );
    let words = HirExpr::Array(vec![text("a")]);
    let lambda = HirExpr::Lambda {
        params: vec!["w".to_string()],
        body: HirLambdaBody::Block(HirBlock {
            statements: vec![HirStmt::Expr { expression: Some(method(path(&["w"]), "to_upper", vec![])) }],
        }),
    };
    assert_eq!(
        compiler.value_shape_for_hir_expression(&method(words, "map", vec![lambda])),
        Some(ValueShape::Array(Box::new(string_shape())))
    );
    let identity = HirExpr::Lambda { params: vec!["v".to_string()], body: HirLambdaBody::Expr(Box::new(path(&["v"]))) };
    assert_eq!(
        compiler.value_shape_for_hir_expression(&method(HirExpr::Array(vec![lit(1)]), "map", vec![identity])),
        Some(ValueShape::Array(Box::new(int_shape())))
    );
}
