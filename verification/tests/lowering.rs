use lib::assignments::{
    HirAssignOp, PreparedFieldAssignment, PreparedIndexAssignment, PreparedIndexKey, PreparedIndexedRoot,
};
use lib::compiler::{CompileError, Compiler, CompilerFacts, Constant, Instruction, Register, PENDING_TARGET};
use lib::field_slots::ScriptFieldSlots;
use lib::hir::{
    HirBlock, HirExpr, HirLiteral, HirMatch, HirMatchArm, HirMatchArmBody, HirPattern, HirRecordPatternField, HirStmt,
};
use lib::match_lowering::{hir_pattern_declares_local, hir_pattern_needs_check};
use lib::hir_lowering::hir_expression_aliases_existing_register;
use lib::options::CompilerOptions;
use lib::text::parse_decimal_index;
use lib::hir::HirBodyRoot;
use lib::param_defaults::{
    interpolated_expression_payload_at, reject_named_syntax_call_args, syntax_call_args_have_names, SyntaxCallArgument,
};

fn facts() -> CompilerFacts {
    CompilerFacts {
        options: CompilerOptions::new(),
        type_symbols: vec![(1, "shapes::Shape".to_string())],
        global_slots: vec![],
        script_field_slots: ScriptFieldSlots::new(),
        pattern_declarations: vec![(vec!["Shape".to_string(), "Circle".to_string()], 1)],
    }
}

fn lit(value: i64) -> HirExpr {
    HirExpr::Literal(HirLiteral::Int(value))
}

fn path(name: &str) -> HirExpr {
    HirExpr::Path(vec![name.to_string()])
}

fn binding(name: &str) -> HirPattern {
    HirPattern::Binding { local: Some(name.to_string()) }
}

fn arm(pattern: HirPattern, body: HirMatchArmBody) -> HirMatchArm {
    HirMatchArm { pattern: Some(pattern), guard: None, body: Some(body) }
}

fn compiler_with_local(name: &str) -> (Compiler, Register) {
    let mut compiler = Compiler::new(facts());
    let register = compiler.alloc_register().expect("a register");
    compiler.bind_local(name.to_string(), register);
    (compiler, register)
}

fn jumps_land_inside(code: &[Instruction]) -> bool {
    code.iter().all(|i| match i {
        Instruction::Jump { target } | Instruction::JumpIfFalse { target, .. } => {
            *target <= code.len() && *target != PENDING_TARGET
        }
        _ => true,
    })
}

#[test]
fn match_statement_tests_literals_then_falls_through_to_the_catch_all() {
    let (mut compiler, x) = compiler_with_local("x");
    let statement = HirStmt::Match(HirMatch {
        scrutinee: Some(Box::new(path("x"))),
        arms: vec![
            arm(
                HirPattern::Literal(Some(HirLiteral::Int(1))),
                HirMatchArmBody::Block(HirBlock { statements: vec![HirStmt::Return { value: Some(lit(10)) }] }),
            ),
            arm(HirPattern::Wildcard, HirMatchArmBody::Block(HirBlock { statements: vec![] })),
        ],
    });
    assert_eq!(compiler.compile_hir_statement(&statement), Ok(false));
    assert_eq!(
        compiler.into_code(),
        vec![
            Instruction::LoadConst { dst: Register(1), constant: Constant::Int(1) },
            Instruction::Equal { dst: Register(2), lhs: x, rhs: Register(1) },
            Instruction::JumpIfFalse { condition: Register(2), target: 5 },
            Instruction::LoadConst { dst: Register(3), constant: Constant::Int(10) },
            Instruction::Return { src: Register(3) },
            Instruction::Jump { target: 6 },
        ]
    );
}

#[test]
fn match_expression_moves_each_arm_value_into_one_register() {
    let (mut compiler, x) = compiler_with_local("x");
    let expression = HirExpr::Match(HirMatch {
        scrutinee: Some(Box::new(path("x"))),
        arms: vec![
            arm(HirPattern::Literal(Some(HirLiteral::Int(1))), HirMatchArmBody::Expr(lit(5))),
            arm(HirPattern::Wildcard, HirMatchArmBody::Expr(lit(6))),
        ],
    });
    assert_eq!(compiler.compile_hir_expression(&expression), Ok(Register(1)));
    assert_eq!(
        compiler.into_code(),
        vec![
            Instruction::LoadConst { dst: Register(2), constant: Constant::Int(1) },
            Instruction::Equal { dst: Register(3), lhs: x, rhs: Register(2) },
            Instruction::JumpIfFalse { condition: Register(3), target: 6 },
            Instruction::LoadConst { dst: Register(4), constant: Constant::Int(5) },
            Instruction::Move { dst: Register(1), src: Register(4) },
            Instruction::Jump { target: 9 },
            Instruction::LoadConst { dst: Register(5), constant: Constant::Int(6) },
            Instruction::Move { dst: Register(1), src: Register(5) },
            Instruction::Jump { target: 9 },
        ]
    );
}

#[test]
fn match_without_catch_all_yields_unit() {
    let (mut compiler, _) = compiler_with_local("x");
    let expression = HirExpr::Match(HirMatch {
        scrutinee: Some(Box::new(path("x"))),
        arms: vec![arm(HirPattern::Literal(Some(HirLiteral::Bool(true))), HirMatchArmBody::Expr(lit(1)))],
    });
    assert_eq!(compiler.compile_hir_expression(&expression), Ok(Register(1)));
    let code = compiler.into_code();
    assert!(jumps_land_inside(&code));
    assert_eq!(code[code.len() - 1], Instruction::LoadConst { dst: Register(1), constant: Constant::Unit });
}

#[test]
fn binding_arm_copies_the_scrutinee_and_binds_it() {
    let (mut compiler, x) = compiler_with_local("x");
    let expression = HirExpr::Match(HirMatch {
        scrutinee: Some(Box::new(path("x"))),
        arms: vec![arm(binding("y"), HirMatchArmBody::Expr(path("y")))],
    });
    assert_eq!(compiler.compile_hir_expression(&expression), Ok(Register(1)));
    assert_eq!(
        compiler.into_code(),
        vec![
            Instruction::Move { dst: Register(2), src: x },
            Instruction::Move { dst: Register(1), src: Register(2) },
            Instruction::Jump { target: 3 },
        ]
    );
}

#[test]
fn tuple_patterns_check_arity_and_elements() {
    let (mut compiler, x) = compiler_with_local("t");
    let statement = HirStmt::Match(HirMatch {
        scrutinee: Some(Box::new(path("t"))),
        arms: vec![
            arm(
                HirPattern::TupleVariant {
                    path: None,
                    fields: vec![binding("a"), HirPattern::Literal(Some(HirLiteral::Int(2)))],
                },
                HirMatchArmBody::Expr(path("a")),
            ),
            arm(HirPattern::Wildcard, HirMatchArmBody::Expr(lit(0))),
        ],
    });
    assert_eq!(compiler.compile_hir_statement(&statement), Ok(false));
    let code = compiler.into_code();
    assert!(jumps_land_inside(&code));
    assert_eq!(code[0], Instruction::TupleArityEqual { dst: Register(1), value: x, arity: 2 });
    assert_eq!(code[2], Instruction::GetTupleField { dst: Register(2), value: x, index: 1 });
    assert!(code.contains(&Instruction::GuardTupleArity { value: x, arity: 2 }));
}

#[test]
fn variant_patterns_read_fields_by_decimal_name() {
    let (mut compiler, s) = compiler_with_local("s");
    let statement = HirStmt::Match(HirMatch {
        scrutinee: Some(Box::new(path("s"))),
        arms: vec![arm(
            HirPattern::TupleVariant {
                path: Some(vec!["Shape".to_string(), "Circle".to_string()]),
                fields: vec![binding("r")],
            },
            HirMatchArmBody::Expr(path("r")),
        )],
    });
    assert_eq!(compiler.compile_hir_statement(&statement), Ok(false));
    let code = compiler.into_code();
    assert!(jumps_land_inside(&code));
    assert_eq!(
        code[0],
        Instruction::EnumTagEqual {
            dst: Register(1),
            value: s,
            enum_name: "shapes::Shape".to_string(),
            variant: "Circle".to_string(),
        }
    );
    assert!(code.contains(&Instruction::GetEnumField { dst: Register(2), value: s, field: "0".to_string() }));
}

#[test]
fn match_errors_name_what_is_missing() {
    let (mut compiler, _) = compiler_with_local("x");
    let no_scrutinee = HirStmt::Match(HirMatch { scrutinee: None, arms: vec![] });
    assert_eq!(
        compiler.compile_hir_statement(&no_scrutinee),
        Err(CompileError::UnsupportedSyntax("match scrutinee"))
    );
    let no_pattern = HirStmt::Match(HirMatch {
        scrutinee: Some(Box::new(path("x"))),
        arms: vec![HirMatchArm { pattern: None, guard: None, body: None }],
    });
    assert_eq!(compiler.compile_hir_statement(&no_pattern), Err(CompileError::UnsupportedSyntax("match pattern")));
    let no_body = HirStmt::Match(HirMatch {
        scrutinee: Some(Box::new(path("x"))),
        arms: vec![HirMatchArm { pattern: Some(HirPattern::Wildcard), guard: None, body: None }],
    });
    assert_eq!(compiler.compile_hir_statement(&no_body), Err(CompileError::UnsupportedSyntax("match arm body")));
    let missing = HirStmt::Match(HirMatch {
        scrutinee: Some(Box::new(path("x"))),
        arms: vec![arm(HirPattern::Missing, HirMatchArmBody::Expr(lit(1)))],
    });
    assert_eq!(compiler.compile_hir_statement(&missing), Err(CompileError::UnsupportedSyntax("match pattern")));
}

#[test]
fn guards_jump_to_the_next_arm() {
    let (mut compiler, _) = compiler_with_local("x");
    let statement = HirStmt::Match(HirMatch {
        scrutinee: Some(Box::new(path("x"))),
        arms: vec![
            HirMatchArm {
                pattern: Some(binding("y")),
                guard: Some(path("y")),
                body: Some(HirMatchArmBody::Expr(lit(1))),
            },
            arm(HirPattern::Wildcard, HirMatchArmBody::Expr(lit(2))),
        ],
    });
    assert_eq!(compiler.compile_hir_statement(&statement), Ok(false));
    let code = compiler.into_code();
    assert!(jumps_land_inside(&code));
    assert_eq!(code[1], Instruction::JumpIfFalse { condition: Register(1), target: 4 });
}

#[test]
fn pattern_predicates() {
    assert!(!hir_pattern_needs_check(&HirPattern::Wildcard));
    assert!(!hir_pattern_needs_check(&binding("a")));
    assert!(hir_pattern_needs_check(&HirPattern::Literal(Some(HirLiteral::Int(1)))));
    assert!(!hir_pattern_needs_check(&HirPattern::Literal(None)));
    assert!(hir_pattern_needs_check(&HirPattern::TupleVariant { path: None, fields: vec![] }));
    assert!(!hir_pattern_declares_local(&HirPattern::TupleVariant { path: None, fields: vec![HirPattern::Wildcard] }));
    assert!(hir_pattern_declares_local(&HirPattern::RecordVariant {
        path: None,
        fields: vec![
            HirRecordPatternField { name: "a".to_string(), pattern: None },
            HirRecordPatternField { name: "b".to_string(), pattern: Some(binding("b")) },
        ],
    }));
    assert!(!hir_pattern_declares_local(&HirPattern::Binding { local: None }));
}

#[test]
fn let_of_a_local_copies_its_register() {
    let (mut compiler, a) = compiler_with_local("a");
    let statement = HirStmt::Let {
        pattern: Some(binding("b")),
        initializer: Some(HirExpr::Paren(Some(Box::new(path("a"))))),
    };
    assert_eq!(compiler.compile_hir_statement(&statement), Ok(false));
    assert_eq!(compiler.local_register("b"), Some(Register(1)));
    assert_eq!(compiler.into_code(), vec![Instruction::Move { dst: Register(1), src: a }]);
    assert!(hir_expression_aliases_existing_register(&path("a")));
    assert!(!hir_expression_aliases_existing_register(&lit(1)));
}

#[test]
fn index_assignment_stores_the_value_or_the_combined_value() {
    let mut compiler = Compiler::new(facts());
    for _ in 0..3 {
        compiler.alloc_register().expect("a register");
    }
    let target = PreparedIndexAssignment { base: Register(0), key: PreparedIndexKey::Dynamic(Register(1)) };
    assert_eq!(compiler.finish_hir_index_assignment(HirAssignOp::Assign, target, Register(2)), Ok(Register(2)));
    let target = PreparedIndexAssignment { base: Register(0), key: PreparedIndexKey::String("k".to_string()) };
    assert_eq!(compiler.finish_hir_index_assignment(HirAssignOp::Add, target, Register(2)), Ok(Register(4)));
    assert_eq!(
        compiler.into_code(),
        vec![
            Instruction::SetIndex { base: Register(0), index: Register(1), src: Register(2) },
            Instruction::GetStringKeyIndex { dst: Register(3), base: Register(0), key: "k".to_string() },
            Instruction::Add { dst: Register(4), lhs: Register(3), rhs: Register(2) },
            Instruction::SetStringKeyIndex { base: Register(0), key: "k".to_string(), src: Register(4) },
        ]
    );
}

#[test]
fn nested_field_assignment_writes_back_outward() {
    let mut compiler = Compiler::new(facts());
    for _ in 0..5 {
        compiler.alloc_register().expect("a register");
    }
    let target = PreparedFieldAssignment {
        records: vec![Register(1), Register(2)],
        fields: vec!["inner".to_string(), "x".to_string()],
        slots: vec![Some(0), None],
        indexed_root: Some(PreparedIndexedRoot::Dynamic { collection: Register(3), index: Register(4) }),
    };
    assert_eq!(compiler.finish_hir_field_assignment(HirAssignOp::Assign, target, Register(0)), Ok(Register(0)));
    assert_eq!(
        compiler.into_code(),
        vec![
            Instruction::SetRecordField { record: Register(2), field: "x".to_string(), src: Register(0) },
            Instruction::SetRecordSlot { record: Register(1), field: "inner".to_string(), slot: 0, src: Register(2) },
            Instruction::SetIndex { base: Register(3), index: Register(4), src: Register(1) },
        ]
    );
}

#[test]
fn named_call_arguments_are_refused_where_positional_ones_are_required() {
    let positional = vec![SyntaxCallArgument { name: None }];
    let named = vec![SyntaxCallArgument { name: None }, SyntaxCallArgument { name: Some("x".to_string()) }];
    assert!(!syntax_call_args_have_names(&positional));
    assert!(syntax_call_args_have_names(&named));
    assert_eq!(reject_named_syntax_call_args(&positional, "call"), Ok(()));
    assert!(reject_named_syntax_call_args(&named, "call").is_err());
    let payloads = [10, 20];
    assert_eq!(interpolated_expression_payload_at(Some(&payloads[..]), 1), Ok(Some(&20)));
    assert_eq!(interpolated_expression_payload_at::<i32>(None, 0), Ok(None));
    assert!(interpolated_expression_payload_at(Some(&payloads[..]), 2).is_err());
}

fn scalar(name: &str) -> lib::record_shapes::ValueShape {
    lib::record_shapes::ValueShape::Scalar(name.to_string())
}

#[test]
fn index_with_a_string_literal_key_reads_by_name() {
    let (mut compiler, map) = compiler_with_local("m");
    let e = HirExpr::Index {
        receiver: Box::new(path("m")),
        index: Box::new(HirExpr::Literal(HirLiteral::Str("k".to_string()))),
    };
    assert_eq!(compiler.compile_hir_expression(&e), Ok(Register(1)));
    assert_eq!(
        compiler.into_code(),
        vec![Instruction::GetStringKeyIndex { dst: Register(1), base: map, key: "k".to_string() }]
    );
}

#[test]
fn index_with_a_computed_key_lowers_the_key_after_the_receiver() {
    let (mut compiler, list) = compiler_with_local("xs");
    let e = HirExpr::Index { receiver: Box::new(path("xs")), index: Box::new(lit(2)) };
    assert_eq!(compiler.compile_hir_expression(&e), Ok(Register(1)));
    assert_eq!(
        compiler.into_code(),
        vec![
            Instruction::LoadConst { dst: Register(2), constant: Constant::Int(2) },
            Instruction::GetIndex { dst: Register(1), base: list, index: Register(2) },
        ]
    );
}

#[test]
fn decimal_field_names_read_tuple_elements() {
    let (mut compiler, pair) = compiler_with_local("pair");
    let second = HirExpr::Field { receiver: Box::new(path("pair")), name: "1".to_string() };
    assert_eq!(compiler.compile_hir_expression(&second), Ok(Register(1)));
    let signed = HirExpr::Field { receiver: Box::new(path("pair")), name: "+0".to_string() };
    assert_eq!(compiler.compile_hir_expression(&signed), Ok(Register(2)));
    assert_eq!(
        compiler.into_code(),
        vec![
            Instruction::GetTupleField { dst: Register(1), value: pair, index: 1 },
            Instruction::GetTupleField { dst: Register(2), value: pair, index: 0 },
        ]
    );
}

#[test]
fn record_fields_with_a_known_shape_read_by_slot() {
    let mut compiler = Compiler::new(facts());
    let point = compiler.alloc_register().expect("a register");
    compiler.bind_local_with_shape(
        "p".to_string(),
        point,
        Some(lib::record_shapes::ValueShape::Record(lib::record_shapes::RecordShape::from_field_shapes(vec![
            ("y".to_string(), scalar("i64")),
            ("x".to_string(), scalar("i64")),
        ]))),
    );
    let y = HirExpr::Field { receiver: Box::new(path("p")), name: "y".to_string() };
    assert_eq!(compiler.compile_hir_expression(&y), Ok(Register(1)));
    let z = HirExpr::Field { receiver: Box::new(path("p")), name: "z".to_string() };
    assert_eq!(compiler.compile_hir_expression(&z), Ok(Register(2)));
    assert_eq!(
        compiler.into_code(),
        vec![
            Instruction::GetRecordSlot { dst: Register(1), record: point, field: "y".to_string(), slot: 1 },
            Instruction::GetRecordField { dst: Register(2), record: point, field: "z".to_string() },
        ]
    );
}

#[test]
fn fields_of_values_without_a_shape_read_by_name() {
    let (mut compiler, value) = compiler_with_local("v");
    let e = HirExpr::Field { receiver: Box::new(path("v")), name: "-1".to_string() };
    assert_eq!(compiler.compile_hir_expression(&e), Ok(Register(1)));
    assert_eq!(
        compiler.into_code(),
        vec![Instruction::GetRecordField { dst: Register(1), record: value, field: "-1".to_string() }]
    );
}

#[test]
fn decimal_indices_parse_as_usize_does() {
    assert_eq!(parse_decimal_index("0"), Some(0));
    assert_eq!(parse_decimal_index("+17"), Some(17));
    assert_eq!(parse_decimal_index("007"), Some(7));
    assert_eq!(parse_decimal_index(""), None);
    assert_eq!(parse_decimal_index("+"), None);
    assert_eq!(parse_decimal_index("-1"), None);
    assert_eq!(parse_decimal_index("1a"), None);
    assert_eq!(parse_decimal_index("99999999999999999999999"), None);
    assert_eq!(parse_decimal_index(&usize::MAX.to_string()), Some(usize::MAX));
    for text in ["12", "+3", "x", "1_0", "18446744073709551616"] {
        assert_eq!(parse_decimal_index(text), text.parse::<usize>().ok());
    }
}

#[test]
fn statements_after_a_return_are_not_lowered() {
    let mut compiler = Compiler::new(facts());
    let block = HirBlock {
        statements: vec![
            HirStmt::Return { value: Some(lit(1)) },
            HirStmt::Expr { expression: Some(HirExpr::Missing) },
        ],
    };
    assert_eq!(compiler.compile_hir_block(&block), Ok(true));
    let mut refused = Compiler::new(facts());
    let before_return = HirBlock {
        statements: vec![
            HirStmt::Expr { expression: Some(HirExpr::Missing) },
            HirStmt::Return { value: Some(lit(1)) },
        ],
    };
    assert_eq!(refused.compile_hir_block(&before_return), Err(CompileError::UnsupportedSyntax("expression")));
}

#[test]
fn arms_after_a_catch_all_are_not_lowered() {
    let (mut compiler, _) = compiler_with_local("x");
    let statement = HirStmt::Match(HirMatch {
        scrutinee: Some(Box::new(path("x"))),
        arms: vec![
            arm(HirPattern::Wildcard, HirMatchArmBody::Block(HirBlock { statements: vec![HirStmt::Return { value: None }] })),
            arm(HirPattern::Missing, HirMatchArmBody::Expr(HirExpr::Missing)),
        ],
    });
    assert_eq!(compiler.compile_hir_statement(&statement), Ok(true));
}

#[test]
fn untested_parts_of_a_tuple_pattern_are_not_refused() {
    let (mut compiler, _) = compiler_with_local("pair");
    let statement = HirStmt::Match(HirMatch {
        scrutinee: Some(Box::new(path("pair"))),
        arms: vec![arm(
            HirPattern::TupleVariant { path: None, fields: vec![HirPattern::Missing, binding("b")] },
            HirMatchArmBody::Expr(path("b")),
        )],
    });
    assert_eq!(compiler.compile_hir_statement(&statement), Ok(false));
    let mut refused = Compiler::new(facts());
    let value = refused.alloc_register().expect("a register");
    refused.bind_local("pair".to_string(), value);
    let tested = HirStmt::Match(HirMatch {
        scrutinee: Some(Box::new(path("pair"))),
        arms: vec![arm(
            HirPattern::TupleVariant { path: None, fields: vec![HirPattern::Literal(Some(HirLiteral::Invalid))] },
            HirMatchArmBody::Expr(lit(0)),
        )],
    });
    assert_eq!(refused.compile_hir_statement(&tested), Err(CompileError::UnsupportedSyntax("literal")));
}

#[test]
fn map_literals_store_each_value_under_its_name() {
    let mut compiler = Compiler::new(facts());
    let entry = |name: &str, value: i64| lib::hir::HirMapEntry {
        key: Some(HirExpr::Literal(HirLiteral::Str(name.to_string()))),
        logical_key: Some(name.to_string()),
        value: Some(lit(value)),
    };
    let map = HirExpr::MapLiteral(vec![entry("a", 1), entry("b", 2)]);
    assert_eq!(compiler.compile_hir_expression(&map), Ok(Register(2)));
    assert_eq!(
        compiler.into_code(),
        vec![
            Instruction::LoadConst { dst: Register(0), constant: Constant::Int(1) },
            Instruction::LoadConst { dst: Register(1), constant: Constant::Int(2) },
            Instruction::MakeMap {
                dst: Register(2),
                entries: vec![("a".to_string(), Register(0)), ("b".to_string(), Register(1))],
            },
        ]
    );
    let mut refused = Compiler::new(facts());
    let nameless = HirExpr::MapLiteral(vec![lib::hir::HirMapEntry { key: None, logical_key: None, value: Some(lit(1)) }]);
    assert_eq!(refused.compile_hir_expression(&nameless), Err(CompileError::UnsupportedSyntax("map key")));
    let valueless = HirExpr::MapLiteral(vec![lib::hir::HirMapEntry {
        key: None,
        logical_key: Some("k".to_string()),
        value: None,
    }]);
    assert_eq!(refused.compile_hir_expression(&valueless), Err(CompileError::UnsupportedSyntax("map value")));
}

#[test]
fn destructuring_let_binds_each_part_of_the_tuple() {
    let (mut compiler, pair) = compiler_with_local("pair");
    let statement = HirStmt::Let {
        pattern: Some(HirPattern::TupleVariant { path: None, fields: vec![binding("a"), HirPattern::Wildcard] }),
        initializer: Some(path("pair")),
    };
    assert_eq!(compiler.compile_hir_statement(&statement), Ok(false));
    assert_eq!(compiler.local_register("a"), Some(Register(1)));
    assert_eq!(
        compiler.into_code(),
        vec![
            Instruction::GuardTupleArity { value: pair, arity: 2 },
            Instruction::GetTupleField { dst: Register(1), value: pair, index: 0 },
        ]
    );
}

#[test]
fn value_bodies_return_their_value() {
    let mut empty = Compiler::new(facts());
    assert_eq!(empty.compile_hir_value_body(&HirBodyRoot::Empty), Ok(1));
    assert_eq!(
        empty.into_code(),
        vec![
            Instruction::LoadConst { dst: Register(0), constant: Constant::Unit },
            Instruction::Return { src: Register(0) },
        ]
    );
    let mut block = Compiler::new(facts());
    let body = HirBodyRoot::Block(HirBlock {
        statements: vec![
            HirStmt::Let { pattern: Some(binding("x")), initializer: Some(lit(7)) },
            HirStmt::Expr { expression: Some(path("x")) },
        ],
    });
    assert_eq!(block.compile_hir_value_body(&body), Ok(2));
    assert_eq!(
        block.into_code(),
        vec![
            Instruction::LoadConst { dst: Register(1), constant: Constant::Int(7) },
            Instruction::Move { dst: Register(0), src: Register(1) },
            Instruction::Return { src: Register(0) },
        ]
    );
    let mut early = Compiler::new(facts());
    let returning = HirBodyRoot::Block(HirBlock { statements: vec![HirStmt::Return { value: Some(lit(1)) }] });
    assert_eq!(early.compile_hir_value_body(&returning), Ok(2));
    assert_eq!(
        early.into_code(),
        vec![
            Instruction::LoadConst { dst: Register(1), constant: Constant::Int(1) },
            Instruction::Return { src: Register(1) },
        ]
    );
}

#[test]
fn expression_bodies_always_return() {
    let mut compiler = Compiler::new(facts());
    assert_eq!(compiler.compile_hir_body_root(&HirBodyRoot::Expr(lit(5))), Ok(true));
    assert_eq!(compiler.compile_hir_body_root(&HirBodyRoot::Empty), Ok(false));
    assert_eq!(
        compiler.into_code(),
        vec![
            Instruction::LoadConst { dst: Register(0), constant: Constant::Int(5) },
            Instruction::Return { src: Register(0) },
        ]
    );
}
