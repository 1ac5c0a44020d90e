use lib::compiler::{CompileError, Compiler, CompilerFacts, Constant, Instruction, Register, PENDING_TARGET};
use lib::field_slots::{FieldSlotInfo, ScriptFieldSlots};
use lib::hir::{HirBinaryOp, HirBlock, HirElseBranch, HirExpr, HirIf, HirLiteral, HirPattern, HirStmt, HirUnaryOp};
use lib::hir_lowering::{hir_logical_operands, hir_non_logical_binary_instruction, BinaryLiteralSide};
use lib::host_paths::DynamicHostPathPart;
use lib::options::{CompilerOptions, HostIndexCapabilityInfo};
use lib::script_types::ScriptTypeFact;
use lib::value_types::{PrimitiveTag, RuntimeTypeFact};

fn strings(names: &[&str]) -> Vec<String> {
    names.iter().map(|n| n.to_string()).collect()
}

fn facts() -> CompilerFacts {
    let slots = ScriptFieldSlots::new()
        .with_enum_field(
            "shapes::Shape".to_string(),
            "Circle".to_string(),
            "0".to_string(),
            FieldSlotInfo { slot: 0, fact: None, value_type: Some(RuntimeTypeFact::Primitive(PrimitiveTag::I64)) },
        )
        .with_record_field(
            "geo::Point".to_string(),
            "x".to_string(),
            FieldSlotInfo { slot: 0, fact: None, value_type: Some(RuntimeTypeFact::Primitive(PrimitiveTag::I64)) },
        )
        .with_record_field(
            "geo::Line".to_string(),
            "from".to_string(),
            FieldSlotInfo { slot: 0, fact: Some(ScriptTypeFact::new("geo::Point".to_string())), value_type: None },
        )
        .with_record_field(
            "geo::Line".to_string(),
            "to".to_string(),
            FieldSlotInfo { slot: 1, fact: Some(ScriptTypeFact::new("geo::Point".to_string())), value_type: None },
        )
        .with_record_field(
            "Node".to_string(),
            "next".to_string(),
            FieldSlotInfo { slot: 0, fact: Some(ScriptTypeFact::new("Node".to_string())), value_type: None },
        );
    CompilerFacts {
        options: CompilerOptions::new().with_host_index_capability(
            "Grid".to_string(),
            HostIndexCapabilityInfo {
                readable: true,
                writable: true,
                addable: false,
                removable: false,
                key_type: Some("i64".to_string()),
                value_type: Some("Cell".to_string()),
            },
        ),
        type_symbols: vec![(1, "shapes::Shape".to_string()), (2, "geo::Point".to_string())],
        global_slots: vec![("answer".to_string(), 4)],
        script_field_slots: slots,
        pattern_declarations: vec![(strings(&["Shape", "Circle"]), 1)],
    }
}

fn lit(value: i64) -> HirExpr {
    HirExpr::Literal(HirLiteral::Int(value))
}

fn path(name: &str) -> HirExpr {
    HirExpr::Path(vec![name.to_string()])
}

fn binary(op: HirBinaryOp, lhs: HirExpr, rhs: HirExpr) -> HirExpr {
    HirExpr::Binary { op: Some(op), lhs: Some(Box::new(lhs)), rhs: Some(Box::new(rhs)) }
}

fn jumps_land_inside(code: &[Instruction]) -> bool {
    code.iter().all(|i| match i {
        Instruction::Jump { target } | Instruction::JumpIfFalse { target, .. } => *target <= code.len() && *target != PENDING_TARGET,
        _ => true,
    })
}

#[test]
fn truthy_and_globals_emit_one_instruction() {
    let mut compiler = Compiler::new(facts());
    assert_eq!(compiler.emit_truthy_to_bool(Register(1), Register(0)), Ok(()));
    compiler.emit_load_global(Register(2), "answer".to_string());
    compiler.emit_load_global(Register(3), "missing".to_string());
    let code = compiler.into_code();
    assert_eq!(
        code,
        vec![
            Instruction::Truthy { dst: Register(1), src: Register(0) },
            Instruction::LoadGlobal { dst: Register(2), global: "answer".to_string(), slot: Some(4) },
            Instruction::LoadGlobal { dst: Register(3), global: "missing".to_string(), slot: None },
        ]
    );
}

#[test]
fn declared_script_types() {
    let compiler = Compiler::new(facts());
    assert!(compiler.is_declared_script_type("geo::Point"));
    assert!(!compiler.is_declared_script_type("Point"));
}

#[test]
fn variant_tag_pattern_tests_the_resolved_enum() {
    let mut compiler = Compiler::new(facts());
    let jumps = compiler.compile_variant_tag_pattern(Register(9), &strings(&["Shape", "Circle"])).expect("pattern");
    assert_eq!(jumps, vec![1]);
    let code = compiler.into_code();
    assert_eq!(
        code,
        vec![
            Instruction::EnumTagEqual {
                dst: Register(0),
                value: Register(9),
                enum_name: "shapes::Shape".to_string(),
                variant: "Circle".to_string(),
            },
            Instruction::JumpIfFalse { condition: Register(0), target: PENDING_TARGET },
        ]
    );
}

#[test]
fn variant_tag_pattern_falls_back_to_the_written_path() {
    let mut compiler = Compiler::new(facts());
    compiler.compile_variant_tag_pattern(Register(0), &strings(&["Other", "Case"])).expect("pattern");
    let code = compiler.into_code();
    assert!(matches!(&code[0], Instruction::EnumTagEqual { enum_name, .. } if enum_name == "Other"));
}

#[test]
fn a_single_segment_pattern_is_refused() {
    let mut compiler = Compiler::new(facts());
    assert_eq!(
        compiler.compile_variant_tag_pattern(Register(0), &strings(&["Circle"])),
        Err(CompileError::UnsupportedSyntax("match pattern"))
    );
}

#[test]
fn enum_field_reads_use_the_slot_when_known() {
    let mut compiler = Compiler::new(facts());
    let known = compiler.emit_enum_pattern_field_read(Register(5), &strings(&["Shape", "Circle"]), "0".to_string()).unwrap();
    let unknown = compiler.emit_enum_pattern_field_read(Register(5), &strings(&["Shape", "Circle"]), "1".to_string()).unwrap();
    let element = compiler.emit_tuple_pattern_field_read(Register(5), 2).unwrap();
    assert_eq!((known, unknown, element), (Register(0), Register(1), Register(2)));
    assert_eq!(
        compiler.into_code(),
        vec![
            Instruction::GetEnumSlot { dst: Register(0), value: Register(5), field: "0".to_string(), slot: 0 },
            Instruction::GetEnumField { dst: Register(1), value: Register(5), field: "1".to_string() },
            Instruction::GetTupleField { dst: Register(2), value: Register(5), index: 2 },
        ]
    );
}

#[test]
fn enum_field_facts_through_patterns() {
    let compiler = Compiler::new(facts());
    let path = strings(&["Shape", "Circle"]);
    assert_eq!(compiler.enum_variant_field_slot_for_pattern(&path, "0"), Some(0));
    assert_eq!(compiler.enum_variant_field_value_type(&path, "0"), Some(RuntimeTypeFact::Primitive(PrimitiveTag::I64)));
    assert_eq!(compiler.enum_variant_field_fact(&path, "0"), None);
    assert_eq!(compiler.enum_variant_field_slot_for_pattern(&strings(&["Circle"]), "0"), None);
}

#[test]
fn host_index_kinds_come_from_the_capability() {
    let compiler = Compiler::new(facts());
    assert_eq!(compiler.host_index_dynamic_kind(Some("Grid")), DynamicHostPathPart::Index);
    assert_eq!(compiler.host_index_dynamic_kind(Some("Other")), DynamicHostPathPart::Key);
    assert_eq!(compiler.host_index_dynamic_kind(None), DynamicHostPathPart::Key);
    assert_eq!(compiler.host_index_value_type(Some("Grid")), Some("Cell".to_string()));
    assert_eq!(compiler.host_index_value_type(Some("Other")), None);
}

#[test]
fn record_shapes_nest_script_types() {
    let compiler = Compiler::new(facts());
    let line = compiler.record_shape_for_type("Line").expect("line");
    assert_eq!(line.record_type_name(), Some("Line"));
    let from = line.field_record_shape("from").expect("nested point");
    assert_eq!(from.record_type_name(), Some("geo::Point"));
    assert_eq!(from.field_slot("x"), Some(0));
    assert!(compiler.record_shape_for_type("Nothing").is_none());
}

#[test]
fn recursive_record_types_stop_at_the_cycle() {
    let compiler = Compiler::new(facts());
    let node = compiler.record_shape_for_type("Node").expect("node");
    let next = node.field_value_shape("next").expect("field");
    assert_eq!(next, &lib::record_shapes::ValueShape::Unknown);
}

#[test]
fn schema_field_types_follow_script_fields() {
    let compiler = Compiler::new(facts());
    assert_eq!(
        compiler.schema_record_field_value_type(Some("Line"), &strings(&["from", "x"])),
        Some(RuntimeTypeFact::Primitive(PrimitiveTag::I64))
    );
    assert_eq!(compiler.schema_record_field_value_type(Some("Line"), &strings(&["from", "y"])), None);
    assert_eq!(compiler.schema_record_field_value_type(Some("Point"), &strings(&["x"])), Some(RuntimeTypeFact::Primitive(PrimitiveTag::I64)));
    assert_eq!(compiler.schema_record_field_value_type(None, &strings(&["x"])), None);
    assert_eq!(compiler.schema_record_field_value_type(Some("Point"), &strings(&[])), None);
}

#[test]
fn numeric_literal_instruction_puts_the_literal_on_its_side() {
    assert_eq!(
        hir_non_logical_binary_instruction(HirBinaryOp::Sub, Register(2), Register(0), Register(1), BinaryLiteralSide::Left),
        Instruction::Sub { dst: Register(2), lhs: Register(1), rhs: Register(0) }
    );
    assert_eq!(
        hir_non_logical_binary_instruction(HirBinaryOp::Less, Register(2), Register(0), Register(1), BinaryLiteralSide::Right),
        Instruction::Less { dst: Register(2), lhs: Register(0), rhs: Register(1) }
    );
}

#[test]
fn logical_chains_flatten() {
    let e1 = path("a");
    let e2 = path("b");
    let e3 = path("c");
    let lhs = binary(HirBinaryOp::And, e1, e2);
    let operands = hir_logical_operands(HirBinaryOp::And, &lhs, &e3);
    assert_eq!(operands.len(), 3);
    assert_eq!(operands[2], &path("c"));
    let mixed = binary(HirBinaryOp::Or, path("x"), path("y"));
    assert_eq!(hir_logical_operands(HirBinaryOp::And, &mixed, &e3).len(), 2);
}

#[test]
fn and_chain_lowers_with_short_circuit_jumps() {
    let mut compiler = Compiler::new(facts());
    let e = binary(HirBinaryOp::And, binary(HirBinaryOp::And, lit(1), lit(2)), lit(3));
    let dst = compiler.compile_hir_expression(&e).expect("lowered");
    assert_eq!(dst, Register(0));
    let code = compiler.into_code();
    assert!(jumps_land_inside(&code));
    assert_eq!(
        code,
        vec![
            Instruction::LoadConst { dst: Register(1), constant: Constant::Int(1) },
            Instruction::JumpIfFalse { condition: Register(1), target: 7 },
            Instruction::LoadConst { dst: Register(2), constant: Constant::Int(2) },
            Instruction::JumpIfFalse { condition: Register(2), target: 7 },
            Instruction::LoadConst { dst: Register(3), constant: Constant::Int(3) },
            Instruction::Truthy { dst: Register(0), src: Register(3) },
            Instruction::Jump { target: 8 },
            Instruction::LoadConst { dst: Register(0), constant: Constant::Bool(false) },
        ]
    );
}

#[test]
fn or_lowers_with_early_true() {
    let mut compiler = Compiler::new(facts());
    let e = binary(HirBinaryOp::Or, lit(0), lit(5));
    compiler.compile_hir_expression(&e).expect("lowered");
    let code = compiler.into_code();
    assert!(jumps_land_inside(&code));
    assert_eq!(
        code,
        vec![
            Instruction::LoadConst { dst: Register(1), constant: Constant::Int(0) },
            Instruction::JumpIfFalse { condition: Register(1), target: 4 },
            Instruction::LoadConst { dst: Register(0), constant: Constant::Bool(true) },
            Instruction::Jump { target: 6 },
            Instruction::LoadConst { dst: Register(2), constant: Constant::Int(5) },
            Instruction::Truthy { dst: Register(0), src: Register(2) },
        ]
    );
}

#[test]
fn not_of_equality_becomes_not_equal() {
    let mut compiler = Compiler::new(facts());
    let e = HirExpr::Unary {
        op: Some(HirUnaryOp::Not),
        operand: Some(Box::new(HirExpr::Paren(Some(Box::new(binary(HirBinaryOp::Equal, lit(1), lit(2))))))),
    };
    compiler.compile_hir_expression(&e).expect("lowered");
    let code = compiler.into_code();
    assert_eq!(code[2], Instruction::NotEqual { dst: Register(2), lhs: Register(0), rhs: Register(1) });
    assert_eq!(code.len(), 3);
}

#[test]
fn negation_and_globals() {
    let mut compiler = Compiler::new(facts());
    let e = HirExpr::Unary { op: Some(HirUnaryOp::Negate), operand: Some(Box::new(path("answer"))) };
    compiler.compile_hir_expression(&e).expect("lowered");
    assert_eq!(
        compiler.into_code(),
        vec![
            Instruction::LoadGlobal { dst: Register(0), global: "answer".to_string(), slot: Some(4) },
            Instruction::Negate { dst: Register(1), src: Register(0) },
        ]
    );
}

#[test]
fn invalid_literals_and_missing_operands_are_refused() {
    let mut compiler = Compiler::new(facts());
    assert_eq!(
        compiler.compile_hir_expression(&HirExpr::Literal(HirLiteral::Invalid)),
        Err(CompileError::UnsupportedSyntax("literal"))
    );
    assert_eq!(compiler.compile_hir_expression(&HirExpr::Missing), Err(CompileError::UnsupportedSyntax("expression")));
    assert_eq!(
        compiler.compile_hir_expression(&HirExpr::Path(strings(&["a", "b"]))),
        Err(CompileError::UnsupportedSyntax("path"))
    );
}

#[test]
fn if_value_lowers_both_branches_into_one_register() {
    let mut compiler = Compiler::new(facts());
    let e = HirExpr::If(HirIf {
        condition: Some(Box::new(HirExpr::Literal(HirLiteral::Bool(true)))),
        then_block: Some(HirBlock { statements: vec![HirStmt::Expr { expression: Some(lit(1)) }] }),
        else_branch: Some(Box::new(HirElseBranch::Block(HirBlock {
            statements: vec![HirStmt::Expr { expression: Some(lit(2)) }],
        }))),
    });
    let dst = compiler.compile_hir_expression(&e).expect("lowered");
    assert_eq!(dst, Register(0));
    let code = compiler.into_code();
    assert!(jumps_land_inside(&code));
    assert_eq!(
        code,
        vec![
            Instruction::LoadConst { dst: Register(1), constant: Constant::Bool(true) },
            Instruction::JumpIfFalse { condition: Register(1), target: 5 },
            Instruction::LoadConst { dst: Register(2), constant: Constant::Int(1) },
            Instruction::Move { dst: Register(0), src: Register(2) },
            Instruction::Jump { target: 7 },
            Instruction::LoadConst { dst: Register(3), constant: Constant::Int(2) },
            Instruction::Move { dst: Register(0), src: Register(3) },
        ]
    );
}

#[test]
fn statements_bind_locals_and_return() {
    let mut compiler = Compiler::new(facts());
    let block = HirBlock {
        statements: vec![
            HirStmt::Let { pattern: Some(HirPattern::Binding { local: Some("x".to_string()) }), initializer: Some(lit(3)) },
            HirStmt::Return { value: Some(binary(HirBinaryOp::Add, path("x"), lit(1))) },
        ],
    };
    assert_eq!(compiler.compile_hir_block(&block), Ok(true));
    assert_eq!(compiler.local_register("x"), None);
    let code = compiler.into_code();
    assert_eq!(
        code,
        vec![
            Instruction::LoadConst { dst: Register(0), constant: Constant::Int(3) },
            Instruction::LoadConst { dst: Register(1), constant: Constant::Int(1) },
            Instruction::Add { dst: Register(2), lhs: Register(0), rhs: Register(1) },
            Instruction::Return { src: Register(2) },
        ]
    );
}

#[test]
fn if_statement_without_condition_is_refused() {
    let mut compiler = Compiler::new(facts());
    let value = HirIf { condition: None, then_block: None, else_branch: None };
    assert_eq!(compiler.compile_hir_if_statement(&value), Err(CompileError::UnsupportedSyntax("if condition")));
}

#[test]
fn if_statement_patches_both_jumps() {
    let mut compiler = Compiler::new(facts());
    let value = HirIf {
        condition: Some(Box::new(path("c"))),
        then_block: Some(HirBlock { statements: vec![HirStmt::Return { value: None }] }),
        else_branch: None,
    };
    assert_eq!(compiler.compile_hir_if_statement(&value), Ok(false));
    let code = compiler.into_code();
    assert!(jumps_land_inside(&code));
    assert_eq!(code[1], Instruction::JumpIfFalse { condition: Register(0), target: 5 });
    assert_eq!(code[4], Instruction::Jump { target: 5 });
}

#[test]
fn block_tail_expression() {
    let compiler = Compiler::new(facts());
    let block = HirBlock { statements: vec![HirStmt::Expr { expression: None }, HirStmt::Expr { expression: Some(lit(4)) }] };
    assert_eq!(compiler.hir_block_tail_expression(&block), Some(&lit(4)));
    let empty = HirBlock { statements: vec![] };
    assert_eq!(compiler.hir_block_tail_expression(&empty), None);
}

#[test]
fn patching_a_non_jump_is_refused() {
    let mut compiler = Compiler::new(facts());
    compiler.emit_bool_constant_to(Register(0), true);
    assert_eq!(compiler.patch_jump(0, 1), Err(CompileError::InvalidJump));
    assert_eq!(compiler.patch_jump(5, 1), Err(CompileError::InvalidJump));
    let j = compiler.emit_jump();
    assert_eq!(compiler.patch_jump(j, 2), Ok(()));
}

#[test]
fn block_value_that_returns_early_leaves_its_register_unwritten() {
    let mut compiler = Compiler::new(facts());
    let dst = compiler.alloc_register().expect("a register");
    let block = HirBlock {
        statements: vec![HirStmt::Return { value: Some(lit(1)) }, HirStmt::Expr { expression: Some(lit(2)) }],
    };
    assert_eq!(compiler.compile_hir_block_value_to(&block, dst), Ok(true));
    assert_eq!(
        compiler.into_code(),
        vec![
            Instruction::LoadConst { dst: Register(1), constant: Constant::Int(1) },
            Instruction::Return { src: Register(1) },
        ]
    );
}

#[test]
fn if_value_without_then_block_loads_unit_on_that_branch() {
    let mut compiler = Compiler::new(facts());
    let e = HirExpr::If(HirIf {
        condition: Some(Box::new(HirExpr::Literal(HirLiteral::Bool(false)))),
        then_block: None,
        else_branch: Some(Box::new(HirElseBranch::If(HirIf {
            condition: Some(Box::new(HirExpr::Literal(HirLiteral::Bool(true)))),
            then_block: Some(HirBlock { statements: vec![HirStmt::Expr { expression: Some(lit(7)) }] }),
            else_branch: None,
        }))),
    });
    let dst = compiler.compile_hir_expression(&e).expect("lowered");
    assert_eq!(dst, Register(0));
    let code = compiler.into_code();
    assert!(jumps_land_inside(&code));
    assert_eq!(
        code,
        vec![
            Instruction::LoadConst { dst: Register(1), constant: Constant::Bool(false) },
            Instruction::JumpIfFalse { condition: Register(1), target: 4 },
            Instruction::LoadConst { dst: Register(0), constant: Constant::Unit },
            Instruction::Jump { target: 10 },
            Instruction::LoadConst { dst: Register(2), constant: Constant::Bool(true) },
            Instruction::JumpIfFalse { condition: Register(2), target: 9 },
            Instruction::LoadConst { dst: Register(3), constant: Constant::Int(7) },
            Instruction::Move { dst: Register(0), src: Register(3) },
            Instruction::Jump { target: 10 },
            Instruction::LoadConst { dst: Register(0), constant: Constant::Unit },
        ]
    );
}
