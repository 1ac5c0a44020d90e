use lib::compiler::{CompileError, Compiler, CompilerFacts, Constant, Instruction, Register};
use lib::field_slots::ScriptFieldSlots;
use lib::hir::{HirBinaryOp, HirBlock, HirExpr, HirIf, HirLiteral, HirPattern, HirStmt, HirUnaryOp};
use lib::options::CompilerOptions;

fn facts() -> CompilerFacts {
    CompilerFacts {
        options: CompilerOptions::new(),
        type_symbols: vec![],
        global_slots: vec![],
        script_field_slots: ScriptFieldSlots::new(),
        pattern_declarations: vec![],
    }
}

fn lit(value: i64) -> HirExpr {
    HirExpr::Literal(HirLiteral::Int(value))
}

fn path(name: &str) -> HirExpr {
    HirExpr::Path(vec![name.to_string()])
}

fn binding(name: &str) -> HirPattern {
    HirPattern::Binding { local: Some(name.to_string()) }
}

fn binary(op: HirBinaryOp, lhs: HirExpr, rhs: HirExpr) -> HirExpr {
    HirExpr::Binary { op: Some(op), lhs: Some(Box::new(lhs)), rhs: Some(Box::new(rhs)) }
}

fn compiler_with_locals(names: &[&str]) -> (Compiler, Vec<Register>) {
    let mut compiler = Compiler::new(facts());
    let mut registers = Vec::new();
    for name in names {
        let register = compiler.alloc_register().expect("a register");
        compiler.bind_local(name.to_string(), register);
        registers.push(register);
    }
    (compiler, registers)
}

#[test]
fn for_over_a_range_steps_a_cursor_and_jumps_back() {
    let mut compiler = Compiler::new(facts());
    let statement = HirStmt::For {
        patterns: vec![binding("i")],
        iterable: Some(binary(HirBinaryOp::Range, lit(0), lit(3))),
        body: Some(HirBlock { statements: vec![] }),
    };
    assert_eq!(compiler.compile_hir_statement(&statement), Ok(false));
    assert_eq!(compiler.local_count(), 0);
    assert_eq!(
        compiler.into_code(),
        vec![
            Instruction::LoadConst { dst: Register(0), constant: Constant::Int(0) },
            Instruction::LoadConst { dst: Register(1), constant: Constant::Int(3) },
            Instruction::LoadConst { dst: Register(2), constant: Constant::Bool(false) },
            Instruction::RangeNext {
                dst: Register(3),
                cursor: Register(0),
                end: Register(1),
                done: Register(2),
                inclusive: false,
                target: 5,
            },
            Instruction::Jump { target: 3 },
        ]
    );
}

#[test]
fn for_over_an_inclusive_range_marks_the_step_inclusive() {
    let mut compiler = Compiler::new(facts());
    let statement = HirStmt::For {
        patterns: vec![binding("i")],
        iterable: Some(binary(HirBinaryOp::RangeInclusive, lit(1), lit(2))),
        body: Some(HirBlock { statements: vec![] }),
    };
    assert_eq!(compiler.compile_hir_statement(&statement), Ok(false));
    let code = compiler.into_code();
    assert!(matches!(code[3], Instruction::RangeNext { inclusive: true, target: 5, .. }));
}

#[test]
fn for_with_two_patterns_counts_an_index() {
    let (mut compiler, registers) = compiler_with_locals(&["items"]);
    let items = registers[0];
    let statement = HirStmt::For {
        patterns: vec![binding("k"), binding("v")],
        iterable: Some(path("items")),
        body: Some(HirBlock { statements: vec![HirStmt::Expr { expression: Some(path("k")) }] }),
    };
    assert_eq!(compiler.compile_hir_statement(&statement), Ok(false));
    assert_eq!(compiler.local_count(), 1);
    assert_eq!(
        compiler.into_code(),
        vec![
            Instruction::IterInit { dst: Register(1), iterable: items },
            Instruction::LoadConst { dst: Register(3), constant: Constant::Int(0) },
            Instruction::LoadConst { dst: Register(4), constant: Constant::Int(1) },
            Instruction::IterNext { dst: Register(2), iterator: Register(1), target: 7 },
            Instruction::Move { dst: Register(5), src: Register(3) },
            Instruction::Add { dst: Register(3), lhs: Register(3), rhs: Register(4) },
            Instruction::Jump { target: 3 },
        ]
    );
}

#[test]
fn for_pattern_mismatch_goes_back_to_the_step() {
    let (mut compiler, registers) = compiler_with_locals(&["items"]);
    let items = registers[0];
    let statement = HirStmt::For {
        patterns: vec![HirPattern::Literal(Some(HirLiteral::Int(7)))],
        iterable: Some(path("items")),
        body: Some(HirBlock { statements: vec![] }),
    };
    assert_eq!(compiler.compile_hir_statement(&statement), Ok(false));
    assert_eq!(
        compiler.into_code(),
        vec![
            Instruction::IterInit { dst: Register(1), iterable: items },
            Instruction::IterNext { dst: Register(2), iterator: Register(1), target: 6 },
            Instruction::LoadConst { dst: Register(3), constant: Constant::Int(7) },
            Instruction::Equal { dst: Register(4), lhs: Register(2), rhs: Register(3) },
            Instruction::JumpIfFalse { condition: Register(4), target: 1 },
            Instruction::Jump { target: 1 },
        ]
    );
}

#[test]
fn for_whose_body_returns_does_not_jump_back() {
    let (mut compiler, registers) = compiler_with_locals(&["items"]);
    let items = registers[0];
    let statement = HirStmt::For {
        patterns: vec![binding("x")],
        iterable: Some(path("items")),
        body: Some(HirBlock { statements: vec![HirStmt::Return { value: Some(path("x")) }] }),
    };
    assert_eq!(compiler.compile_hir_statement(&statement), Ok(false));
    assert_eq!(
        compiler.into_code(),
        vec![
            Instruction::IterInit { dst: Register(1), iterable: items },
            Instruction::IterNext { dst: Register(2), iterator: Register(1), target: 3 },
            Instruction::Return { src: Register(2) },
        ]
    );
}

#[test]
fn for_without_an_iterable_or_a_body_is_refused() {
    let mut compiler = Compiler::new(facts());
    let no_iterable = HirStmt::For {
        patterns: vec![binding("x")],
        iterable: None,
        body: Some(HirBlock { statements: vec![] }),
    };
    assert_eq!(compiler.compile_hir_statement(&no_iterable), Err(CompileError::UnsupportedSyntax("statement")));
    let no_body = HirStmt::For { patterns: vec![binding("x")], iterable: Some(lit(1)), body: None };
    assert_eq!(compiler.compile_hir_statement(&no_body), Err(CompileError::UnsupportedSyntax("statement")));
}

#[test]
fn binary_operators_keep_their_operands_in_source_order() {
    let (mut compiler, registers) = compiler_with_locals(&["a", "b"]);
    let statement = HirStmt::Return { value: Some(binary(HirBinaryOp::Sub, path("a"), path("b"))) };
    assert_eq!(compiler.compile_hir_statement(&statement), Ok(true));
    assert_eq!(
        compiler.into_code(),
        vec![
            Instruction::Sub { dst: Register(2), lhs: registers[0], rhs: registers[1] },
            Instruction::Return { src: Register(2) },
        ]
    );
}

#[test]
fn not_of_an_equality_is_the_inverse_comparison() {
    let (mut compiler, registers) = compiler_with_locals(&["a", "b"]);
    let comparison = binary(HirBinaryOp::Equal, path("a"), path("b"));
    let negated = HirExpr::Unary {
        op: Some(HirUnaryOp::Not),
        operand: Some(Box::new(HirExpr::Paren(Some(Box::new(comparison))))),
    };
    assert_eq!(compiler.compile_hir_expression(&negated), Ok(Register(2)));
    assert_eq!(
        compiler.into_code(),
        vec![Instruction::NotEqual { dst: Register(2), lhs: registers[0], rhs: registers[1] }]
    );
}

#[test]
fn return_without_a_value_returns_unit() {
    let mut compiler = Compiler::new(facts());
    assert_eq!(compiler.compile_hir_statement(&HirStmt::Return { value: None }), Ok(true));
    assert_eq!(
        compiler.into_code(),
        vec![
            Instruction::LoadConst { dst: Register(0), constant: Constant::Unit },
            Instruction::Return { src: Register(0) },
        ]
    );
}

#[test]
fn if_value_without_else_leaves_unit_in_the_destination() {
    let (mut compiler, registers) = compiler_with_locals(&["flag"]);
    let dst = compiler.alloc_register().expect("a register");
    let value = HirIf {
        condition: Some(Box::new(path("flag"))),
        then_block: Some(HirBlock { statements: vec![HirStmt::Expr { expression: Some(lit(5)) }] }),
        else_branch: None,
    };
    assert_eq!(compiler.compile_hir_if_value_to(&value, dst), Ok(false));
    let code = compiler.into_code();
    assert_eq!(code[0], Instruction::JumpIfFalse { condition: registers[0], target: 4 });
    assert_eq!(code[code.len() - 1], Instruction::LoadConst { dst, constant: Constant::Unit });
}
