use lib::compiler::{CompileError, Compiler, CompilerFacts, Constant, FormatPart, Instruction, Register};
use lib::field_slots::ScriptFieldSlots;
use lib::hir::{HirExpr, HirInterpolatedPart, HirLiteral};
use lib::options::CompilerOptions;

fn facts() -> CompilerFacts {
    CompilerFacts {
        options: CompilerOptions::new(),
        type_symbols: vec![],
        global_slots: vec![],
        script_field_slots: ScriptFieldSlots::new(),
        pattern_declarations: vec![],
    }
}

#[test]
fn interpolated_strings_format_text_and_values_in_order() {
    let mut compiler = Compiler::new(facts());
    let name = compiler.alloc_register().expect("a register");
    compiler.bind_local("name".to_string(), name);
    let e = HirExpr::Interpolated(vec![
        HirInterpolatedPart::Text("hi ".to_string()),
        HirInterpolatedPart::Expr(HirExpr::Path(vec!["name".to_string()])),
        HirInterpolatedPart::Text(" #".to_string()),
        HirInterpolatedPart::Expr(HirExpr::Literal(HirLiteral::Int(2))),
    ]);
    assert_eq!(compiler.compile_hir_expression(&e), Ok(Register(2)));
    assert_eq!(
        compiler.into_code(),
        vec![
            Instruction::LoadConst { dst: Register(1), constant: Constant::Int(2) },
            Instruction::FormatString {
                dst: Register(2),
                parts: vec![
                    FormatPart::Text("hi ".to_string()),
                    FormatPart::Value(name),
                    FormatPart::Text(" #".to_string()),
                    FormatPart::Value(Register(1)),
                ],
            },
        ]
    );
}

#[test]
fn interpolated_strings_refuse_what_their_expressions_refuse() {
    let mut compiler = Compiler::new(facts());
    let e = HirExpr::Interpolated(vec![HirInterpolatedPart::Expr(HirExpr::Missing)]);
    assert_eq!(compiler.compile_hir_expression(&e), Err(CompileError::UnsupportedSyntax("expression")));
}

#[test]
fn tuples_lower_their_elements_in_order_then_build_from_their_registers() {
    let mut compiler = Compiler::new(facts());
    let x = compiler.alloc_register().expect("a register");
    compiler.bind_local("x".to_string(), x);
    let e = HirExpr::Tuple(vec![
        HirExpr::Literal(HirLiteral::Int(7)),
        HirExpr::Path(vec!["x".to_string()]),
        HirExpr::Literal(HirLiteral::Bool(true)),
    ]);
    assert_eq!(compiler.compile_hir_expression(&e), Ok(Register(3)));
    assert_eq!(
        compiler.into_code(),
        vec![
            Instruction::LoadConst { dst: Register(1), constant: Constant::Int(7) },
            Instruction::LoadConst { dst: Register(2), constant: Constant::Bool(true) },
            Instruction::MakeTuple { dst: Register(3), elements: vec![Register(1), x, Register(2)] },
        ]
    );
}
