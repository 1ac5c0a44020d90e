use lib::compiler::{Constant, Instruction, Register, TypeIdRef, VariantIdRef};
use lib::mir::{MirFunction, MirFunctionAnalyses};
use lib::mir_backend::{
    FunctionBackend, MirAggregate, MirBackendError, MirDynamicBinaryOp, MirDynamicUnaryOp, MirIdentityOp, MirImmediate,
    MirOperand, MirPlace, MirStatementAction, MirStatementKind, MirTargets, MirUnaryOp,
};

fn empty_analyses() -> MirFunctionAnalyses {
    MirFunctionAnalyses {
        budget_statement_before: vec![],
        budget_terminator_before: vec![],
        budget_edges: vec![],
        statement_live_before: vec![],
        statement_live_after: vec![],
        block_live_in: vec![],
        block_live_out: vec![],
        debug_statement_before: vec![],
        debug_block_entry: vec![],
        safepoint_live_roots: vec![],
    }
}

fn function(locals: Vec<u32>, temps: Vec<u32>) -> MirFunction {
    MirFunction { entry_block: 0, blocks: vec![], statements: vec![], locals, temps }
}

fn targets() -> MirTargets {
    MirTargets {
        types: vec![(100, "app::Point".to_string()), (200, "app::Shape".to_string())],
        fields: vec![(1, "x".to_string()), (2, "y".to_string())],
        variants: vec![(7, "Circle".to_string())],
    }
}

fn backend() -> FunctionBackend {
    FunctionBackend::new(targets(), &vec![(3, empty_analyses())], 3, &function(vec![10, 11], vec![20]))
        .expect("a backend")
}

#[test]
fn locals_then_temporaries_get_the_first_registers() {
    let mut b = backend();
    assert_eq!(b.operand(&MirOperand::Local(10)), Ok(Register(0)));
    assert_eq!(b.operand(&MirOperand::Local(11)), Ok(Register(1)));
    assert_eq!(b.operand(&MirOperand::Temp(20)), Ok(Register(2)));
    assert!(b.code_instructions().is_empty());
}

#[test]
fn a_function_without_analyses_is_refused() {
    let r = FunctionBackend::new(targets(), &vec![(4, empty_analyses())], 3, &function(vec![], vec![]));
    assert!(matches!(r, Err(MirBackendError::MissingMirFunction(3))));
}

#[test]
fn too_many_values_for_the_registers_are_refused() {
    let locals: Vec<u32> = (0..40000).collect();
    let temps: Vec<u32> = (0..30000).collect();
    let r = FunctionBackend::new(targets(), &vec![(3, empty_analyses())], 3, &function(locals, temps));
    assert!(matches!(r, Err(MirBackendError::RegisterOverflow)));
    let locals: Vec<u32> = (0..40000).collect();
    let temps: Vec<u32> = (0..25535).collect();
    assert!(FunctionBackend::new(targets(), &vec![(3, empty_analyses())], 3, &function(locals, temps)).is_ok());
}

#[test]
fn tuples_load_their_constants_into_fresh_registers_in_order() {
    let mut b = backend();
    let aggregate = MirAggregate::Tuple(vec![
        MirOperand::Immediate(MirImmediate::Int(5)),
        MirOperand::Local(11),
        MirOperand::Immediate(MirImmediate::Char('z')),
    ]);
    assert_eq!(b.allocate(Register(2), &aggregate), Ok(()));
    assert_eq!(
        b.code_instructions(),
        &vec![
            Instruction::LoadConst { dst: Register(3), constant: Constant::Int(5) },
            Instruction::LoadConst { dst: Register(4), constant: Constant::Char('z') },
            Instruction::MakeTuple { dst: Register(2), elements: vec![Register(3), Register(1), Register(4)] },
        ]
    );
}

#[test]
fn records_of_declared_types_use_declared_names() {
    let mut b = backend();
    let aggregate = MirAggregate::Record {
        type_id: 100,
        fields: vec![(1, MirOperand::Local(10)), (2, MirOperand::Immediate(MirImmediate::Bool(true)))],
    };
    assert_eq!(b.allocate(Register(2), &aggregate), Ok(()));
    assert_eq!(
        b.code_instructions(),
        &vec![
            Instruction::LoadConst { dst: Register(3), constant: Constant::Bool(true) },
            Instruction::MakeRecord {
                dst: Register(2),
                record_type: "app::Point".to_string(),
                type_id: TypeIdRef::Declared(100),
                fields: vec![("x".to_string(), Register(0)), ("y".to_string(), Register(3))],
            },
        ]
    );
}

#[test]
fn undeclared_types_fields_and_variants_are_reported() {
    let mut b = backend();
    let unknown_type = MirAggregate::Record { type_id: 999, fields: vec![] };
    assert_eq!(b.allocate(Register(2), &unknown_type), Err(MirBackendError::MissingTarget("type")));
    let unknown_field = MirAggregate::Record { type_id: 100, fields: vec![(9, MirOperand::Local(10))] };
    assert_eq!(b.allocate(Register(2), &unknown_field), Err(MirBackendError::MissingTarget("field")));
    let unknown_variant = MirAggregate::Enum { type_id: 200, variant: 8, fields: vec![] };
    assert_eq!(b.allocate(Register(2), &unknown_variant), Err(MirBackendError::MissingTarget("variant")));
    let unknown_function = MirAggregate::Closure { function: 42, captures: vec![] };
    assert_eq!(b.allocate(Register(2), &unknown_function), Err(MirBackendError::MissingMirFunction(42)));
}

#[test]
fn variants_and_closures_name_what_they_build() {
    let mut b = backend();
    let circle = MirAggregate::Enum { type_id: 200, variant: 7, fields: vec![(1, MirOperand::Temp(20))] };
    assert_eq!(b.allocate(Register(2), &circle), Ok(()));
    b.record_nested_function(42, 5);
    let closure = MirAggregate::Closure { function: 42, captures: vec![MirOperand::Local(11)] };
    assert_eq!(b.allocate(Register(0), &closure), Ok(()));
    assert_eq!(
        b.code_instructions(),
        &vec![
            Instruction::MakeEnum {
                dst: Register(2),
                enum_name: "app::Shape".to_string(),
                type_id: TypeIdRef::Declared(200),
                variant: "Circle".to_string(),
                variant_id: VariantIdRef::Declared(7),
                fields: vec![("x".to_string(), Register(2))],
            },
            Instruction::MakeClosure { dst: Register(0), function: 5, captures: vec![Register(1)] },
        ]
    );
}

#[test]
fn values_known_only_by_name_carry_anonymous_ids() {
    let mut b = backend();
    let record = MirAggregate::DynamicRecord {
        record_type: "Pair".to_string(),
        fields: vec![("a".to_string(), MirOperand::Local(10))],
    };
    assert_eq!(b.allocate(Register(2), &record), Ok(()));
    let variant = MirAggregate::DynamicVariant {
        owner_name: "Opt".to_string(),
        variant_name: "Some".to_string(),
        fields: vec![],
    };
    assert_eq!(b.allocate(Register(2), &variant), Ok(()));
    let set = MirAggregate::SetFromArray { source: MirOperand::Local(11) };
    assert_eq!(b.allocate(Register(2), &set), Ok(()));
    assert_eq!(
        b.code_instructions(),
        &vec![
            Instruction::MakeRecord {
                dst: Register(2),
                record_type: "Pair".to_string(),
                type_id: TypeIdRef::Anonymous("Pair".to_string()),
                fields: vec![("a".to_string(), Register(0))],
            },
            Instruction::MakeEnum {
                dst: Register(2),
                enum_name: "Opt".to_string(),
                type_id: TypeIdRef::Anonymous("Opt".to_string()),
                variant: "Some".to_string(),
                variant_id: VariantIdRef::Anonymous("Opt".to_string(), "Some".to_string()),
                fields: vec![],
            },
            Instruction::MakeSetFromArray { dst: Register(2), src: Register(1) },
        ]
    );
}

#[test]
fn map_literals_keep_their_keys() {
    let mut b = backend();
    let map = MirAggregate::MapLiteral(vec![
        ("k".to_string(), MirOperand::Immediate(MirImmediate::Unit)),
        ("v".to_string(), MirOperand::Temp(20)),
    ]);
    assert_eq!(b.allocate(Register(1), &map), Ok(()));
    assert_eq!(
        b.code_instructions(),
        &vec![
            Instruction::LoadConst { dst: Register(3), constant: Constant::Unit },
            Instruction::MakeMap {
                dst: Register(1),
                entries: vec![("k".to_string(), Register(3)), ("v".to_string(), Register(2))],
            },
        ]
    );
}

#[test]
fn statements_compute_into_their_destination() {
    let mut b = backend();
    let subtract = MirStatementAction {
        destination: Some(MirPlace::Temp(20)),
        kind: MirStatementKind::DynamicBinary {
            operation: MirDynamicBinaryOp::Subtract,
            left: MirOperand::Local(10),
            right: MirOperand::Immediate(MirImmediate::Int(1)),
        },
    };
    assert_eq!(b.statement(&subtract), Ok(()));
    let negate = MirStatementAction {
        destination: Some(MirPlace::Local(11)),
        kind: MirStatementKind::Unary { operation: MirUnaryOp::Negate, operand: MirOperand::Temp(20) },
    };
    assert_eq!(b.statement(&negate), Ok(()));
    let same = MirStatementAction {
        destination: Some(MirPlace::Local(10)),
        kind: MirStatementKind::IdentityCompare {
            operation: MirIdentityOp::NotEqual,
            left: MirOperand::Local(11),
            right: MirOperand::Temp(20),
        },
    };
    assert_eq!(b.statement(&same), Ok(()));
    let range = MirStatementAction {
        destination: Some(MirPlace::Temp(20)),
        kind: MirStatementKind::MakeRange {
            start: MirOperand::Immediate(MirImmediate::Int(0)),
            end: MirOperand::Local(10),
            inclusive: true,
        },
    };
    assert_eq!(b.statement(&range), Ok(()));
    let field = MirStatementAction {
        destination: Some(MirPlace::Local(11)),
        kind: MirStatementKind::TupleField { tuple: MirOperand::Temp(20), index: 1 },
    };
    assert_eq!(b.statement(&field), Ok(()));
    assert_eq!(
        b.code_instructions(),
        &vec![
            Instruction::LoadConst { dst: Register(3), constant: Constant::Int(1) },
            Instruction::Sub { dst: Register(2), lhs: Register(0), rhs: Register(3) },
            Instruction::Negate { dst: Register(1), src: Register(2) },
            Instruction::IdentityNotEqual { dst: Register(0), lhs: Register(1), rhs: Register(2) },
            Instruction::LoadConst { dst: Register(4), constant: Constant::Int(0) },
            Instruction::MakeRange { dst: Register(2), start: Register(4), end: Register(0), inclusive: true },
            Instruction::GetTupleField { dst: Register(1), value: Register(2), index: 1 },
        ]
    );
}

#[test]
fn statements_without_a_destination_are_refused() {
    let mut b = backend();
    let not = MirStatementAction {
        destination: None,
        kind: MirStatementKind::DynamicUnary { operation: MirDynamicUnaryOp::Not, operand: MirOperand::Local(10) },
    };
    assert_eq!(b.statement(&not), Err(MirBackendError::MissingDestination));
    let build = MirStatementAction {
        destination: None,
        kind: MirStatementKind::Allocate(MirAggregate::Tuple(vec![])),
    };
    assert_eq!(b.statement(&build), Err(MirBackendError::MissingDestination));
}
