use lib::compiler::{I64CompareOp, Instruction, Register};
use lib::hir::HirBinaryOp;
use lib::operators::{
    binary_literal_op, binary_op_source_name, i64_compare_op, i64_immediate_instruction, i64_immediate_op_supported,
    BinaryLiteralOp, ComparisonTraitRequirement,
};

#[test]
fn operators_print_as_written() {
    assert_eq!(binary_op_source_name(HirBinaryOp::IdentityNotEqual), "!==");
    assert_eq!(binary_op_source_name(HirBinaryOp::RangeInclusive), "..=");
    assert_eq!(binary_op_source_name(HirBinaryOp::And), "&&");
}

#[test]
fn comparisons_require_their_traits() {
    assert_eq!(
        ComparisonTraitRequirement::for_op(HirBinaryOp::NotEqual),
        Some(ComparisonTraitRequirement { trait_name: "PartialEq", method_name: "eq", operator: "!=" })
    );
    assert_eq!(
        ComparisonTraitRequirement::for_op(HirBinaryOp::GreaterEqual),
        Some(ComparisonTraitRequirement { trait_name: "PartialOrd", method_name: "partial_cmp", operator: ">=" })
    );
    assert_eq!(ComparisonTraitRequirement::for_op(HirBinaryOp::IdentityEqual), None);
    assert_eq!(ComparisonTraitRequirement::for_op(HirBinaryOp::Add), None);
}

#[test]
fn literal_forms_cover_arithmetic_and_ordering() {
    assert_eq!(binary_literal_op(HirBinaryOp::Rem), Some(BinaryLiteralOp::Rem));
    assert_eq!(binary_literal_op(HirBinaryOp::Less), Some(BinaryLiteralOp::Less));
    assert_eq!(binary_literal_op(HirBinaryOp::Equal), None);
    assert_eq!(binary_literal_op(HirBinaryOp::Range), None);
    assert_eq!(i64_compare_op(HirBinaryOp::LessEqual), Some(I64CompareOp::LessEqual));
    assert_eq!(i64_compare_op(HirBinaryOp::IdentityEqual), None);
}

#[test]
fn i64_immediates_exclude_division_and_remainder_by_zero() {
    assert!(i64_immediate_op_supported(HirBinaryOp::Rem, 3));
    assert!(!i64_immediate_op_supported(HirBinaryOp::Rem, 0));
    assert!(!i64_immediate_op_supported(HirBinaryOp::Div, 3));
    let (dst, lhs) = (Register(2), Register(1));
    assert_eq!(
        i64_immediate_instruction(HirBinaryOp::Sub, dst, lhs, 7),
        Some(Instruction::I64SubImm { dst, lhs, imm: 7 })
    );
    assert_eq!(
        i64_immediate_instruction(HirBinaryOp::Greater, dst, lhs, -1),
        Some(Instruction::I64CmpImm { dst, op: I64CompareOp::Greater, lhs, imm: -1 })
    );
    assert_eq!(i64_immediate_instruction(HirBinaryOp::Rem, dst, lhs, 0), None);
    assert_eq!(i64_immediate_instruction(HirBinaryOp::IdentityEqual, dst, lhs, 1), None);
}
