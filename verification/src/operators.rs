use vstd::prelude::*;

use crate::compiler::{I64CompareOp, InstrModel, Instruction, Register};
use crate::hir::HirBinaryOp;

verus! {

/// How an arithmetic or comparison operator applies to a value and a
/// numeric literal whose type is settled at run time.
#[derive(Clone, Copy, Debug, PartialEq, Eq, Structural)]
pub enum BinaryLiteralOp {
    Add,
    Sub,
    Mul,
    Div,
    Rem,
    Less,
    LessEqual,
    Greater,
    GreaterEqual,
}

/// The operator as it is written in source.
pub open spec fn op_source_name(op: HirBinaryOp) -> Seq<char> {
    match op {
        HirBinaryOp::Add => "+"@,
        HirBinaryOp::Sub => "-"@,
        HirBinaryOp::Mul => "*"@,
        HirBinaryOp::Div => "/"@,
        HirBinaryOp::Rem => "%"@,
        HirBinaryOp::Equal => "=="@,
        HirBinaryOp::NotEqual => "!="@,
        HirBinaryOp::IdentityEqual => "==="@,
        HirBinaryOp::IdentityNotEqual => "!=="@,
        HirBinaryOp::Less => "<"@,
        HirBinaryOp::LessEqual => "<="@,
        HirBinaryOp::Greater => ">"@,
        HirBinaryOp::GreaterEqual => ">="@,
        HirBinaryOp::Range => ".."@,
        HirBinaryOp::RangeInclusive => "..="@,
        HirBinaryOp::Or => "||"@,
        HirBinaryOp::And => "&&"@,
    }
}

/// The operator as it is written in source.
pub fn binary_op_source_name(op: HirBinaryOp) -> (r: &'static str)
    ensures
        r@ == op_source_name(op),
{
    let r = match op {
        HirBinaryOp::Add => "+",
        HirBinaryOp::Sub => "-",
        HirBinaryOp::Mul => "*",
        HirBinaryOp::Div => "/",
        HirBinaryOp::Rem => "%",
        HirBinaryOp::Equal => "==",
        HirBinaryOp::NotEqual => "!=",
        HirBinaryOp::IdentityEqual => "===",
        HirBinaryOp::IdentityNotEqual => "!==",
        HirBinaryOp::Less => "<",
        HirBinaryOp::LessEqual => "<=",
        HirBinaryOp::Greater => ">",
        HirBinaryOp::GreaterEqual => ">=",
        HirBinaryOp::Range => "..",
        HirBinaryOp::RangeInclusive => "..=",
        HirBinaryOp::Or => "||",
        HirBinaryOp::And => "&&",
    };
    r
}

/// The trait method a script type needs for a comparison operator.
#[derive(Debug, PartialEq, Eq)]
pub struct ComparisonTraitRequirement {
    pub trait_name: &'static str,
    pub method_name: &'static str,
    pub operator: &'static str,
}

/// Equality needs `PartialEq::eq`, ordering `PartialOrd::partial_cmp`;
/// other operators need no trait.
pub open spec fn comparison_requirement(op: HirBinaryOp) -> Option<(Seq<char>, Seq<char>)> {
    match op {
        HirBinaryOp::Equal | HirBinaryOp::NotEqual => Some(("PartialEq"@, "eq"@)),
        HirBinaryOp::Less | HirBinaryOp::LessEqual | HirBinaryOp::Greater | HirBinaryOp::GreaterEqual => Some(
            ("PartialOrd"@, "partial_cmp"@),
        ),
        _ => None,
    }
}

impl ComparisonTraitRequirement {
    /// The requirement an operator places on the type of its operands.
    pub fn for_op(op: HirBinaryOp) -> (r: Option<Self>)
        ensures
            match (r, comparison_requirement(op)) {
                (Some(req), Some((t, m))) => req.trait_name@ == t && req.method_name@ == m && req.operator@
                    == op_source_name(op),
                (None, None) => true,
                _ => false,
            },
    {
        match op {
            HirBinaryOp::Equal | HirBinaryOp::NotEqual => Some(
                ComparisonTraitRequirement {
                    trait_name: "PartialEq",
                    method_name: "eq",
                    operator: binary_op_source_name(op),
                },
            ),
            HirBinaryOp::Less | HirBinaryOp::LessEqual | HirBinaryOp::Greater | HirBinaryOp::GreaterEqual => Some(
                ComparisonTraitRequirement {
                    trait_name: "PartialOrd",
                    method_name: "partial_cmp",
                    operator: binary_op_source_name(op),
                },
            ),
            _ => None,
        }
    }
}

/// The literal form of an arithmetic or ordering operator; equality,
/// identity, ranges and logic have none.
pub open spec fn literal_op(op: HirBinaryOp) -> Option<BinaryLiteralOp> {
    match op {
        HirBinaryOp::Add => Some(BinaryLiteralOp::Add),
        HirBinaryOp::Sub => Some(BinaryLiteralOp::Sub),
        HirBinaryOp::Mul => Some(BinaryLiteralOp::Mul),
        HirBinaryOp::Div => Some(BinaryLiteralOp::Div),
        HirBinaryOp::Rem => Some(BinaryLiteralOp::Rem),
        HirBinaryOp::Less => Some(BinaryLiteralOp::Less),
        HirBinaryOp::LessEqual => Some(BinaryLiteralOp::LessEqual),
        HirBinaryOp::Greater => Some(BinaryLiteralOp::Greater),
        HirBinaryOp::GreaterEqual => Some(BinaryLiteralOp::GreaterEqual),
        _ => None,
    }
}

/// The literal form of an operator.
pub fn binary_literal_op(op: HirBinaryOp) -> (r: Option<BinaryLiteralOp>)
    ensures
        r == literal_op(op),
{
    match op {
        HirBinaryOp::Add => Some(BinaryLiteralOp::Add),
        HirBinaryOp::Sub => Some(BinaryLiteralOp::Sub),
        HirBinaryOp::Mul => Some(BinaryLiteralOp::Mul),
        HirBinaryOp::Div => Some(BinaryLiteralOp::Div),
        HirBinaryOp::Rem => Some(BinaryLiteralOp::Rem),
        HirBinaryOp::Less => Some(BinaryLiteralOp::Less),
        HirBinaryOp::LessEqual => Some(BinaryLiteralOp::LessEqual),
        HirBinaryOp::Greater => Some(BinaryLiteralOp::Greater),
        HirBinaryOp::GreaterEqual => Some(BinaryLiteralOp::GreaterEqual),
        _ => None,
    }
}

/// The `i64` comparison an operator stands for; identity comparisons have none.
pub open spec fn i64_compare(op: HirBinaryOp) -> Option<I64CompareOp> {
    match op {
        HirBinaryOp::Equal => Some(I64CompareOp::Equal),
        HirBinaryOp::NotEqual => Some(I64CompareOp::NotEqual),
        HirBinaryOp::Less => Some(I64CompareOp::Less),
        HirBinaryOp::LessEqual => Some(I64CompareOp::LessEqual),
        HirBinaryOp::Greater => Some(I64CompareOp::Greater),
        HirBinaryOp::GreaterEqual => Some(I64CompareOp::GreaterEqual),
        _ => None,
    }
}

/// The `i64` comparison an operator stands for.
pub fn i64_compare_op(op: HirBinaryOp) -> (r: Option<I64CompareOp>)
    ensures
        r == i64_compare(op),
{
    match op {
        HirBinaryOp::Equal => Some(I64CompareOp::Equal),
        HirBinaryOp::NotEqual => Some(I64CompareOp::NotEqual),
        HirBinaryOp::IdentityEqual | HirBinaryOp::IdentityNotEqual => None,
        HirBinaryOp::Less => Some(I64CompareOp::Less),
        HirBinaryOp::LessEqual => Some(I64CompareOp::LessEqual),
        HirBinaryOp::Greater => Some(I64CompareOp::Greater),
        HirBinaryOp::GreaterEqual => Some(I64CompareOp::GreaterEqual),
        _ => None,
    }
}

/// An `i64` operation with an immediate right operand exists for `+`, `-`,
/// `*`, the ordering and equality comparisons, and `%` by anything but zero.
pub open spec fn i64_immediate_supported(op: HirBinaryOp, imm: i64) -> bool {
    match op {
        HirBinaryOp::Add | HirBinaryOp::Sub | HirBinaryOp::Mul | HirBinaryOp::Equal | HirBinaryOp::NotEqual
        | HirBinaryOp::Less | HirBinaryOp::LessEqual | HirBinaryOp::Greater | HirBinaryOp::GreaterEqual => true,
        HirBinaryOp::Rem => imm != 0,
        _ => false,
    }
}

/// Whether an `i64` operation with this immediate exists.
pub fn i64_immediate_op_supported(op: HirBinaryOp, imm: i64) -> (r: bool)
    ensures
        r == i64_immediate_supported(op, imm),
{
    match op {
        HirBinaryOp::Add | HirBinaryOp::Sub | HirBinaryOp::Mul | HirBinaryOp::Equal | HirBinaryOp::NotEqual
        | HirBinaryOp::Less | HirBinaryOp::LessEqual | HirBinaryOp::Greater | HirBinaryOp::GreaterEqual => true,
        HirBinaryOp::Rem => imm != 0,
        _ => false,
    }
}

/// The instruction `dst = lhs op imm` on `i64` values, when there is one.
pub open spec fn i64_immediate(op: HirBinaryOp, dst: Register, lhs: Register, imm: i64) -> Option<InstrModel> {
    if !i64_immediate_supported(op, imm) {
        None
    } else {
        match op {
            HirBinaryOp::Add => Some(InstrModel::I64AddImm(dst, lhs, imm)),
            HirBinaryOp::Sub => Some(InstrModel::I64SubImm(dst, lhs, imm)),
            HirBinaryOp::Mul => Some(InstrModel::I64MulImm(dst, lhs, imm)),
            HirBinaryOp::Rem => Some(InstrModel::I64RemImm(dst, lhs, imm)),
            _ => match i64_compare(op) {
                Some(c) => Some(InstrModel::I64CmpImm(dst, c, lhs, imm)),
                None => None,
            },
        }
    }
}

/// The instruction `dst = lhs op imm` on `i64` values, when there is one.
pub fn i64_immediate_instruction(op: HirBinaryOp, dst: Register, lhs: Register, imm: i64) -> (r: Option<
    Instruction,
>)
    ensures
        match r {
            Some(i) => i64_immediate(op, dst, lhs, imm) == Some(i@),
            None => i64_immediate(op, dst, lhs, imm) is None,
        },
{
    if !i64_immediate_op_supported(op, imm) {
        return None;
    }
    match op {
        HirBinaryOp::Add => Some(Instruction::I64AddImm { dst, lhs, imm }),
        HirBinaryOp::Sub => Some(Instruction::I64SubImm { dst, lhs, imm }),
        HirBinaryOp::Mul => Some(Instruction::I64MulImm { dst, lhs, imm }),
        HirBinaryOp::Rem => Some(Instruction::I64RemImm { dst, lhs, imm }),
        HirBinaryOp::Equal | HirBinaryOp::NotEqual | HirBinaryOp::Less | HirBinaryOp::LessEqual
        | HirBinaryOp::Greater | HirBinaryOp::GreaterEqual => match i64_compare_op(op) {
            Some(c) => Some(Instruction::I64CmpImm { dst, op: c, lhs, imm }),
            None => None,
        },
        _ => None,
    }
}

} // verus!
