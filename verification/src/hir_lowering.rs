use vstd::prelude::*;

use crate::compiler::{
    format_parts_model, global_slot_of, is_jump, local_lookup, retarget, CompileError, Compiler, ConstModel, Constant,
    FormatPart, FormatPartModel, InstrModel, Instruction, Register, PENDING_TARGET,
};
use crate::expr_shapes::expr_shape;
use crate::lowerable::{
    binary_operands_lowerable, block_lowerable, block_returns, block_value_lowerable, block_value_returns,
    expr_lowerable, exprs_lowerable, if_stmt_lowerable, if_stmt_returns, if_value_lowerable, if_value_returns,
    entries_lowerable, lemma_entries_lowerable, lemma_exprs_lowerable, logical_lowerable, step_outcome, stmt_lowerable, stmt_returns, stmts_lowerable,
    stmts_return, value_prefix_len, parts_lowerable, lemma_parts_lowerable, is_str_literal, map_key_missing_first, };
use crate::hir::{
    HirBinaryOp, HirBlock, HirBodyRoot, HirElseBranch, HirExpr, HirIf, HirInterpolatedPart, HirLiteral, HirPattern,
    HirStmt, HirUnaryOp,
};
use crate::match_lowering::{lemma_match_written_earlier, lemma_match_written_frame, match_written, pattern_declares_local};
use crate::logical_lowering::logical_lowered;
use crate::record_shapes::{field_index, has_field, ShapeModel};
use crate::text::{decimal_index, parse_decimal_index};

verus! {

/// A jump's target lies in `[lo, hi]`; other instructions are fine.
pub open spec fn jump_ok(i: InstrModel, lo: int, hi: int) -> bool {
    match i {
        InstrModel::Jump(t) => lo <= t <= hi,
        InstrModel::JumpIfFalse(_, t) => lo <= t <= hi,
        InstrModel::IterNext(_, _, t) => lo <= t <= hi,
        InstrModel::RangeNext(_, _, _, _, _, t) => lo <= t <= hi,
        _ => true,
    }
}

/// `code` extends `base`, and every jump appended after `base`, except those
/// at the `pending` offsets, targets an offset of the appended code or its end.
pub open spec fn pending_region(base: Seq<InstrModel>, code: Seq<InstrModel>, pending: Set<int>) -> bool {
    &&& base.len() <= code.len()
    &&& code.subrange(0, base.len() as int) == base
    &&& forall|p: int| #[trigger] pending.contains(p) ==> base.len() <= p < code.len() && is_jump(code[p])
    &&& forall|k: int|
        base.len() <= k < code.len() && !pending.contains(k) ==> #[trigger] jump_ok(
            code[k],
            base.len() as int,
            code.len() as int,
        )
}

/// `code` is `base` followed by lowered code: nothing before is changed, and
/// every jump in the new code lands inside the new code or just after it.
pub open spec fn lowered(base: Seq<InstrModel>, code: Seq<InstrModel>) -> bool {
    pending_region(base, code, Set::empty())
}

pub proof fn lemma_region_start(base: Seq<InstrModel>)
    ensures
        lowered(base, base),
{
    assert(base.subrange(0, base.len() as int) =~= base);
}

pub proof fn lemma_region_push(base: Seq<InstrModel>, code: Seq<InstrModel>, pending: Set<int>, i: InstrModel)
    requires
        pending_region(base, code, pending),
        !is_jump(i),
    ensures
        pending_region(base, code.push(i), pending),
{
    let c2 = code.push(i);
    assert(c2.subrange(0, base.len() as int) =~= code.subrange(0, base.len() as int));
    assert forall|k: int| base.len() <= k < c2.len() && !pending.contains(k) implies #[trigger] jump_ok(
        c2[k],
        base.len() as int,
        c2.len() as int,
    ) by {
        if k < code.len() {
            assert(jump_ok(code[k], base.len() as int, code.len() as int));
        }
    }
    assert forall|p: int| pending.contains(p) implies base.len() <= p < c2.len() && is_jump(c2[p]) by {
        assert(is_jump(code[p]));
        assert(c2[p] == code[p]);
    }
    assert(c2.subrange(0, base.len() as int) == base);
    assert(base.len() <= c2.len());
}

pub proof fn lemma_region_push_jump(base: Seq<InstrModel>, code: Seq<InstrModel>, pending: Set<int>, j: InstrModel)
    requires
        pending_region(base, code, pending),
        is_jump(j),
    ensures
        pending_region(base, code.push(j), pending.insert(code.len() as int)),
{
    let c2 = code.push(j);
    let p2 = pending.insert(code.len() as int);
    assert(c2.subrange(0, base.len() as int) =~= code.subrange(0, base.len() as int));
    assert forall|k: int| base.len() <= k < c2.len() && !p2.contains(k) implies #[trigger] jump_ok(
        c2[k],
        base.len() as int,
        c2.len() as int,
    ) by {
        assert(jump_ok(code[k], base.len() as int, code.len() as int));
    }
    assert forall|p: int| p2.contains(p) implies base.len() <= p < c2.len() && is_jump(c2[p]) by {
        if p != code.len() {
            assert(is_jump(code[p]));
        }
    }
}

pub proof fn lemma_region_lowered(base: Seq<InstrModel>, c1: Seq<InstrModel>, c2: Seq<InstrModel>, pending: Set<int>)
    requires
        pending_region(base, c1, pending),
        lowered(c1, c2),
    ensures
        pending_region(base, c2, pending),
{
    assert forall|k: int| 0 <= k < c1.len() implies #[trigger] c2[k] == c1[k] by {
        assert(c2.subrange(0, c1.len() as int)[k] == c2[k]);
    }
    assert(c2.subrange(0, base.len() as int) =~= c1.subrange(0, base.len() as int));
    assert forall|k: int| base.len() <= k < c2.len() && !pending.contains(k) implies #[trigger] jump_ok(
        c2[k],
        base.len() as int,
        c2.len() as int,
    ) by {
        if k < c1.len() {
            assert(jump_ok(c1[k], base.len() as int, c1.len() as int));
        } else {
            assert(jump_ok(c2[k], c1.len() as int, c2.len() as int));
        }
    }
    assert forall|p: int| pending.contains(p) implies base.len() <= p < c2.len() && is_jump(c2[p]) by {
        assert(is_jump(c1[p]));
    }
}

pub proof fn lemma_region_patch(base: Seq<InstrModel>, code: Seq<InstrModel>, pending: Set<int>, p: int, target: usize)
    requires
        pending_region(base, code, pending),
        pending.contains(p),
        base.len() <= target <= code.len(),
    ensures
        pending_region(base, code.update(p, retarget(code[p], target)), pending.remove(p)),
{
    let c2 = code.update(p, retarget(code[p], target));
    let p2 = pending.remove(p);
    assert(c2.subrange(0, base.len() as int) =~= code.subrange(0, base.len() as int));
    assert forall|k: int| base.len() <= k < c2.len() && !p2.contains(k) implies #[trigger] jump_ok(
        c2[k],
        base.len() as int,
        c2.len() as int,
    ) by {
        if k != p {
            assert(jump_ok(code[k], base.len() as int, code.len() as int));
        }
    }
    assert forall|q: int| p2.contains(q) implies base.len() <= q < c2.len() && is_jump(c2[q]) by {
        assert(is_jump(code[q]));
    }
}

/// Which operand of a binary expression is the numeric literal.
#[derive(Clone, Copy, Debug, PartialEq, Eq, Structural)]
pub enum BinaryLiteralSide {
    Left,
    Right,
}

/// The operators a numeric literal operand can be folded into.
pub open spec fn is_numeric_literal_op(op: HirBinaryOp) -> bool {
    match op {
        HirBinaryOp::Add | HirBinaryOp::Sub | HirBinaryOp::Mul | HirBinaryOp::Div | HirBinaryOp::Rem
        | HirBinaryOp::Less | HirBinaryOp::LessEqual | HirBinaryOp::Greater | HirBinaryOp::GreaterEqual => true,
        _ => false,
    }
}

/// The instruction for a non-logical binary operator over two registers.
pub open spec fn binary_instr(op: HirBinaryOp, dst: Register, lhs: Register, rhs: Register) -> InstrModel {
    match op {
        HirBinaryOp::Add => InstrModel::Add(dst, lhs, rhs),
        HirBinaryOp::Sub => InstrModel::Sub(dst, lhs, rhs),
        HirBinaryOp::Mul => InstrModel::Mul(dst, lhs, rhs),
        HirBinaryOp::Div => InstrModel::Div(dst, lhs, rhs),
        HirBinaryOp::Rem => InstrModel::Rem(dst, lhs, rhs),
        HirBinaryOp::Less => InstrModel::Less(dst, lhs, rhs),
        HirBinaryOp::LessEqual => InstrModel::LessEqual(dst, lhs, rhs),
        HirBinaryOp::Greater => InstrModel::Greater(dst, lhs, rhs),
        HirBinaryOp::GreaterEqual => InstrModel::GreaterEqual(dst, lhs, rhs),
        HirBinaryOp::Equal => InstrModel::Equal(dst, lhs, rhs),
        HirBinaryOp::NotEqual => InstrModel::NotEqual(dst, lhs, rhs),
        HirBinaryOp::IdentityEqual => InstrModel::IdentityEqual(dst, lhs, rhs),
        HirBinaryOp::IdentityNotEqual => InstrModel::IdentityNotEqual(dst, lhs, rhs),
        HirBinaryOp::Range => InstrModel::MakeRange(dst, lhs, rhs, false),
        HirBinaryOp::RangeInclusive => InstrModel::MakeRange(dst, lhs, rhs, true),
        HirBinaryOp::And | HirBinaryOp::Or => InstrModel::Move(dst, lhs),
    }
}

/// The instruction for a numeric operator between a value and a numeric
/// literal, with the literal on the given side.
pub fn hir_non_logical_binary_instruction(
    op: HirBinaryOp,
    dst: Register,
    value: Register,
    literal: Register,
    side: BinaryLiteralSide,
) -> (r: Instruction)
    requires
        is_numeric_literal_op(op),
    ensures
        r@ == match side {
            BinaryLiteralSide::Left => binary_instr(op, dst, literal, value),
            BinaryLiteralSide::Right => binary_instr(op, dst, value, literal),
        },
{
    let (lhs, rhs) = match side {
        BinaryLiteralSide::Left => (literal, value),
        BinaryLiteralSide::Right => (value, literal),
    };
    binary_instruction(op, dst, lhs, rhs)
}

fn binary_instruction(op: HirBinaryOp, dst: Register, lhs: Register, rhs: Register) -> (r: Instruction)
    ensures
        r@ == binary_instr(op, dst, lhs, rhs),
{
    match op {
        HirBinaryOp::Add => Instruction::Add { dst, lhs, rhs },
        HirBinaryOp::Sub => Instruction::Sub { dst, lhs, rhs },
        HirBinaryOp::Mul => Instruction::Mul { dst, lhs, rhs },
        HirBinaryOp::Div => Instruction::Div { dst, lhs, rhs },
        HirBinaryOp::Rem => Instruction::Rem { dst, lhs, rhs },
        HirBinaryOp::Less => Instruction::Less { dst, lhs, rhs },
        HirBinaryOp::LessEqual => Instruction::LessEqual { dst, lhs, rhs },
        HirBinaryOp::Greater => Instruction::Greater { dst, lhs, rhs },
        HirBinaryOp::GreaterEqual => Instruction::GreaterEqual { dst, lhs, rhs },
        HirBinaryOp::Equal => Instruction::Equal { dst, lhs, rhs },
        HirBinaryOp::NotEqual => Instruction::NotEqual { dst, lhs, rhs },
        HirBinaryOp::IdentityEqual => Instruction::IdentityEqual { dst, lhs, rhs },
        HirBinaryOp::IdentityNotEqual => Instruction::IdentityNotEqual { dst, lhs, rhs },
        HirBinaryOp::Range => Instruction::MakeRange { dst, start: lhs, end: rhs, inclusive: false },
        HirBinaryOp::RangeInclusive => Instruction::MakeRange { dst, start: lhs, end: rhs, inclusive: true },
        HirBinaryOp::And | HirBinaryOp::Or => Instruction::Move { dst, src: lhs },
    }
}

/// The operands of a chain of the same logical operator, left to right.
pub open spec fn logical_leaves(e: HirExpr, op: HirBinaryOp) -> Seq<HirExpr>
    decreases e,
{
    match e {
        HirExpr::Binary { op: Some(o), lhs: Some(l), rhs: Some(r) } => if o == op {
            logical_leaves(*l, op) + logical_leaves(*r, op)
        } else {
            seq![e]
        },
        _ => seq![e],
    }
}

/// The expressions behind a list of references.
pub open spec fn derefs(s: Seq<&HirExpr>) -> Seq<HirExpr> {
    Seq::new(s.len(), |i: int| *s[i])
}

/// The operands of `lhs op rhs`, with nested uses of the same operator flattened.
pub fn hir_logical_operands<'a>(op: HirBinaryOp, lhs: &'a HirExpr, rhs: &'a HirExpr) -> (r: Vec<&'a HirExpr>)
    ensures
        derefs(r@) == logical_leaves(*lhs, op) + logical_leaves(*rhs, op),
{
    let mut out: Vec<&'a HirExpr> = Vec::new();
    assert(derefs(out@) =~= Seq::<HirExpr>::empty());
    collect_logical_leaves(op, lhs, &mut out);
    collect_logical_leaves(op, rhs, &mut out);
    out
}

fn collect_logical_leaves<'a>(op: HirBinaryOp, e: &'a HirExpr, out: &mut Vec<&'a HirExpr>)
    ensures
        derefs(final(out)@) == derefs(old(out)@) + logical_leaves(*e, op),
    decreases e,
{
    match e {
        HirExpr::Binary { op: Some(o), lhs: Some(l), rhs: Some(r) } => {
            if *o == op {
                let ghost before = derefs(out@);
                collect_logical_leaves(op, &**l, out);
                collect_logical_leaves(op, &**r, out);
                assert(derefs(out@) =~= before + logical_leaves(*e, op));
                return;
            }
        },
        _ => {},
    }
    out.push(e);
    assert(derefs(out@) =~= derefs(old(out)@) + logical_leaves(*e, op));
}

/// Whether an expression, under its parentheses, is a path: its value may be
/// the register of a local rather than a fresh one.
pub open spec fn aliases_existing_register(e: HirExpr) -> bool
    decreases e,
{
    match e {
        HirExpr::Path(_) => true,
        HirExpr::Paren(Some(inner)) => aliases_existing_register(*inner),
        _ => false,
    }
}

/// Whether an expression, under its parentheses, is a path.
pub fn hir_expression_aliases_existing_register(expression: &HirExpr) -> (r: bool)
    ensures
        r == aliases_existing_register(*expression),
    decreases expression,
{
    match expression {
        HirExpr::Path(_) => true,
        HirExpr::Paren(Some(inner)) => hir_expression_aliases_existing_register(&**inner),
        _ => false,
    }
}

/// `s` begins with `prefix`.
pub open spec fn seq_extends<A>(prefix: Seq<A>, s: Seq<A>) -> bool {
    &&& prefix.len() <= s.len()
    &&& forall|i: int| 0 <= i < prefix.len() ==> #[trigger] s[i] == prefix[i]
}

/// The comparison `!e` lowers to when `e` (through parentheses) is an
/// equality or identity comparison with both operands.
pub open spec fn inverted_comparison(e: HirExpr) -> Option<HirBinaryOp>
    decreases e,
{
    match e {
        HirExpr::Paren(Some(inner)) => inverted_comparison(*inner),
        HirExpr::Binary { op: Some(op), lhs: Some(_), rhs: Some(_) } => match op {
            HirBinaryOp::Equal => Some(HirBinaryOp::NotEqual),
            HirBinaryOp::NotEqual => Some(HirBinaryOp::Equal),
            HirBinaryOp::IdentityEqual => Some(HirBinaryOp::IdentityNotEqual),
            HirBinaryOp::IdentityNotEqual => Some(HirBinaryOp::IdentityEqual),
            _ => None,
        },
        _ => None,
    }
}

/// Whether comparison `op` holds of two values, given whether they are
/// equal and whether they are the same object; `false` for an operator that
/// is not one of the four comparisons.
pub open spec fn comparison_holds(op: HirBinaryOp, equal: bool, identical: bool) -> bool {
    match op {
        HirBinaryOp::Equal => equal,
        HirBinaryOp::NotEqual => !equal,
        HirBinaryOp::IdentityEqual => identical,
        HirBinaryOp::IdentityNotEqual => !identical,
        _ => false,
    }
}

/// `op` is `==`, `!=`, `===` or `!==`.
pub open spec fn is_comparison(op: HirBinaryOp) -> bool {
    op == HirBinaryOp::Equal || op == HirBinaryOp::NotEqual || op == HirBinaryOp::IdentityEqual || op
        == HirBinaryOp::IdentityNotEqual
}

/// The operator of `e` looking through parentheses, when `e` is a binary
/// expression with both operands.
pub open spec fn binary_operator(e: HirExpr) -> Option<HirBinaryOp>
    decreases e,
{
    match e {
        HirExpr::Paren(Some(inner)) => binary_operator(*inner),
        HirExpr::Binary { op: Some(op), lhs: Some(_), rhs: Some(_) } => Some(op),
        _ => None,
    }
}

/// `!` of a comparison is lowered as a single comparison, and exactly then:
/// the operator put in its place is again one of the four comparisons, and
/// for any two values it holds exactly when the original comparison does
/// not.
pub proof fn law_not_of_comparison_is_its_inverse(e: HirExpr, equal: bool, identical: bool)
    ensures
        inverted_comparison(e) is Some <==> (binary_operator(e) matches Some(c) && is_comparison(c)),
        inverted_comparison(e) matches Some(inverse) ==> is_comparison(inverse) && comparison_holds(
            inverse,
            equal,
            identical,
        ) == !comparison_holds(binary_operator(e)->0, equal, identical),
    decreases e,
{
    match e {
        HirExpr::Paren(Some(inner)) => {
            law_not_of_comparison_is_its_inverse(*inner, equal, identical);
        },
        _ => {},
    }
}

/// The pieces of a formatted string follow the interpolated string's
/// pieces: the same text where it has text, a register's value where it
/// has an expression.
pub open spec fn format_matches(ps: Seq<FormatPartModel>, parts: Seq<HirInterpolatedPart>) -> bool {
    &&& ps.len() == parts.len()
    &&& forall|i: int|
        0 <= i < parts.len() ==> match (#[trigger] parts[i], ps[i]) {
            (HirInterpolatedPart::Text(t), FormatPartModel::Text(u)) => u == t@,
            (HirInterpolatedPart::Expr(_), FormatPartModel::Value(_)) => true,
            _ => false,
        }
}

/// The instruction reads its record, tuple or collection from `base`.
pub open spec fn reads_from(i: InstrModel, base: Register) -> bool {
    match i {
        InstrModel::GetTupleField(_, v, _) => v == base,
        InstrModel::GetRecordSlot(_, v, _, _) => v == base,
        InstrModel::GetRecordField(_, v, _) => v == base,
        InstrModel::GetIndex(_, b, _) => b == base,
        InstrModel::GetStringKeyIndex(_, b, _) => b == base,
        _ => false,
    }
}

/// Reading the element at `index` of the collection in `base`.
pub open spec fn get_index(dst: Register, base: Register, index: Register) -> InstrModel {
    InstrModel::GetIndex(dst, base, index)
}

/// Adding a register after those the pieces read changes none of them.
pub proof fn lemma_format_pieces_stable(parts: Seq<HirInterpolatedPart>, regs: Seq<Register>, extra: Register)
    requires
        part_exprs(parts).len() <= regs.len(),
    ensures
        format_pieces(parts, regs.push(extra)) == format_pieces(parts, regs),
    decreases parts.len(),
{
    if parts.len() > 0 {
        let front = parts.subrange(0, parts.len() - 1);
        lemma_part_exprs_prefix(parts);
        lemma_format_pieces_stable(front, regs, extra);
    }
}

/// The expressions of a prefix are no more than those of the whole.
pub proof fn lemma_part_exprs_prefix(parts: Seq<HirInterpolatedPart>)
    requires
        parts.len() > 0,
    ensures
        part_exprs(parts.subrange(0, parts.len() - 1)).len() <= part_exprs(parts).len(),
        parts[parts.len() - 1] is Expr ==> part_exprs(parts.subrange(0, parts.len() - 1)).len() < part_exprs(
            parts,
        ).len(),
{
}

/// The expression pieces of an interpolated string were lowered one after
/// the other from `before` to `after`, the `k`-th into `regs[k]`.
pub open spec fn parts_lowered(
    before: &Compiler,
    after: &Compiler,
    parts: Seq<HirInterpolatedPart>,
    regs: Seq<Register>,
) -> bool
    decreases parts, 0int,
{
    if parts.len() == 0 {
        &&& regs.len() == 0
        &&& after.code() == before.code()
        &&& after.next_register() == before.next_register()
    } else {
        let front = parts.subrange(0, parts.len() - 1);
        match parts[parts.len() - 1] {
            HirInterpolatedPart::Text(_) => parts_lowered(before, after, front, regs),
            HirInterpolatedPart::Expr(x) => {
                &&& regs.len() > 0
                &&& exists|m: Compiler|
                    #![trigger m.code()]
                    {
                        &&& parts_lowered(before, &m, front, regs.subrange(0, regs.len() - 1))
                        &&& lowered_value(&m, after, x, regs[regs.len() - 1])
                        &&& m.locals() == before.locals() && m.wf()
                        &&& before.next_register() <= m.next_register()
                    }
            },
        }
    }
}

/// The expressions of an interpolated string, in order.
pub open spec fn part_exprs(parts: Seq<HirInterpolatedPart>) -> Seq<HirExpr>
    decreases parts.len(),
{
    if parts.len() == 0 {
        Seq::empty()
    } else {
        let front = part_exprs(parts.subrange(0, parts.len() - 1));
        match parts[parts.len() - 1] {
            HirInterpolatedPart::Expr(x) => front.push(x),
            HirInterpolatedPart::Text(_) => front,
        }
    }
}

/// The pieces of the formatted string: each text piece as it is, each
/// expression piece as the next of `regs`, in order.
pub open spec fn format_pieces(parts: Seq<HirInterpolatedPart>, regs: Seq<Register>) -> Seq<FormatPartModel>
    decreases parts.len(),
{
    if parts.len() == 0 {
        Seq::empty()
    } else {
        let front_parts = parts.subrange(0, parts.len() - 1);
        format_pieces(front_parts, regs).push(
            match parts[parts.len() - 1] {
                HirInterpolatedPart::Text(t) => FormatPartModel::Text(t@),
                HirInterpolatedPart::Expr(_) => FormatPartModel::Value(regs[part_exprs(front_parts).len() as int]),
            },
        )
    }
}

/// Formatting the pieces of an interpolated string into `dst`, its
/// expressions read from `regs`.
pub open spec fn format_of(dst: Register, parts: Seq<HirInterpolatedPart>, regs: Seq<Register>) -> InstrModel {
    InstrModel::FormatString(dst, format_pieces(parts, regs))
}

/// Building a tuple from registers.
pub open spec fn make_tuple(dst: Register, regs: Seq<Register>) -> InstrModel {
    InstrModel::MakeTuple(dst, regs)
}

/// Building an array from registers.
pub open spec fn make_array(dst: Register, regs: Seq<Register>) -> InstrModel {
    InstrModel::MakeArray(dst, regs)
}

/// The expressions `es` were lowered one after the other from `before` to
/// `after`, the `k`-th into `regs[k]`, with the bindings unchanged.
pub open spec fn exprs_lowered(before: &Compiler, after: &Compiler, es: Seq<HirExpr>, regs: Seq<Register>) -> bool
    decreases es, 0int,
{
    if es.len() == 0 {
        &&& regs.len() == 0
        &&& after.code() == before.code()
        &&& after.next_register() == before.next_register()
    } else {
        &&& regs.len() == es.len()
        &&& exists|m: Compiler|
            #![trigger m.code()]
            {
                &&& exprs_lowered(before, &m, es.subrange(0, es.len() - 1), regs.subrange(0, regs.len() - 1))
                &&& lowered_value(&m, after, es[es.len() - 1], regs[regs.len() - 1])
                &&& m.locals() == before.locals() && m.wf()
                &&& before.next_register() <= m.next_register()
            }
    }
}

/// The instruction a unary operator lowers to.
pub open spec fn unary_instr(op: HirUnaryOp, dst: Register, src: Register) -> InstrModel {
    match op {
        HirUnaryOp::Not => InstrModel::Not(dst, src),
        HirUnaryOp::Negate => InstrModel::Negate(dst, src),
    }
}

/// `b`, looking through parentheses, is a binary expression whose left
/// operand was lowered first and its right operand next; the code then ends
/// with `op` on their registers, in that order, into a fresh register.
pub open spec fn binary_lowered(before: &Compiler, after: &Compiler, b: HirExpr, op: HirBinaryOp, r: Register) -> bool
    decreases b, 0int,
{
    match b {
        HirExpr::Paren(Some(inner)) => binary_lowered(before, after, *inner, op, r),
        HirExpr::Binary { lhs: Some(l), rhs: Some(rr), .. } => exists|m1: Compiler, m2: Compiler, a: Register, c: Register|
            #![trigger m1.code(), m2.code(), binary_instr(op, r, a, c)]
            {
                &&& lowered_value(before, &m1, *l, a)
                &&& lowered_value(&m1, &m2, *rr, c)
                &&& m1.locals() == before.locals() && m2.locals() == before.locals()
                &&& m1.wf() && m2.wf()
                &&& before.next_register() <= m1.next_register() <= m2.next_register()
                &&& r.0 == m2.next_register()
                &&& after.next_register() == m2.next_register() + 1
                &&& after.code() == m2.code().push(binary_instr(op, r, a, c))
            },
        _ => false,
    }
}

/// The constant a readable literal loads.
pub open spec fn literal_const(l: HirLiteral) -> ConstModel {
    match l {
        HirLiteral::Bool(b) => ConstModel::Bool(b),
        HirLiteral::Int(i) => ConstModel::Int(i),
        HirLiteral::Str(t) => ConstModel::Str(t@),
        HirLiteral::Invalid => ConstModel::Unit,
    }
}

/// Where the value of a lowered expression lands, and what the lowering
/// emitted for it: a literal is loaded into the next register; a bound
/// local is its own register, with nothing emitted; another name is loaded
/// as a global; a unary or binary operator lowers its operands in order and
/// then applies itself to their registers (`!` on an equality or identity
/// comparison is that comparison inverted); a tuple or array lowers its
/// elements in order and builds itself from their registers; a field or
/// index read lowers its receiver (then a computed index) and reads from
/// their registers; a map or interpolated string ends with its
/// instruction; `&&` and `||` lower their chain of operands with a test
/// after each (see `logical_lowered`); a block, an `if` or a `match` writes
/// its value into the next register (see `block_value_written`,
/// `if_written`, `match_written`).
pub open spec fn lowered_value(
    before: &Compiler,
    after: &Compiler,
    e: HirExpr,
    r: Register,
) -> bool
    decreases e, 1int,
{
    match e {
        HirExpr::Literal(l) => {
            &&& r.0 == before.next_register()
            &&& after.next_register() == r.0 + 1
            &&& after.code() == before.code().push(InstrModel::LoadConst(r, literal_const(l)))
        },
        HirExpr::Path(p) => p@.len() == 1 && match local_lookup(before.locals(), p@[0]@) {
            Some(reg) => r == reg && after.code() == before.code() && after.next_register() == before.next_register(),
            None => {
                &&& r.0 == before.next_register()
                &&& after.next_register() == r.0 + 1
                &&& after.code() == before.code().push(
                    InstrModel::LoadGlobal(
                        r,
                        p@[0]@,
                        global_slot_of(before.facts_view().global_slots@, p@[0]@),
                    ),
                )
            },
        },
        HirExpr::Paren(Some(inner)) => lowered_value(before, after, *inner, r),
        HirExpr::Unary { op: Some(u), operand: Some(x) } => if u == HirUnaryOp::Not && inverted_comparison(*x) is Some {
            binary_lowered(before, after, *x, inverted_comparison(*x)->0, r)
        } else {
            exists|m: Compiler, s: Register|
                #![trigger m.code(), unary_instr(u, r, s)]
                {
                    &&& lowered_value(before, &m, *x, s)
                    &&& m.locals() == before.locals()
                    &&& m.wf()
                    &&& before.next_register() <= m.next_register()
                    &&& r.0 == m.next_register()
                    &&& after.next_register() == m.next_register() + 1
                    &&& after.code() == m.code().push(unary_instr(u, r, s))
                }
        },
        HirExpr::Unit => {
            &&& r.0 == before.next_register()
            &&& after.next_register() == r.0 + 1
            &&& after.code() == before.code().push(InstrModel::LoadConst(r, ConstModel::Unit))
        },
        HirExpr::Tuple(es) => {
            proof {
                assert(decreases_to!(e => es@));
            }
            exists|m: Compiler, regs: Seq<Register>|
                #![trigger m.code(), make_tuple(r, regs)]
                {
                    &&& exprs_lowered(before, &m, es@, regs)
                    &&& m.locals() == before.locals() && m.wf()
                    &&& before.next_register() <= m.next_register()
                    &&& r.0 == m.next_register()
                    &&& after.next_register() == m.next_register() + 1
                    &&& after.code() == m.code().push(make_tuple(r, regs))
                }
        },
        HirExpr::Array(es) => {
            proof {
                assert(decreases_to!(e => es@));
            }
            exists|m: Compiler, regs: Seq<Register>|
                #![trigger m.code(), make_array(r, regs)]
                {
                    &&& exprs_lowered(before, &m, es@, regs)
                    &&& m.locals() == before.locals() && m.wf()
                    &&& before.next_register() <= m.next_register()
                    &&& r.0 == m.next_register()
                    &&& after.next_register() == m.next_register() + 1
                    &&& after.code() == m.code().push(make_array(r, regs))
                }
        },
        HirExpr::Binary { op: Some(op), .. } => if op == HirBinaryOp::And || op == HirBinaryOp::Or {
            logical_lowered(*before, *after, e, r)
        } else {
            binary_lowered(before, after, e, op, r)
        },
        HirExpr::Block(b) => r.0 == before.next_register() && (block_value_returns(b) || block_value_written(
            after,
            b,
            r,
            before.code().len() as int,
        )),
        HirExpr::If(v) => r.0 == before.next_register() && if_written(after, v, r, before.code().len() as int),
        HirExpr::Match(m) => r.0 == before.next_register() && match_written(*after, m, r, before.code().len() as int),
        HirExpr::Index { receiver, index } => index_read_matches(after.code().last(), r, *index) && if is_str_literal(
            *index,
        ) {
            exists|m: Compiler, base: Register|
                #![trigger m.code(), reads_from(after.code().last(), base)]
                {
                    &&& lowered_value(before, &m, *receiver, base)
                    &&& m.locals() == before.locals() && m.wf()
                    &&& before.next_register() <= m.next_register()
                    &&& r.0 == m.next_register()
                    &&& after.next_register() == m.next_register() + 1
                    &&& after.code() == m.code().push(after.code().last())
                    &&& reads_from(after.code().last(), base)
                }
        } else {
            exists|m1: Compiler, mb: Compiler, m2: Compiler, base: Register, slot: Register|
                #![trigger m1.code(), mb.code(), m2.code(), get_index(r, base, slot)]
                {
                    &&& lowered_value(before, &m1, *receiver, base)
                    &&& m1.locals() == before.locals() && m1.wf()
                    &&& before.next_register() <= m1.next_register()
                    &&& r.0 == m1.next_register()
                    &&& mb.code() == m1.code() && mb.next_register() == m1.next_register() + 1
                    &&& mb.locals() == before.locals() && mb.wf()
                    &&& lowered_value(&mb, &m2, *index, slot)
                    &&& m2.locals() == before.locals() && m2.wf()
                    &&& mb.next_register() <= m2.next_register()
                    &&& after.next_register() == m2.next_register()
                    &&& after.code() == m2.code().push(get_index(r, base, slot))
                }
        },
        HirExpr::Field { receiver, name } => field_read_matches(
            after.code().last(),
            r,
            name@,
            expr_shape(before.facts_view(), before.local_shapes(), *receiver),
        ) && exists|m: Compiler, base: Register|
            #![trigger m.code(), reads_from(after.code().last(), base)]
            {
                &&& lowered_value(before, &m, *receiver, base)
                &&& m.locals() == before.locals() && m.wf()
                &&& before.next_register() <= m.next_register()
                &&& r.0 == m.next_register()
                &&& after.next_register() == m.next_register() + 1
                &&& after.code() == m.code().push(after.code().last())
                &&& reads_from(after.code().last(), base)
            },
        HirExpr::Interpolated(parts) => {
            proof {
                assert(decreases_to!(e => parts@));
            }
            exists|m: Compiler, regs: Seq<Register>|
                #![trigger m.code(), format_of(r, parts@, regs)]
                {
                    &&& parts_lowered(before, &m, parts@, regs)
                    &&& m.locals() == before.locals() && m.wf()
                    &&& before.next_register() <= m.next_register()
                    &&& r.0 == m.next_register()
                    &&& after.next_register() == m.next_register() + 1
                    &&& after.code() == m.code().push(format_of(r, parts@, regs))
                }
        },
        HirExpr::MapLiteral(entries) => after.code().last() matches InstrModel::MakeMap(d, es) && d == r && es.len()
            == entries@.len() && forall|i: int| 0 <= i < es.len() ==> (#[trigger] es[i]).0 == entry_names(entries@)[i],
        _ => true,
    }
}

/// An expression of a form that lowering refuses outright: one with a
/// missing part, a `?`, a call, a closure or a record constructor.
pub open spec fn expression_form_refused(e: HirExpr) -> bool {
    match e {
        HirExpr::Paren(None) => true,
        HirExpr::Unary { op, operand } => op is None || operand is None,
        HirExpr::Binary { op, lhs, rhs } => op is None || lhs is None || rhs is None,
        HirExpr::Try(_) | HirExpr::Call { .. } | HirExpr::Lambda { .. } | HirExpr::Record { .. } | HirExpr::Missing => true,
        _ => false,
    }
}

/// The register a `let` binds: its initializer (unit without one) is
/// lowered into some register; an initializer that is a name, which would
/// share that name's register, is copied into a fresh register instead.
pub open spec fn let_bound(before: &Compiler, after: &Compiler, initializer: Option<HirExpr>, bound: Register) -> bool {
    let x = match initializer {
        Some(x) => x,
        None => HirExpr::Unit,
    };
    exists|m: Compiler, v: Register|
        #![trigger m.code(), move_of(bound, v)]
        {
            &&& lowered_value(before, &m, x, v)
            &&& if aliases_existing_register(x) {
                &&& bound.0 == m.next_register()
                &&& after.next_register() == m.next_register() + 1
                &&& after.code() == m.code().push(move_of(bound, v))
            } else {
                &&& bound == v
                &&& after.code() == m.code()
            }
        }
}

/// A `Return` of a register.
pub open spec fn return_of(src: Register) -> InstrModel {
    InstrModel::Return(src)
}

/// What `return` lowers to: its value (unit when it has none) lowered into
/// some register, then a `Return` of that register.
pub open spec fn return_lowered(before: &Compiler, after: &Compiler, value: Option<HirExpr>) -> bool {
    exists|m: Compiler, src: Register|
        #![trigger m.code(), return_of(src)]
        {
            &&& lowered_value(
                before,
                &m,
                match value {
                    Some(x) => x,
                    None => HirExpr::Unit,
                },
                src,
            )
            &&& after.code() == m.code().push(return_of(src))
        }
}

/// The bindings are the same, with the same shapes.
pub open spec fn same_scope(before: &Compiler, after: &Compiler) -> bool {
    &&& after.locals() == before.locals()
    &&& after.local_shapes() == before.local_shapes()
}

/// What a lowering step owes on success: the code grew by lowered code, no
/// register number went back, the facts are untouched, and the bindings
/// made before it stand as they were (new ones come after them).
pub open spec fn lowering_ok(before: &Compiler, after: &Compiler) -> bool {
    &&& lowered(before.code(), after.code())
    &&& before.next_register() <= after.next_register()
    &&& after.facts_view() == before.facts_view()
    &&& after.wf()
    &&& seq_extends(before.locals(), after.locals())
    &&& seq_extends(before.local_shapes(), after.local_shapes())
}

impl Compiler {
    /// Lowers a literal into a fresh register; an unreadable literal is refused.
    pub fn compile_hir_literal(&mut self, literal: &HirLiteral) -> (r: Result<Register, CompileError>)
        requires
            old(self).wf(),
        ensures
            final(self).facts_view() == old(self).facts_view(),
            final(self).locals() == old(self).locals(),
            final(self).local_shapes() == old(self).local_shapes(),
            r is Ok ==> lowering_ok(old(self), final(self)) && r->Ok_0.0 < final(self).next_register(),
            *literal is Invalid ==> r == Err::<Register, CompileError>(CompileError::UnsupportedSyntax("literal")),
            step_outcome(r, !(*literal is Invalid), final(self)),
            r is Ok ==> lowered_value(old(self), final(self), HirExpr::Literal(*literal), r->Ok_0),
    {
        let constant = match literal {
            HirLiteral::Bool(b) => Constant::Bool(*b),
            HirLiteral::Int(i) => Constant::Int(*i),
            HirLiteral::Str(s) => Constant::Str(s.clone()),
            HirLiteral::Invalid => return Err(CompileError::UnsupportedSyntax("literal")),
        };
        let ghost c0 = self.code();
        let r = self.emit_constant(constant);
        proof {
            lemma_region_start(c0);
            if r is Ok {
                lemma_region_push(c0, c0, Set::empty(), self.code().last());
                assert(self.code() =~= c0.push(self.code().last()));
            }
        }
        r
    }

    /// Lowers a path: a bound local gives its register; any other single
    /// name is loaded as a global.
    pub fn compile_path_expr(&mut self, path: &Vec<String>) -> (r: Result<Register, CompileError>)
        requires
            old(self).wf(),
        ensures
            r is Ok ==> same_scope(old(self), final(self)),
            final(self).facts_view() == old(self).facts_view(),
            r is Ok ==> lowering_ok(old(self), final(self)) && r->Ok_0.0 < final(self).next_register(),
            path@.len() != 1 ==> r == Err::<Register, CompileError>(CompileError::UnsupportedSyntax("path")),
            step_outcome(r, path@.len() == 1, final(self)),
            r is Ok ==> lowered_value(old(self), final(self), HirExpr::Path(*path), r->Ok_0),
    {
        let ghost c0 = self.code();
        proof {
            lemma_region_start(c0);
        }
        if path.len() != 1 {
            return Err(CompileError::UnsupportedSyntax("path"));
        }
        match self.local_register(path[0].as_str()) {
            Some(reg) => Ok(reg),
            None => {
                let dst = self.alloc_register()?;
                let ghost c1 = self.code();
                self.emit_load_global(dst, path[0].clone());
                proof {
                    lemma_region_push(c0, c1, Set::empty(), self.code().last());
                    assert(self.code() =~= c1.push(self.code().last()));
                }
                Ok(dst)
            },
        }
    }
}

impl Compiler {
    /// Lowers an expression into a register holding its value.
    pub fn compile_hir_expression(&mut self, e: &HirExpr) -> (r: Result<Register, CompileError>)
        requires
            old(self).wf(),
        ensures
            r is Ok ==> same_scope(old(self), final(self)),
            final(self).facts_view() == old(self).facts_view(),
            r is Ok ==> lowering_ok(old(self), final(self)) && r->Ok_0.0 < final(self).next_register(),
            step_outcome(r, expr_lowerable(*e), final(self)),
            r is Ok ==> lowered_value(old(self), final(self), *e, r->Ok_0),
            expression_form_refused(*e) ==> r == Err::<Register, CompileError>(
                CompileError::UnsupportedSyntax("expression"),
            ),
            *e matches HirExpr::Path(p) && p@.len() != 1 ==> r == Err::<Register, CompileError>(
                CompileError::UnsupportedSyntax("path"),
            ),
            *e matches HirExpr::MapLiteral(entries) && map_key_missing_first(entries@) ==> (r == Err::<
                Register,
                CompileError,
            >(CompileError::UnsupportedSyntax("map key")) || r == Err::<Register, CompileError>(
                CompileError::RegisterOverflow,
            )),
        decreases e, 3int,
    {
        let ghost c0 = self.code();
        proof {
            lemma_region_start(c0);
        }
        match e {
            HirExpr::Literal(literal) => self.compile_hir_literal(literal),
            HirExpr::Path(path) => self.compile_path_expr(path),
            HirExpr::Paren(Some(inner)) => self.compile_hir_expression(&**inner),
            HirExpr::Unit => {
                let r = self.emit_constant(Constant::Unit);
                proof {
                    if r is Ok {
                        lemma_region_push(c0, c0, Set::empty(), InstrModel::LoadConst(r->Ok_0, ConstModel::Unit));
                    }
                }
                r
            },
            HirExpr::Tuple(elements) => {
                let ghost s0 = *self;
                let registers = self.compile_hir_expressions(elements)?;
                let ghost m = *self;
                let ghost c1 = self.code();
                let dst = self.alloc_register()?;
                let ghost regs = registers@;
                self.emit(Instruction::MakeTuple { dst, elements: registers });
                proof {
                    lemma_region_lowered(c0, c0, c1, Set::empty());
                    lemma_region_push(c0, c1, Set::empty(), InstrModel::MakeTuple(dst, regs));
                    assert(s0 == *old(self));
                    assert(m.code() == c1);
                    assert(make_tuple(dst, regs) == InstrModel::MakeTuple(dst, regs));
                    assert(exprs_lowered(&s0, &m, elements@, regs));
                }
                Ok(dst)
            },
            HirExpr::Array(elements) => {
                let ghost s0 = *self;
                let registers = self.compile_hir_expressions(elements)?;
                let ghost m = *self;
                let ghost c1 = self.code();
                let dst = self.alloc_register()?;
                let ghost regs = registers@;
                self.emit(Instruction::MakeArray { dst, elements: registers });
                proof {
                    lemma_region_lowered(c0, c0, c1, Set::empty());
                    lemma_region_push(c0, c1, Set::empty(), InstrModel::MakeArray(dst, regs));
                    assert(s0 == *old(self));
                    assert(m.code() == c1);
                    assert(make_array(dst, regs) == InstrModel::MakeArray(dst, regs));
                    assert(exprs_lowered(&s0, &m, elements@, regs));
                }
                Ok(dst)
            },
            HirExpr::Unary { op: Some(_), operand: Some(_) } => self.compile_hir_unary(e),
            HirExpr::Binary { op: Some(op), lhs: Some(_), rhs: Some(_) } => {
                match op {
                    HirBinaryOp::And | HirBinaryOp::Or => self.compile_hir_logical(e),
                    _ => self.compile_hir_binary(e, *op),
                }
            },
            HirExpr::Block(block) => {
                let dst = self.alloc_register()?;
                let ghost c1 = self.code();
                self.compile_hir_block_value_to(block, dst)?;
                proof {
                    reveal(block_value_written);
                    reveal(if_written);
                    reveal(if_parts);
                    reveal(match_written);
                }
                Ok(dst)
            },
            HirExpr::If(value) => {
                let dst = self.alloc_register()?;
                self.compile_hir_if_value_to(value, dst)?;
                proof {
                    reveal(block_value_written);
                    reveal(if_written);
                    reveal(if_parts);
                }
                Ok(dst)
            },
            HirExpr::Match(value) => {
                let dst = self.alloc_register()?;
                self.compile_hir_match(value, Some(dst))?;
                proof {
                    reveal(match_written);
                }
                Ok(dst)
            },
            HirExpr::Index { .. } => self.compile_hir_index(e),
            HirExpr::MapLiteral(_) => self.compile_hir_map(e),
            HirExpr::Interpolated(parts) => self.compile_hir_interpolated_string(parts),
            HirExpr::Field { .. } => self.compile_hir_field(e),
            _ => Err(CompileError::UnsupportedSyntax("expression")),
        }
    }

    /// Lowers expressions left to right, each into its register.
    pub fn compile_hir_expressions(&mut self, expressions: &Vec<HirExpr>) -> (r: Result<Vec<Register>, CompileError>)
        requires
            old(self).wf(),
        ensures
            r is Ok ==> same_scope(old(self), final(self)),
            final(self).facts_view() == old(self).facts_view(),
            r is Ok ==> lowering_ok(old(self), final(self)) && r->Ok_0@.len() == expressions@.len() && forall|i: int|
                0 <= i < r->Ok_0@.len() ==> (#[trigger] r->Ok_0@[i]).0 < final(self).next_register(),
            step_outcome(r, exprs_lowerable(expressions@, expressions@.len() as int), final(self)),
            r is Ok ==> exprs_lowered(old(self), final(self), expressions@, r->Ok_0@),
        decreases expressions, 0int,
    {
        let ghost c0 = self.code();
        let ghost n0 = self.next_register();
        proof {
            lemma_region_start(c0);
        }
        let mut registers: Vec<Register> = Vec::new();
        let mut i: usize = 0;
        while i < expressions.len()
            invariant
                self.wf(),
                self.facts_view() == old(self).facts_view(),
                c0 == old(self).code(),
                n0 == old(self).next_register(),
                lowered(c0, self.code()),
                n0 <= self.next_register(),
                seq_extends(old(self).locals(), self.locals()),
                seq_extends(old(self).local_shapes(), self.local_shapes()),
                i <= expressions.len(),
                registers@.len() == i,
                same_scope(old(self), self),
                forall|k: int| 0 <= k < i ==> (#[trigger] registers@[k]).0 < self.next_register(),
                exprs_lowerable(expressions@, i as int),
                exprs_lowered(old(self), self, expressions@.subrange(0, i as int), registers@),
            decreases expressions.len() - i,
        {
            proof {
                assert(decreases_to!(*expressions => expressions@));
                assert(decreases_to!(expressions@ => expressions@[i as int]));
            }
            let ghost c1 = self.code();
            let ghost mi = *self;
            let register = match self.compile_hir_expression(&expressions[i]) {
                Ok(register) => register,
                Err(e) => {
                    proof {
                        if exprs_lowerable(expressions@, expressions@.len() as int) {
                            lemma_exprs_lowerable(expressions@, expressions@.len() as int, i as int);
                        }
                    }
                    return Err(e);
                },
            };
            proof {
                lemma_region_lowered(c0, c1, self.code(), Set::empty());
            }
            let ghost prev = registers@;
            registers.push(register);
            i = i + 1;
            proof {
                let es = expressions@.subrange(0, i as int);
                assert(es.subrange(0, es.len() - 1) =~= expressions@.subrange(0, i - 1));
                assert(registers@.subrange(0, registers@.len() - 1) =~= prev);
                assert(es[es.len() - 1] == expressions@[i - 1]);
                assert(mi.code() == c1);
                assert(lowered_value(&mi, self, expressions@[i - 1], register));
            }
        }
        proof {
            assert(expressions@.subrange(0, expressions@.len() as int) =~= expressions@);
        }
        Ok(registers)
    }

    /// Lowers an interpolated string: each expression piece in order, then
    /// the formatting of all pieces into a fresh register.
    pub fn compile_hir_interpolated_string(&mut self, parts: &Vec<HirInterpolatedPart>) -> (r: Result<
        Register,
        CompileError,
    >)
        requires
            old(self).wf(),
        ensures
            r is Ok ==> same_scope(old(self), final(self)),
            final(self).facts_view() == old(self).facts_view(),
            r is Ok ==> lowering_ok(old(self), final(self)) && r->Ok_0.0 < final(self).next_register(),
            step_outcome(r, parts_lowerable(parts@, parts@.len() as int), final(self)),
            r is Ok ==> (final(self).code().last() matches InstrModel::FormatString(d, ps) && d == r->Ok_0
                && format_matches(ps, parts@)),
            r is Ok ==> exists|m: Compiler, regs: Seq<Register>|
                #![trigger m.code(), format_of(r->Ok_0, parts@, regs)]
                {
                    &&& parts_lowered(old(self), &m, parts@, regs)
                    &&& m.locals() == old(self).locals() && m.wf()
                    &&& old(self).next_register() <= m.next_register()
                    &&& r->Ok_0.0 == m.next_register()
                    &&& final(self).next_register() == m.next_register() + 1
                    &&& final(self).code() == m.code().push(format_of(r->Ok_0, parts@, regs))
                },
        decreases parts, 0int,
    {
        let ghost c0 = self.code();
        proof {
            lemma_region_start(c0);
        }
        let mut compiled: Vec<FormatPart> = Vec::new();
        let ghost mut regs: Seq<Register> = Seq::empty();
        let mut i: usize = 0;
        proof {
            assert(parts@.subrange(0, 0) =~= Seq::<HirInterpolatedPart>::empty());
        }
        while i < parts.len()
            invariant
                parts_lowered(old(self), self, parts@.subrange(0, i as int), regs),
                format_parts_model(compiled@) == format_pieces(parts@.subrange(0, i as int), regs),
                regs.len() == part_exprs(parts@.subrange(0, i as int)).len(),
                self.wf(),
                self.facts_view() == old(self).facts_view(),
                c0 == old(self).code(),
                lowered(c0, self.code()),
                old(self).next_register() <= self.next_register(),
                seq_extends(old(self).locals(), self.locals()),
                seq_extends(old(self).local_shapes(), self.local_shapes()),
                same_scope(old(self), self),
                i <= parts.len(),
                compiled@.len() == i,
                format_matches(format_parts_model(compiled@), parts@.subrange(0, i as int)),
                parts_lowerable(parts@, i as int),
            decreases parts.len() - i,
        {
            proof {
                assert(decreases_to!(*parts => parts@));
                assert(decreases_to!(parts@ => parts@[i as int]));
            }
            let ghost prev = compiled@;
            let ghost sub0 = parts@.subrange(0, i as int);
            let ghost sub1 = parts@.subrange(0, i + 1);
            proof {
                assert(sub1.subrange(0, sub1.len() - 1) =~= sub0);
                assert(sub1[sub1.len() - 1] == parts@[i as int]);
            }
            match &parts[i] {
                HirInterpolatedPart::Text(text) => {
                    compiled.push(FormatPart::Text(text.clone()));
                    proof {
                        assert(part_exprs(sub1) == part_exprs(sub0));
                        assert(parts_lowered(old(self), self, sub1, regs) == parts_lowered(old(self), self, sub0, regs));
                        assert(format_parts_model(compiled@) =~= format_parts_model(prev).push(FormatPartModel::Text(text@)));
                    }
                },
                HirInterpolatedPart::Expr(expression) => {
                    let ghost c1 = self.code();
                    let ghost mi = *self;
                    let value = match self.compile_hir_expression(expression) {
                        Ok(value) => value,
                        Err(e) => {
                            proof {
                                if parts_lowerable(parts@, parts@.len() as int) {
                                    lemma_parts_lowerable(parts@, parts@.len() as int, i as int);
                                }
                            }
                            return Err(e);
                        },
                    };
                    proof {
                        lemma_region_lowered(c0, c1, self.code(), Set::empty());
                    }
                    compiled.push(FormatPart::Value(value));
                    proof {
                        let es0 = part_exprs(sub0);
                        let es1 = part_exprs(sub1);
                        assert(es1 == es0.push(*expression));
                        let regs1 = regs.push(value);
                        assert(regs1.subrange(0, regs1.len() - 1) =~= regs);
                        assert(mi.code() == c1);
                        assert(lowered_value(&mi, self, *expression, value));
                        assert(parts_lowered(old(self), self, sub1, regs1));
                        assert(format_pieces(sub0, regs1) == format_pieces(sub0, regs)) by {
                            lemma_format_pieces_stable(sub0, regs, value);
                        }
                        assert(format_parts_model(compiled@) =~= format_parts_model(prev).push(FormatPartModel::Value(value)));
                        regs = regs1;
                    }
                },
            }
            i = i + 1;
            proof {
                let sub = parts@.subrange(0, i as int);
                assert forall|k: int| 0 <= k < sub.len() implies match (#[trigger] sub[k], format_parts_model(
                    compiled@,
                )[k]) {
                    (HirInterpolatedPart::Text(t), FormatPartModel::Text(u)) => u == t@,
                    (HirInterpolatedPart::Expr(_), FormatPartModel::Value(_)) => true,
                    _ => false,
                } by {
                    if k < i - 1 {
                        assert(sub[k] == parts@.subrange(0, i - 1)[k]);
                        assert(format_parts_model(compiled@)[k] == format_parts_model(prev)[k]);
                    }
                }
            }
        }
        proof {
            assert(parts@.subrange(0, parts@.len() as int) =~= parts@);
        }
        let ghost c1 = self.code();
        let ghost m = *self;
        let dst = self.alloc_register()?;
        let ghost ps = format_parts_model(compiled@);
        self.emit(Instruction::FormatString { dst, parts: compiled });
        proof {
            lemma_region_push(c0, c1, Set::empty(), InstrModel::FormatString(dst, ps));
            assert(m.code() == c1);
            assert(format_of(dst, parts@, regs) == InstrModel::FormatString(dst, ps));
        }
        Ok(dst)
    }

    /// Lowers a unary expression; `!` over an equality or identity comparison
    /// (through parentheses) lowers as the inverse comparison.
    pub fn compile_hir_unary(&mut self, e: &HirExpr) -> (r: Result<Register, CompileError>)
        requires
            old(self).wf(),
            e is Unary,
        ensures
            r is Ok ==> lowered_value(old(self), final(self), *e, r->Ok_0),
            r is Ok ==> same_scope(old(self), final(self)),
            final(self).facts_view() == old(self).facts_view(),
            r is Ok ==> lowering_ok(old(self), final(self)) && r->Ok_0.0 < final(self).next_register(),
            step_outcome(r, expr_lowerable(*e), final(self)),
        decreases e, 2int,
    {
        let (op, operand) = match e {
            HirExpr::Unary { op: Some(op), operand: Some(operand) } => (*op, &**operand),
            _ => return Err(CompileError::UnsupportedSyntax("expression")),
        };
        let ghost c0 = self.code();
        proof {
            lemma_region_start(c0);
        }
        if op == HirUnaryOp::Not {
            match self.try_compile_inverted_comparison(operand)? {
                Some(register) => return Ok(register),
                None => {},
            }
        }
        let ghost s0 = *self;
        let ghost c_mid = self.code();
        let src = self.compile_hir_expression(operand)?;
        let ghost m = *self;
        let ghost c1 = self.code();
        let dst = self.alloc_register()?;
        let instruction = match op {
            HirUnaryOp::Not => Instruction::Not { dst, src },
            HirUnaryOp::Negate => Instruction::Negate { dst, src },
        };
        let ghost im = instruction@;
        self.emit(instruction);
        proof {
            lemma_region_lowered(c0, c_mid, c1, Set::empty());
            lemma_region_push(c0, c1, Set::empty(), im);
            assert(im == unary_instr(op, dst, src));
            assert(lowered_value(&s0, &m, *operand, src));
            assert(dst.0 == m.next_register());
            assert(self.next_register() == m.next_register() + 1);
            assert(self.code() == m.code().push(unary_instr(op, dst, src)));
            if op == HirUnaryOp::Not {
                assert(inverted_comparison(*operand) is None);
                assert(s0 == *old(self));
            }
        }
        Ok(dst)
    }

    /// Lowers `e`, looking through parentheses, as the inverse comparison
    /// when it is an equality or identity comparison; `None` otherwise, with
    /// nothing emitted.
    fn try_compile_inverted_comparison(&mut self, e: &HirExpr) -> (r: Result<Option<Register>, CompileError>)
        requires
            old(self).wf(),
        ensures
            final(self).facts_view() == old(self).facts_view(),
            r matches Ok(Some(reg)) ==> lowering_ok(old(self), final(self)) && reg.0 < final(self).next_register(),
            r matches Ok(None) ==> final(self).code() == old(self).code() && final(self).next_register()
                == old(self).next_register() && final(self).wf() && final(self).locals() == old(self).locals()
                && final(self).local_shapes() == old(self).local_shapes(),
            r matches Ok(Some(_)) ==> expr_lowerable(*e) && same_scope(old(self), final(self)),
            r matches Ok(None) <==> inverted_comparison(*e) is None,
            r matches Ok(None) ==> *final(self) == *old(self),
            r matches Ok(Some(reg)) ==> binary_lowered(old(self), final(self), *e, inverted_comparison(*e)->0, reg),
            r is Err ==> step_outcome(r, expr_lowerable(*e), final(self)),
        decreases e, 1int,
    {
        match e {
            HirExpr::Paren(Some(inner)) => {
                proof {
                    assert(inverted_comparison(*e) == inverted_comparison(**inner));
                }
                let r = self.try_compile_inverted_comparison(&**inner);
                r
            },
            HirExpr::Binary { op: Some(op), lhs: Some(_), rhs: Some(_) } => {
                let inverse = match op {
                    HirBinaryOp::Equal => HirBinaryOp::NotEqual,
                    HirBinaryOp::NotEqual => HirBinaryOp::Equal,
                    HirBinaryOp::IdentityEqual => HirBinaryOp::IdentityNotEqual,
                    HirBinaryOp::IdentityNotEqual => HirBinaryOp::IdentityEqual,
                    _ => return Ok(None),
                };
                let register = self.compile_hir_binary(e, inverse)?;
                proof {
                    assert(inverted_comparison(*e) == Some(inverse));
                }
                Ok(Some(register))
            },
            _ => Ok(None),
        }
    }

    /// Lowers `lhs op rhs` for a binary expression `e`, with `op` in place of
    /// its own operator; `&&` and `||` go through `compile_hir_logical`.
    pub fn compile_hir_binary(&mut self, e: &HirExpr, op: HirBinaryOp) -> (r: Result<Register, CompileError>)
        requires
            old(self).wf(),
        ensures
            r is Ok ==> same_scope(old(self), final(self)),
            final(self).facts_view() == old(self).facts_view(),
            r is Ok ==> lowering_ok(old(self), final(self)) && r->Ok_0.0 < final(self).next_register(),
            step_outcome(r, binary_operands_lowerable(*e), final(self)),
            r is Ok ==> binary_lowered(old(self), final(self), *e, op, r->Ok_0),
        decreases e, 0int,
    {
        let (lhs_expr, rhs_expr) = match e {
            HirExpr::Binary { lhs: Some(lhs), rhs: Some(rhs), .. } => (&**lhs, &**rhs),
            _ => return Err(CompileError::UnsupportedSyntax("expression")),
        };
        let ghost s0 = *self;
        let ghost c0 = self.code();
        proof {
            lemma_region_start(c0);
        }
        let lhs = self.compile_hir_expression(lhs_expr)?;
        let ghost m1 = *self;
        let ghost c1 = self.code();
        let rhs = self.compile_hir_expression(rhs_expr)?;
        let ghost m2 = *self;
        let ghost c2 = self.code();
        let dst = self.alloc_register()?;
        let instruction = binary_instruction(op, dst, lhs, rhs);
        let ghost im = instruction@;
        self.emit(instruction);
        proof {
            lemma_region_lowered(c0, c0, c1, Set::empty());
            lemma_region_lowered(c0, c1, c2, Set::empty());
            assert(!is_jump(im));
            lemma_region_push(c0, c2, Set::empty(), im);
            assert(s0 == *old(self));
            assert(im == binary_instr(op, dst, lhs, rhs));
            assert(lowered_value(&s0, &m1, *lhs_expr, lhs));
            assert(lowered_value(&m1, &m2, *rhs_expr, rhs));
            assert(dst.0 == m2.next_register());
            assert(self.next_register() == m2.next_register() + 1);
            assert(self.code() == m2.code().push(binary_instr(op, dst, lhs, rhs)));
            assert(m1.code() == c1);
        }
        Ok(dst)
    }
}

/// The read an index expression lowers to: a string-literal key is read by
/// name, any other index from the register it is lowered into.
pub open spec fn index_read_matches(i: InstrModel, dst: Register, index: HirExpr) -> bool {
    match index {
        HirExpr::Literal(HirLiteral::Str(key)) => (i matches InstrModel::GetStringKeyIndex(d, _, k) && d == dst && k
            == key@),
        _ => (i matches InstrModel::GetIndex(d, _, _) && d == dst),
    }
}

/// The slot a shape gives a field: its rank when the shape is a record that
/// has the field.
pub open spec fn shape_field_slot(shape: Option<ShapeModel>, name: Seq<char>) -> Option<usize> {
    match shape {
        Some(ShapeModel::Record(m)) => if has_field(m, name) {
            Some(field_index(m, name) as usize)
        } else {
            None
        },
        _ => None,
    }
}

/// The read a field access lowers to: a decimal name reads a tuple element;
/// otherwise a field whose slot the receiver's shape gives is read by slot,
/// and any other by name.
pub open spec fn field_read_matches(i: InstrModel, dst: Register, name: Seq<char>, shape: Option<ShapeModel>) -> bool {
    match decimal_index(name) {
        Some(k) => (i matches InstrModel::GetTupleField(d, _, j) && d == dst && j == k),
        None => match shape_field_slot(shape, name) {
            Some(slot) => (i matches InstrModel::GetRecordSlot(d, _, f, t) && d == dst && f == name && t == slot),
            None => (i matches InstrModel::GetRecordField(d, _, f) && d == dst && f == name),
        },
    }
}

/// The entries of a map literal by the names they are stored under.
pub open spec fn entry_names(entries: Seq<crate::hir::HirMapEntry>) -> Seq<Seq<char>> {
    Seq::new(
        entries.len(),
        |i: int|
            match entries[i].logical_key {
                Some(k) => k@,
                None => Seq::empty(),
            },
    )
}

impl Compiler {
    /// Lowers a map literal: each entry's value in order, then the map of
    /// the entries' names to those values.
    pub fn compile_hir_map(&mut self, e: &HirExpr) -> (r: Result<Register, CompileError>)
        requires
            old(self).wf(),
            e is MapLiteral,
        ensures
            r is Ok ==> same_scope(old(self), final(self)),
            final(self).facts_view() == old(self).facts_view(),
            r is Ok ==> lowering_ok(old(self), final(self)) && r->Ok_0.0 < final(self).next_register(),
            r is Ok ==> match *e {
                HirExpr::MapLiteral(entries) => final(self).code().last() matches InstrModel::MakeMap(d, es) && d
                    == r->Ok_0 && es.len() == entries@.len() && forall|i: int|
                    0 <= i < es.len() ==> (#[trigger] es[i]).0 == entry_names(entries@)[i],
                _ => true,
            },
            step_outcome(r, expr_lowerable(*e), final(self)),
            *e matches HirExpr::MapLiteral(entries) && map_key_missing_first(entries@) ==> (r == Err::<
                Register,
                CompileError,
            >(CompileError::UnsupportedSyntax("map key")) || r == Err::<Register, CompileError>(
                CompileError::RegisterOverflow,
            )),
        decreases e, 2int,
    {
        let entries = match e {
            HirExpr::MapLiteral(entries) => entries,
            _ => return Err(CompileError::UnsupportedSyntax("expression")),
        };
        let ghost c0 = self.code();
        proof {
            lemma_region_start(c0);
            assert(expr_lowerable(*e) == entries_lowerable(entries@, entries@.len() as int));
        }
        let mut compiled: Vec<(String, Register)> = Vec::new();
        let mut i: usize = 0;
        while i < entries.len()
            invariant
                self.wf(),
                self.facts_view() == old(self).facts_view(),
                c0 == old(self).code(),
                lowered(c0, self.code()),
                old(self).next_register() <= self.next_register(),
                seq_extends(old(self).locals(), self.locals()),
                seq_extends(old(self).local_shapes(), self.local_shapes()),
                i <= entries@.len(),
                compiled@.len() == i,
                same_scope(old(self), self),
                forall|k: int| 0 <= k < i ==> (#[trigger] compiled@[k]).1.0 < self.next_register(),
                forall|k: int| 0 <= k < i ==> (#[trigger] compiled@[k]).0@ == entry_names(entries@)[k],
                entries_lowerable(entries@, i as int),
                expr_lowerable(*e) == entries_lowerable(entries@, entries@.len() as int),
                *e == HirExpr::MapLiteral(*entries),
            decreases entries.len() - i,
        {
            proof {
                assert(decreases_to!(*entries => entries@));
                assert(decreases_to!(entries@ => entries@[i as int]));
                assert(decreases_to!(entries@[i as int] => entries@[i as int].value));
            }
            proof {
                if map_key_missing_first(entries@) {
                    let k = choose|k: int| 0 <= k < entries@.len() && (#[trigger] entries@[k]).logical_key is None
                        && entries_lowerable(entries@, k);
                    if k < i {
                        lemma_entries_lowerable(entries@, i as int, k);
                    } else if k > i {
                        lemma_entries_lowerable(entries@, k, i as int);
                    }
                }
            }
            let key = match &entries[i].logical_key {
                Some(k) => k.clone(),
                None => {
                    proof {
                        if entries_lowerable(entries@, entries@.len() as int) {
                            lemma_entries_lowerable(entries@, entries@.len() as int, i as int);
                        }
                    }
                    return Err(CompileError::UnsupportedSyntax("map key"));
                },
            };
            let value = match &entries[i].value {
                Some(v) => v,
                None => {
                    proof {
                        if entries_lowerable(entries@, entries@.len() as int) {
                            lemma_entries_lowerable(entries@, entries@.len() as int, i as int);
                        }
                    }
                    return Err(CompileError::UnsupportedSyntax("map value"));
                },
            };
            let ghost c1 = self.code();
            proof {
                assert(decreases_to!(*e => *entries));
                assert(decreases_to!(*entries => entries@));
                assert(decreases_to!(entries@ => entries@[i as int]));
                assert(decreases_to!(entries@[i as int] => entries@[i as int].value));
                assert(entries@[i as int].value == Some(*value));
                assert(decreases_to!(entries@[i as int].value => *value));
            }
            let register = match self.compile_hir_expression(value) {
                Ok(register) => register,
                Err(err) => {
                    proof {
                        if entries_lowerable(entries@, entries@.len() as int) {
                            lemma_entries_lowerable(entries@, entries@.len() as int, i as int);
                        }
                    }
                    return Err(err);
                },
            };
            proof {
                lemma_region_lowered(c0, c1, self.code(), Set::empty());
            }
            compiled.push((key, register));
            i = i + 1;
        }
        proof {
            if map_key_missing_first(entries@) {
                let k = choose|k: int| 0 <= k < entries@.len() && (#[trigger] entries@[k]).logical_key is None
                    && entries_lowerable(entries@, k);
                lemma_entries_lowerable(entries@, entries@.len() as int, k);
            }
        }
        let ghost c2 = self.code();
        let dst = self.alloc_register()?;
        let instruction = Instruction::MakeMap { dst, entries: compiled };
        let ghost im = instruction@;
        self.emit(instruction);
        proof {
            lemma_region_push(c0, c2, Set::empty(), im);
        }
        Ok(dst)
    }

    /// Lowers `receiver[index]`: the receiver first, then, unless the index
    /// is a string literal, the index.
    pub fn compile_hir_index(&mut self, e: &HirExpr) -> (r: Result<Register, CompileError>)
        requires
            old(self).wf(),
            e is Index,
        ensures
            r is Ok ==> same_scope(old(self), final(self)),
            final(self).facts_view() == old(self).facts_view(),
            r is Ok ==> lowering_ok(old(self), final(self)) && r->Ok_0.0 < final(self).next_register(),
            r is Ok ==> match *e {
                HirExpr::Index { index, .. } => index_read_matches(final(self).code().last(), r->Ok_0, *index),
                _ => true,
            },
            r is Ok ==> lowered_value(old(self), final(self), *e, r->Ok_0),
            step_outcome(r, expr_lowerable(*e), final(self)),
        decreases e, 2int,
    {
        let (receiver, index) = match e {
            HirExpr::Index { receiver, index } => (&**receiver, &**index),
            _ => return Err(CompileError::UnsupportedSyntax("expression")),
        };
        let ghost c0 = self.code();
        proof {
            lemma_region_start(c0);
        }
        let ghost s0 = *self;
        let base = self.compile_hir_expression(receiver)?;
        let ghost m1 = *self;
        let ghost c1 = self.code();
        let dst = self.alloc_register()?;
        let ghost mb = *self;
        match index {
            HirExpr::Literal(HirLiteral::Str(key)) => {
                let instruction = Instruction::GetStringKeyIndex { dst, base, key: key.clone() };
                let ghost im = instruction@;
                self.emit(instruction);
                proof {
                    lemma_region_lowered(c0, c0, c1, Set::empty());
                    lemma_region_push(c0, c1, Set::empty(), im);
                    assert(s0 == *old(self));
                    assert(m1.code() == c1);
                    assert(self.code().last() == im);
                    assert(reads_from(self.code().last(), base));
                    assert(lowered_value(&s0, &m1, *receiver, base));
                }
            },
            _ => {
                let slot = self.compile_hir_expression(index)?;
                let ghost m2 = *self;
                let ghost c2 = self.code();
                let instruction = Instruction::GetIndex { dst, base, index: slot };
                let ghost im = instruction@;
                self.emit(instruction);
                proof {
                    lemma_region_lowered(c0, c0, c1, Set::empty());
                    lemma_region_lowered(c0, c1, c2, Set::empty());
                    lemma_region_push(c0, c2, Set::empty(), im);
                    assert(s0 == *old(self));
                    assert(m1.code() == c1 && mb.code() == c1 && m2.code() == c2);
                    assert(im == get_index(dst, base, slot));
                    assert(lowered_value(&s0, &m1, *receiver, base));
                    assert(lowered_value(&mb, &m2, *index, slot));
                }
            },
        }
        Ok(dst)
    }

    /// Lowers `receiver.name`. The receiver's shape is taken before the
    /// receiver is lowered.
    pub fn compile_hir_field(&mut self, e: &HirExpr) -> (r: Result<Register, CompileError>)
        requires
            old(self).wf(),
            e is Field,
        ensures
            r is Ok ==> same_scope(old(self), final(self)),
            final(self).facts_view() == old(self).facts_view(),
            r is Ok ==> lowering_ok(old(self), final(self)) && r->Ok_0.0 < final(self).next_register(),
            r is Ok ==> match *e {
                HirExpr::Field { receiver, name } => field_read_matches(
                    final(self).code().last(),
                    r->Ok_0,
                    name@,
                    expr_shape(old(self).facts_view(), old(self).local_shapes(), *receiver),
                ),
                _ => true,
            },
            r is Ok ==> lowered_value(old(self), final(self), *e, r->Ok_0),
            step_outcome(r, expr_lowerable(*e), final(self)),
        decreases e, 2int,
    {
        let (receiver, name) = match e {
            HirExpr::Field { receiver, name } => (&**receiver, name),
            _ => return Err(CompileError::UnsupportedSyntax("expression")),
        };
        let ghost c0 = self.code();
        proof {
            lemma_region_start(c0);
        }
        let shape = self.value_shape_for_hir_expression(receiver);
        let ghost s0 = *self;
        let record = self.compile_hir_expression(receiver)?;
        let ghost m = *self;
        let ghost c1 = self.code();
        let dst = self.alloc_register()?;
        let instruction = match parse_decimal_index(name.as_str()) {
            Some(index) => Instruction::GetTupleField { dst, value: record, index },
            None => {
                let slot = match &shape {
                    Some(shape) => match shape.as_record() {
                        Some(shape) => shape.field_slot(name.as_str()),
                        None => None,
                    },
                    None => None,
                };
                match slot {
                    Some(slot) => Instruction::GetRecordSlot { dst, record, field: name.clone(), slot },
                    None => Instruction::GetRecordField { dst, record, field: name.clone() },
                }
            },
        };
        let ghost im = instruction@;
        self.emit(instruction);
        proof {
            lemma_region_lowered(c0, c0, c1, Set::empty());
            lemma_region_push(c0, c1, Set::empty(), im);
            assert(s0 == *old(self));
            assert(m.code() == c1);
            assert(self.code().last() == im);
            assert(reads_from(self.code().last(), record));
            assert(lowered_value(&s0, &m, *receiver, record));
        }
        Ok(dst)
    }
}

/// The offsets held in a list, as a set.
pub open spec fn offsets(v: Seq<usize>) -> Set<int> {
    Set::new(|p: int| exists|i: int| 0 <= i < v.len() && v[i] as int == p)
}

/// A list of offsets in strictly increasing order, all below `len`.
pub open spec fn offsets_ordered(v: Seq<usize>, len: int) -> bool {
    &&& forall|i: int, j: int| 0 <= i < j < v.len() ==> (#[trigger] v[i]) < (#[trigger] v[j])
    &&& forall|i: int| 0 <= i < v.len() ==> (#[trigger] v[i]) < len
}

pub proof fn lemma_offsets_push(v: Seq<usize>, p: usize)
    ensures
        offsets(v.push(p)) == offsets(v).insert(p as int),
{
    assert forall|q: int| #[trigger] offsets(v.push(p)).contains(q) == offsets(v).insert(p as int).contains(q) by {
        if offsets(v).contains(q) {
            let i = choose|i: int| 0 <= i < v.len() && v[i] as int == q;
            assert(v.push(p)[i] == v[i]);
        }
        if q == p as int {
            assert(v.push(p)[v.len() as int] == p);
        }
        if offsets(v.push(p)).contains(q) {
            let i = choose|i: int| 0 <= i < v.push(p).len() && v.push(p)[i] as int == q;
            if i < v.len() {
                assert(v.push(p)[i] == v[i]);
            }
        }
    }
    assert(offsets(v.push(p)) =~= offsets(v).insert(p as int));
}

pub proof fn lemma_offsets_drop_first(v: Seq<usize>, i: int, len: int)
    requires
        offsets_ordered(v, len),
        0 <= i < v.len(),
    ensures
        offsets(v.subrange(i, v.len() as int)).remove(v[i] as int) == offsets(v.subrange(i + 1, v.len() as int)),
        offsets(v.subrange(i, v.len() as int)).contains(v[i] as int),
{
    let a = v.subrange(i, v.len() as int);
    let b = v.subrange(i + 1, v.len() as int);
    assert(a[0] == v[i]);
    assert forall|q: int| #[trigger] offsets(a).remove(v[i] as int).contains(q) == offsets(b).contains(q) by {
        if offsets(b).contains(q) {
            let k = choose|k: int| 0 <= k < b.len() && b[k] as int == q;
            assert(a[k + 1] == b[k]);
            assert(v[i] < v[i + 1 + k]);
        }
        if offsets(a).remove(v[i] as int).contains(q) {
            let k = choose|k: int| 0 <= k < a.len() && a[k] as int == q;
            if k > 0 {
                assert(b[k - 1] == a[k]);
            }
        }
    }
    assert(offsets(a).remove(v[i] as int) =~= offsets(b));
}

impl Compiler {
    /// Lowers a condition and a jump taken when it is false; returns the
    /// jump's offset, to be patched.
    pub fn compile_hir_jump_if_false(&mut self, e: &HirExpr) -> (r: Result<usize, CompileError>)
        requires
            old(self).wf(),
        ensures
            r is Ok ==> same_scope(old(self), final(self)),
            final(self).facts_view() == old(self).facts_view(),
            r matches Ok(p) ==> final(self).wf() && old(self).next_register() <= final(self).next_register()
                && seq_extends(old(self).locals(), final(self).locals())
                && seq_extends(old(self).local_shapes(), final(self).local_shapes())
                && p + 1 == final(self).code().len() && pending_region(old(self).code(), final(self).code(), set![p as int])
                && final(self).code()[p as int] is JumpIfFalse,
            r is Ok ==> exists|m: Compiler, c: Register|
                #![trigger m.code(), test_jump(c, PENDING_TARGET as int)]
                {
                    &&& lowered_value(old(self), &m, *e, c)
                    &&& old(self).code().len() <= m.code().len()
                    &&& final(self).code() == m.code().push(test_jump(c, PENDING_TARGET as int))
                },
            step_outcome(r, expr_lowerable(*e), final(self)),
        decreases e, 5int,
    {
        let ghost c0 = self.code();
        let condition = self.compile_hir_expression(e)?;
        let ghost m = *self;
        let ghost c1 = self.code();
        let jump = self.emit_jump_if_false(condition);
        proof {
            lemma_region_push_jump(c0, c1, Set::empty(), InstrModel::JumpIfFalse(condition, PENDING_TARGET));
            assert(Set::<int>::empty().insert(c1.len() as int) =~= set![jump as int]);
            assert(test_jump(condition, PENDING_TARGET as int) == InstrModel::JumpIfFalse(condition, PENDING_TARGET));
            assert(m.code() == c1);
        }
        Ok(jump)
    }

    /// The expression a block's value comes from, when its last statement is one.
    pub fn hir_block_tail_expression<'a>(&self, block: &'a HirBlock) -> (r: Option<&'a HirExpr>)
        ensures
            match r {
                Some(e) => block.statements@.len() > 0 && block.statements@.last() == (HirStmt::Expr { expression: Some(*e) }),
                None => !(block.statements@.len() > 0 && block.statements@.last() matches HirStmt::Expr { expression: Some(_) }),
            },
    {
        if block.statements.len() == 0 {
            return None;
        }
        match &block.statements[block.statements.len() - 1] {
            HirStmt::Expr { expression: Some(e) } => Some(e),
            _ => None,
        }
    }

    /// Lowers a block's statements; `Ok(true)` when the block always returns.
    /// Bindings made in the block end with it.
    pub fn compile_hir_block(&mut self, block: &HirBlock) -> (r: Result<bool, CompileError>)
        requires
            old(self).wf(),
        ensures
            r is Ok ==> same_scope(old(self), final(self)),
            final(self).facts_view() == old(self).facts_view(),
            r is Ok ==> lowering_ok(old(self), final(self)),
            step_outcome(r, block_lowerable(*block), final(self)),
            r matches Ok(b) ==> b == block_returns(*block),
            r is Ok ==> stmts_lowered(old(self), final(self), block.statements@),
        decreases block, 0int,
    {
        let ghost c0 = self.code();
        proof {
            lemma_region_start(c0);
        }
        let scope = self.local_count();
        let mut i: usize = 0;
        let mut returned = false;
        let ghost mut ms: Seq<Compiler> = seq![*self];
        while i < block.statements.len() && !returned
            invariant
                self.wf(),
                self.facts_view() == old(self).facts_view(),
                c0 == old(self).code(),
                lowered(c0, self.code()),
                old(self).next_register() <= self.next_register(),
                scope == old(self).locals().len(),
                scope <= self.locals().len(),
                seq_extends(old(self).locals(), self.locals()),
                seq_extends(old(self).local_shapes(), self.local_shapes()),
                i <= block.statements.len(),
                !returned ==> stmts_lowerable(block.statements@, 0, block.statements@.len() as int)
                    == stmts_lowerable(block.statements@, i as int, block.statements@.len() as int),
                !returned ==> stmts_return(block.statements@, 0, block.statements@.len() as int) == stmts_return(
                    block.statements@,
                    i as int,
                    block.statements@.len() as int,
                ),
                returned ==> stmts_lowerable(block.statements@, 0, block.statements@.len() as int) && stmts_return(
                    block.statements@,
                    0,
                    block.statements@.len() as int,
                ),
                ms.len() == i + 1,
                ms[0] == *old(self),
                ms[i as int] == *self,
                forall|j: int| 0 <= j < i ==> stmt_lowered(&ms[j], &ms[j + 1], #[trigger] block.statements@[j]),
                forall|j: int| 0 <= j < i - 1 ==> !stmt_returns(#[trigger] block.statements@[j]),
                returned ==> i >= 1 && stmt_returns(block.statements@[i - 1]),
                !returned && i >= 1 ==> !stmt_returns(block.statements@[i - 1]),
            decreases block.statements.len() - i,
        {
            proof {
                assert(decreases_to!(*block => block.statements));
                assert(decreases_to!(block.statements => block.statements@));
                assert(decreases_to!(block.statements@ => block.statements@[i as int]));
            }
            let ghost c1 = self.code();
            let ghost l1 = self.locals().len();
            returned = self.compile_hir_statement(&block.statements[i])?;
            proof {
                lemma_region_lowered(c0, c1, self.code(), Set::empty());
                ms = ms.push(*self);
            }
            i = i + 1;
        }
        let ghost last = *self;
        proof {
            self.lemma_local_shapes_len();
            old(self).lemma_local_shapes_len();
        }
        self.drop_locals_from(scope);
        proof {
            assert(self.locals() =~= old(self).locals());
            assert(self.local_shapes() =~= old(self).local_shapes());
            assert(ms[ms.len() - 1] == last);
            assert(stmt_states(old(self), self, block.statements@, ms));
        }
        Ok(returned)
    }

    /// Lowers one statement; `Ok(true)` when it always returns.
    pub fn compile_hir_statement(&mut self, statement: &HirStmt) -> (r: Result<bool, CompileError>)
        requires
            old(self).wf(),
        ensures
            final(self).facts_view() == old(self).facts_view(),
            r is Ok ==> lowering_ok(old(self), final(self)),
            step_outcome(r, stmt_lowerable(*statement), final(self)),
            r matches Ok(b) ==> b == stmt_returns(*statement),
            statement matches HirStmt::For { iterable, body, .. } && (iterable is None || body is None) ==> r
                == Err::<bool, CompileError>(CompileError::UnsupportedSyntax("statement")),
            r is Ok ==> stmt_lowered(old(self), final(self), *statement),
        decreases statement, 1int,
    {
        let ghost c0 = self.code();
        proof {
            lemma_region_start(c0);
        }
        match statement {
            HirStmt::Let { pattern, initializer } => {
                let ghost s0 = *self;
                let value = match initializer {
                    Some(initializer) => self.compile_hir_expression(initializer)?,
                    None => {
                        let r = self.emit_constant(Constant::Unit)?;
                        proof {
                            lemma_region_push(c0, c0, Set::empty(), InstrModel::LoadConst(r, ConstModel::Unit));
                        }
                        r
                    },
                };
                let shape = match initializer {
                    Some(initializer) => self.value_shape_for_hir_expression(initializer),
                    None => None,
                };
                match pattern {
                    Some(HirPattern::Binding { local: Some(name) }) => {
                        let ghost m = *self;
                        let aliases = match initializer {
                            Some(initializer) => hir_expression_aliases_existing_register(initializer),
                            None => false,
                        };
                        let local_value = if aliases {
                            let ghost c1 = self.code();
                            let copy = self.alloc_register()?;
                            self.emit(Instruction::Move { dst: copy, src: value });
                            proof {
                                lemma_region_push(c0, c1, Set::empty(), InstrModel::Move(copy, value));
                            }
                            copy
                        } else {
                            value
                        };
                        self.bind_local_with_shape(name.clone(), local_value, shape);
                        proof {
                            assert(s0 == *old(self));
                            assert(move_of(local_value, value) == InstrModel::Move(local_value, value));
                            match initializer {
                                Some(x) => assert(lowered_value(&s0, &m, *x, value)),
                                None => assert(lowered_value(&s0, &m, HirExpr::Unit, value)),
                            }
                            assert(self.locals().last().1 == local_value);
                            assert(self.locals().drop_last() =~= old(self).locals());
                            assert(self.local_shapes() =~= old(self).local_shapes().push(
                                (
                                    name@,
                                    match initializer {
                                        Some(x) => expr_shape(old(self).facts_view(), old(self).local_shapes(), *x),
                                        None => None,
                                    },
                                ),
                            ));
                        }
                    },
                    Some(other) => {
                        let ghost c1 = self.code();
                        self.bind_hir_pattern_locals(value, other)?;
                        proof {
                            lemma_region_lowered(c0, c1, self.code(), Set::empty());
                        }
                    },
                    None => {},
                }
                Ok(false)
            },
            HirStmt::Return { value } => {
                let ghost s0 = *self;
                let src = match value {
                    Some(value) => self.compile_hir_expression(value)?,
                    None => {
                        let r = self.emit_constant(Constant::Unit)?;
                        proof {
                            lemma_region_push(c0, c0, Set::empty(), InstrModel::LoadConst(r, ConstModel::Unit));
                        }
                        r
                    },
                };
                let ghost m = *self;
                let ghost c1 = self.code();
                self.emit(Instruction::Return { src });
                proof {
                    lemma_region_push(c0, c1, Set::empty(), InstrModel::Return(src));
                    assert(s0 == *old(self));
                    assert(return_of(src) == InstrModel::Return(src));
                    assert(m.code() == c1);
                    match value {
                        Some(x) => assert(lowered_value(&s0, &m, *x, src)),
                        None => assert(lowered_value(&s0, &m, HirExpr::Unit, src)),
                    }
                }
                Ok(true)
            },
            HirStmt::Block(block) => self.compile_hir_block(block),
            HirStmt::Expr { expression: Some(expression) } => {
                let v = self.compile_hir_expression(expression)?;
                proof {
                    assert(lowered_value(old(self), self, *expression, v));
                }
                Ok(false)
            },
            HirStmt::Expr { expression: None } => Ok(false),
            HirStmt::If(value) => self.compile_hir_if_statement(value),
            HirStmt::Match(value) => self.compile_hir_match(value, None),
            HirStmt::For { .. } => self.compile_hir_for(statement),
        }
    }

    /// Lowers an `if` in statement position; `Ok(true)` when both branches
    /// always return.
    pub fn compile_hir_if_statement(&mut self, value: &HirIf) -> (r: Result<bool, CompileError>)
        requires
            old(self).wf(),
        ensures
            r is Ok ==> same_scope(old(self), final(self)),
            final(self).facts_view() == old(self).facts_view(),
            r is Ok ==> lowering_ok(old(self), final(self)),
            value.condition is None ==> r == Err::<bool, CompileError>(CompileError::UnsupportedSyntax("if condition")),
            step_outcome(r, if_stmt_lowerable(*value), final(self)),
            r matches Ok(b) ==> b == if_stmt_returns(*value),
        decreases value, 0int,
    {
        let ghost c0 = self.code();
        let condition = match &value.condition {
            Some(c) => &**c,
            None => return Err(CompileError::UnsupportedSyntax("if condition")),
        };
        let else_jump = self.compile_hir_jump_if_false(condition)?;
        let ghost c1 = self.code();
        let ghost p1 = set![else_jump as int];
        let then_returned = match &value.then_block {
            Some(block) => self.compile_hir_block(block)?,
            None => false,
        };
        let ghost c2 = self.code();
        proof {
            if c2 != c1 {
                lemma_region_lowered(c0, c1, c2, p1);
            }
        }
        let end_jump = self.emit_jump();
        let ghost c3 = self.code();
        proof {
            lemma_region_push_jump(c0, c2, p1, InstrModel::Jump(PENDING_TARGET));
        }
        let target = self.current_offset();
        let ghost p3 = p1.insert(end_jump as int);
        match self.patch_jump(else_jump, target) {
            Ok(()) => {},
            Err(err) => {
                proof {
                    assert(p3.contains(else_jump as int));
                }
                return Err(err);
            },
        }
        let ghost c4 = self.code();
        proof {
            lemma_region_patch(c0, c3, p3, else_jump as int, target);
            assert(p3.remove(else_jump as int) =~= set![end_jump as int]);
        }
        let else_returned = match &value.else_branch {
            Some(branch) => match &**branch {
                HirElseBranch::If(inner) => self.compile_hir_if_statement(inner)?,
                HirElseBranch::Block(block) => self.compile_hir_block(block)?,
            },
            None => false,
        };
        let ghost c5 = self.code();
        proof {
            if c5 != c4 {
                lemma_region_lowered(c0, c4, c5, set![end_jump as int]);
            }
        }
        let target = self.current_offset();
        match self.patch_jump(end_jump, target) {
            Ok(()) => {},
            Err(err) => {
                proof {
                    assert(set![end_jump as int].contains(end_jump as int));
                }
                return Err(err);
            },
        }
        proof {
            lemma_region_patch(c0, c5, set![end_jump as int], end_jump as int, target);
            assert(set![end_jump as int].remove(end_jump as int) =~= Set::<int>::empty());
        }
        Ok(then_returned && else_returned)
    }

    /// Lowers an `if` whose value goes to `dst`; a missing branch gives `()`.
    /// `Ok(true)` when both branches always return.
    #[verifier::rlimit(100)]
    #[verifier::spinoff_prover]
    pub fn compile_hir_if_value_to(&mut self, value: &HirIf, dst: Register) -> (r: Result<bool, CompileError>)
        requires
            old(self).wf(),
            dst.0 < old(self).next_register(),
        ensures
            r is Ok ==> same_scope(old(self), final(self)),
            final(self).facts_view() == old(self).facts_view(),
            r is Ok ==> lowering_ok(old(self), final(self)),
            value.condition is None ==> r == Err::<bool, CompileError>(CompileError::UnsupportedSyntax("if condition"))
                && *final(self) == *old(self),
            step_outcome(r, if_value_lowerable(*value), final(self)),
            r matches Ok(b) ==> b == if_value_returns(*value),
            r is Ok && value.then_block is None ==> exists|p: int|
                #![trigger final(self).code()[p]]
                old(self).code().len() <= p && p + 1 < final(self).code().len() && final(self).code()[p] is JumpIfFalse
                    && final(self).code()[p + 1] == InstrModel::LoadConst(dst, ConstModel::Unit),
            r is Ok && value.else_branch is None ==> final(self).code().last() == InstrModel::LoadConst(
                dst,
                ConstModel::Unit,
            ),
            r is Ok ==> if_written(final(self), *value, dst, old(self).code().len() as int),
        decreases value, 0int,
    {
        let ghost c0 = self.code();
        let condition = match &value.condition {
            Some(c) => &**c,
            None => return Err(CompileError::UnsupportedSyntax("if condition")),
        };
        let jump_to_else = self.compile_hir_jump_if_false(condition)?;
        let ghost s1 = *self;
        let ghost c1 = self.code();
        let ghost (cm, cr) = choose|m: Compiler, c: Register|
            #![trigger m.code(), test_jump(c, PENDING_TARGET as int)]
            {
                &&& lowered_value(old(self), &m, *condition, c)
                &&& old(self).code().len() <= m.code().len()
                &&& c1 == m.code().push(test_jump(c, PENDING_TARGET as int))
            };
        let ghost p1 = set![jump_to_else as int];
        let then_returned = match &value.then_block {
            Some(block) => self.compile_hir_block_value_to(block, dst)?,
            None => {
                self.emit_constant_to(dst, Constant::Unit);
                proof {
                    lemma_region_push(c0, c1, p1, InstrModel::LoadConst(dst, ConstModel::Unit));
                }
                false
            },
        };
        let ghost s2 = *self;
        let ghost c2 = self.code();
        proof {
            if value.then_block is Some {
                lemma_region_lowered(c0, c1, c2, p1);
            }
        }
        let jump_to_end = if !then_returned {
            let j = self.emit_jump();
            proof {
                lemma_region_push_jump(c0, c2, p1, InstrModel::Jump(PENDING_TARGET));
            }
            Some(j)
        } else {
            None
        };
        let ghost c3 = self.code();
        let ghost p3: Set<int> = match jump_to_end {
            Some(j) => p1.insert(j as int),
            None => p1,
        };
        let ghost end_set: Set<int> = match jump_to_end {
            Some(j) => set![j as int],
            None => Set::empty(),
        };
        let target = self.current_offset();
        match self.patch_jump(jump_to_else, target) {
            Ok(()) => {},
            Err(err) => {
                proof {
                    assert(p3.contains(jump_to_else as int));
                }
                return Err(err);
            },
        }
        let ghost s4 = *self;
        let ghost c4 = self.code();
        proof {
            lemma_region_patch(c0, c3, p3, jump_to_else as int, target);
            assert(p3.remove(jump_to_else as int) =~= end_set);
        }
        let else_returned = match &value.else_branch {
            Some(branch) => match &**branch {
                HirElseBranch::If(inner) => self.compile_hir_if_value_to(inner, dst)?,
                HirElseBranch::Block(block) => self.compile_hir_block_value_to(block, dst)?,
            },
            None => {
                self.emit_constant_to(dst, Constant::Unit);
                proof {
                    lemma_region_push(c0, c4, end_set, InstrModel::LoadConst(dst, ConstModel::Unit));
                }
                false
            },
        };
        let ghost s5 = *self;
        let ghost c5 = self.code();
        let ghost p = jump_to_else as int;
        proof {
            if value.else_branch is Some {
                lemma_region_lowered(c0, c4, c5, end_set);
            }
            if value.then_block is None {
                assert(c1[p] is JumpIfFalse);
                assert(c2[p + 1] == InstrModel::LoadConst(dst, ConstModel::Unit));
                assert(c3[p] == c1[p]);
                assert(c4[p] is JumpIfFalse);
                if value.else_branch is Some {
                    assert(c5.subrange(0, c4.len() as int)[p] == c5[p]);
                    assert(c5.subrange(0, c4.len() as int)[p + 1] == c5[p + 1]);
                }
                assert(c5[p] is JumpIfFalse && c5[p + 1] == InstrModel::LoadConst(dst, ConstModel::Unit));
            }
        }
        match jump_to_end {
            Some(j) => {
                let target = self.current_offset();
                match self.patch_jump(j, target) {
                    Ok(()) => {},
                    Err(err) => {
                        proof {
                            assert(end_set.contains(j as int));
                        }
                        return Err(err);
                    },
                }
                proof {
                    assert(c3[j as int] == InstrModel::Jump(PENDING_TARGET));
                    assert(c4[j as int] == c3[j as int]);
                    if value.else_branch is Some {
                        assert(c5.subrange(0, c4.len() as int)[j as int] == c5[j as int]);
                    }
                    assert(c5[j as int] == c4[j as int]);
                    assert(self.code()[j as int] == InstrModel::Jump(self.code().len() as usize));
                    lemma_region_patch(c0, c5, end_set, j as int, target);
                    assert(end_set.remove(j as int) =~= Set::<int>::empty());
                    if value.else_branch is None {
                        assert(self.code().last() == c5.last());
                    }
                    if value.then_block is None {
                        assert(self.code()[p] is JumpIfFalse);
                        assert(self.code()[p + 1] == c5[p + 1]);
                    }
                }
            },
            None => {
                proof {
                    assert(end_set =~= Set::<int>::empty());
                }
            },
        }
        proof {
            if value.then_block is None {
                assert(self.code()[p] is JumpIfFalse);
                assert(self.code()[p + 1] == InstrModel::LoadConst(dst, ConstModel::Unit));
                assert(set![p].contains(p));
                assert(c0.len() <= p && p + 1 < self.code().len());
            }
            let fin = self.code();
            let jl = c2.len() as int;
            assert(fin.len() == c5.len());
            assert forall|i: int| 0 <= i < c5.len() && (then_returned || i != jl) implies #[trigger] fin[i] == c5[i] by {}
            assert(!then_returned ==> fin[jl] == InstrModel::Jump(fin.len() as usize));
            assert(c5.subrange(0, c4.len() as int) == c4);
            assert(code_agrees(fin, c2, c1.len() as int, c2.len() as int)) by {
                assert forall|i: int| c1.len() <= i < c2.len() implies #[trigger] fin[i] == c2[i] by {
                    assert(c5.subrange(0, c4.len() as int)[i] == c5[i]);
                    assert(c4[i] == c3[i]);
                }
            }
            assert(code_agrees(fin, c5, c4.len() as int, c5.len() as int)) by {
                assert forall|i: int| c4.len() <= i < c5.len() implies #[trigger] fin[i] == c5[i] by {}
            }
            match &value.else_branch {
                Some(branch) => match &**branch {
                    HirElseBranch::Block(b) => {
                        if !else_returned {
                            lemma_block_written_frame(s5, *self, *b, dst, c4.len() as int);
                        }
                    },
                    HirElseBranch::If(w) => {
                        lemma_if_written_frame(s5, *self, *w, dst, c4.len() as int);
                    },
                },
                None => {},
            }
            assert(s1.code() == c1 && s2.code() == c2 && s4.code() == c4);
            lemma_if_parts_hold(*self, *value, dst, s1, s2, s4);
            let pc = cm.code().len() as int;
            assert(pc == p);
            assert(c1[pc] == test_jump(cr, PENDING_TARGET as int));
            assert(fin[pc] == c4[pc]);
            assert(c4[pc] == test_jump(cr, c4.len() as int));
            assert(code_agrees(fin, cm.code(), c0.len() as int, pc)) by {
                assert forall|i: int| c0.len() <= i < pc implies #[trigger] fin[i] == cm.code()[i] by {
                    assert(c5.subrange(0, c4.len() as int)[i] == c5[i]);
                    assert(c4[i] == c3[i]);
                    assert(c1[i] == cm.code()[i]);
                }
            }
            assert(value.condition matches Some(x) && lowered_value(old(self), &cm, *x, cr));
            assert(old(self).code() == c0);
            reveal(if_condition_tested);
            assert(if_condition_tested(self, *value, c0.len() as int, s1, s4));
            lemma_if_written_from(*self, *value, dst, c0.len() as int, s1, s2, s4);
        }
        Ok(then_returned && else_returned)
    }

    /// Lowers a block whose value goes to `dst`: the statements before a last
    /// expression or `if` statement, then that value (`()` when there is none).
    /// `Ok(true)` when the block always returns.
    pub fn compile_hir_block_value_to(&mut self, block: &HirBlock, dst: Register) -> (r: Result<bool, CompileError>)
        requires
            old(self).wf(),
            dst.0 < old(self).next_register(),
        ensures
            r is Ok ==> same_scope(old(self), final(self)),
            final(self).facts_view() == old(self).facts_view(),
            r is Ok ==> lowering_ok(old(self), final(self)),
            step_outcome(r, block_value_lowerable(*block), final(self)),
            r matches Ok(b) ==> b == block_value_returns(*block),
            r == Ok::<bool, CompileError>(false) ==> block_value_written(final(self), *block, dst, old(self).code().len() as int),
            r == Ok::<bool, CompileError>(true) ==> stmts_lowered(
                old(self),
                final(self),
                block.statements@.subrange(0, value_prefix_len(block.statements@)),
            ),
        decreases block, 0int,
    {
        let ghost c0 = self.code();
        proof {
            lemma_region_start(c0);
        }
        let scope = self.local_count();
        let n = block.statements.len();
        let has_tail = n > 0 && match &block.statements[n - 1] {
            HirStmt::Expr { expression: Some(_) } => true,
            HirStmt::If(_) => true,
            HirStmt::Match(_) => true,
            _ => false,
        };
        let prefix_len = if has_tail { n - 1 } else { n };
        proof {
            assert(prefix_len == value_prefix_len(block.statements@));
        }
        let mut i: usize = 0;
        let ghost mut ms: Seq<Compiler> = seq![*self];
        while i < prefix_len
            invariant
                prefix_len == value_prefix_len(block.statements@),
                has_tail == (prefix_len < n),
                stmts_lowerable(block.statements@, 0, prefix_len as int) == stmts_lowerable(
                    block.statements@,
                    i as int,
                    prefix_len as int,
                ),
                stmts_return(block.statements@, 0, prefix_len as int) == stmts_return(
                    block.statements@,
                    i as int,
                    prefix_len as int,
                ),
                self.wf(),
                self.facts_view() == old(self).facts_view(),
                c0 == old(self).code(),
                lowered(c0, self.code()),
                old(self).next_register() <= self.next_register(),
                dst.0 < self.next_register(),
                scope == old(self).locals().len(),
                scope <= self.locals().len(),
                seq_extends(old(self).locals(), self.locals()),
                seq_extends(old(self).local_shapes(), self.local_shapes()),
                prefix_len <= n == block.statements@.len(),
                i <= prefix_len,
                ms.len() == i + 1,
                ms[0] == *old(self),
                ms[i as int] == *self,
                forall|j: int| 0 <= j < i ==> stmt_lowered(&ms[j], &ms[j + 1], #[trigger] block.statements@[j]),
                forall|j: int| 0 <= j < i ==> !stmt_returns(#[trigger] block.statements@[j]),
            decreases prefix_len - i,
        {
            proof {
                assert(decreases_to!(*block => block.statements));
                assert(decreases_to!(block.statements => block.statements@));
                assert(decreases_to!(block.statements@ => block.statements@[i as int]));
            }
            let ghost c1 = self.code();
            let returned = self.compile_hir_statement(&block.statements[i])?;
            proof {
                lemma_region_lowered(c0, c1, self.code(), Set::empty());
                ms = ms.push(*self);
            }
            if returned {
                let ghost last = *self;
                proof {
                    self.lemma_local_shapes_len();
                    old(self).lemma_local_shapes_len();
                }
                self.drop_locals_from(scope);
                proof {
                    assert(self.locals() =~= old(self).locals());
                    assert(self.local_shapes() =~= old(self).local_shapes());
                    let ss = block.statements@.subrange(0, prefix_len as int);
                    assert(ms[ms.len() - 1] == last);
                    assert forall|j: int| 0 <= j < ms.len() - 1 implies stmt_lowered(&ms[j], &ms[j + 1], #[trigger] ss[j]) by {
                        assert(ss[j] == block.statements@[j]);
                    }
                    assert forall|j: int| 0 <= j < ms.len() - 2 implies !stmt_returns(#[trigger] ss[j]) by {
                        assert(ss[j] == block.statements@[j]);
                    }
                    assert(ss[i as int] == block.statements@[i as int]);
                    assert(stmt_states(old(self), self, ss, ms));
                }
                return Ok(true);
            }
            i = i + 1;
        }
        let ghost c1 = self.code();
        if has_tail {
            proof {
                assert(decreases_to!(*block => block.statements));
                assert(decreases_to!(block.statements => block.statements@));
                assert(decreases_to!(block.statements@ => block.statements@[n - 1]));
            }
            match &block.statements[n - 1] {
                HirStmt::Expr { expression: Some(expression) } => {
                    let ghost p = *self;
                    let value = self.compile_hir_expression(expression)?;
                    let ghost m = *self;
                    let ghost c2 = self.code();
                    self.emit(Instruction::Move { dst, src: value });
                    proof {
                        lemma_region_lowered(c0, c1, c2, Set::empty());
                        lemma_region_push(c0, c2, Set::empty(), InstrModel::Move(dst, value));
                        assert(move_of(dst, value) == InstrModel::Move(dst, value));
                        assert(lowered_value(&p, &m, *expression, value));
                        assert(p.code() == c1 && m.code() == c2);
                        assert(code_agrees(self.code(), c2, c1.len() as int, c2.len() as int));
                        reveal(block_value_written);
                        assert(block_value_written(self, *block, dst, c0.len() as int));
                    }
                },
                HirStmt::If(value) => {
                    self.compile_hir_if_value_to(value, dst)?;
                    proof {
                        lemma_region_lowered(c0, c1, self.code(), Set::empty());
                        lemma_if_written_earlier(*self, *value, dst, c0.len() as int, c1.len() as int);
                        reveal(block_value_written);
                        reveal(if_written);
                        reveal(if_parts);
                        assert(block.statements@.last() == block.statements@[n - 1]);
                        assert(block_value_written(self, *block, dst, c0.len() as int));
                    }
                },
                HirStmt::Match(value) => {
                    self.compile_hir_match(value, Some(dst))?;
                    proof {
                        lemma_region_lowered(c0, c1, self.code(), Set::empty());
                        lemma_match_written_earlier(*self, *value, dst, c0.len() as int, c1.len() as int);
                        reveal(block_value_written);
                        reveal(match_written);
                        assert(block.statements@.last() == block.statements@[n - 1]);
                        assert(block_value_written(self, *block, dst, c0.len() as int));
                    }
                },
                _ => {},
            }
        } else {
            self.emit_constant_to(dst, Constant::Unit);
            proof {
                lemma_region_push(c0, c1, Set::empty(), InstrModel::LoadConst(dst, ConstModel::Unit));
                reveal(block_value_written);
                assert(block_value_written(self, *block, dst, c0.len() as int));
            }
        }
        proof {
            self.lemma_local_shapes_len();
            old(self).lemma_local_shapes_len();
        }
        let ghost kept = *self;
        self.drop_locals_from(scope);
        proof {
            assert(self.locals() =~= old(self).locals());
            assert(self.local_shapes() =~= old(self).local_shapes());
            if has_tail && !(block.statements@[n - 1] is Expr || block.statements@[n - 1] is If
                || block.statements@[n - 1] is Match) {
                reveal(block_value_written);
            }
            assert(code_agrees(self.code(), kept.code(), c0.len() as int, kept.code().len() as int));
            lemma_block_written_frame(kept, *self, *block, dst, c0.len() as int);
        }
        Ok(false)
    }
}


/// A `Move` between registers.
pub open spec fn move_of(dst: Register, src: Register) -> InstrModel {
    InstrModel::Move(dst, src)
}

/// What lowering a statement did, from `before` to `after`: code appended
/// with its jumps closed; a `let` of one name binds it, last, to the
/// register `let_bound` gives, with the initializer's shape; another `let`
/// that declares no local keeps the bindings; `return` returns the
/// register its value was lowered into; an expression statement lowers its
/// expression; an empty one emits nothing; the others keep the bindings.
pub open spec fn stmt_lowered(before: &Compiler, after: &Compiler, s: HirStmt) -> bool {
    &&& lowering_ok(before, after)
    &&& match s {
        HirStmt::Let { pattern: Some(HirPattern::Binding { local: Some(n) }), initializer } => {
            &&& after.locals().len() == before.locals().len() + 1
            &&& after.locals().drop_last() == before.locals()
            &&& after.locals().last().0 == n@
            &&& let_bound(before, after, initializer, after.locals().last().1)
            &&& after.local_shapes() == before.local_shapes().push(
                (
                    n@,
                    match initializer {
                        Some(x) => expr_shape(before.facts_view(), before.local_shapes(), x),
                        None => None,
                    },
                ),
            )
        },
        HirStmt::Let { pattern: Some(p), .. } => !pattern_declares_local(p) ==> same_scope(before, after),
        HirStmt::Return { value } => same_scope(before, after) && return_lowered(before, after, value),
        HirStmt::Expr { expression: Some(x) } => same_scope(before, after) && exists|v: Register|
            lowered_value(before, after, x, v),
        HirStmt::Expr { expression: None } => *after == *before,
        _ => same_scope(before, after),
    }
}

/// The states `ms` a run over statements `ss` went through, from `before`
/// to `after`: statement `k` lowered from `ms[k]` to `ms[k + 1]`, in order,
/// up to the end or up to and including the first that always returns.
pub open spec fn stmt_states(before: &Compiler, after: &Compiler, ss: Seq<HirStmt>, ms: Seq<Compiler>) -> bool {
    let k = ms.len() - 1;
    &&& 1 <= ms.len() <= ss.len() + 1
    &&& ms[0] == *before
    &&& ms[k].code() == after.code() && ms[k].next_register() == after.next_register()
    &&& forall|j: int| 0 <= j < k ==> stmt_lowered(&ms[j], &ms[j + 1], #[trigger] ss[j])
    &&& forall|j: int| 0 <= j < k - 1 ==> !stmt_returns(#[trigger] ss[j])
    &&& k == ss.len() || (k >= 1 && stmt_returns(ss[k - 1]))
}

/// The statements were lowered one after the other, each as `stmt_lowered`
/// says, those after the first that always returns left out.
pub open spec fn stmts_lowered(before: &Compiler, after: &Compiler, ss: Seq<HirStmt>) -> bool {
    exists|ms: Seq<Compiler>| #[trigger] stmt_states(before, after, ss, ms)
}

/// `a` and `b` hold the same instructions at the offsets from `from` up to `to`.
pub open spec fn code_agrees(a: Seq<InstrModel>, b: Seq<InstrModel>, from: int, to: int) -> bool {
    forall|i: int| from <= i < to ==> #[trigger] a[i] == b[i]
}

/// What a block lowered from offset `start` on leaves in `dst` when it
/// falls through: a last expression is lowered (at or after `start`) and
/// its register moved there, last; a last `if` writes it on each branch
/// (see `if_written`), a last `match` in each arm (see `match_written`);
/// with no value-giving last statement, unit is loaded there, last.
#[verifier::opaque]
pub open spec fn block_value_written(after: &Compiler, block: HirBlock, dst: Register, start: int) -> bool
    decreases block, 0int,
{
    let ss = block.statements@;
    if value_prefix_len(ss) == ss.len() {
        after.code().len() >= start + 1 && after.code().last() == InstrModel::LoadConst(dst, ConstModel::Unit)
    } else {
        match ss.last() {
            HirStmt::Expr { expression: Some(e) } => exists|p: Compiler, m: Compiler, v: Register|
                #![trigger p.code(), m.code(), move_of(dst, v)]
                {
                    &&& lowered_value(&p, &m, e, v)
                    &&& start <= p.code().len() <= m.code().len()
                    &&& after.code().len() == m.code().len() + 1
                    &&& after.code().last() == move_of(dst, v)
                    &&& code_agrees(after.code(), m.code(), p.code().len() as int, m.code().len() as int)
                },
            HirStmt::If(v) => {
                proof {
                    assert(decreases_to!(block => block.statements));
                    assert(decreases_to!(block.statements => block.statements@));
                    assert(decreases_to!(block.statements@ => block.statements@[ss.len() - 1]));
                }
                if_written(after, v, dst, start)
            },
            HirStmt::Match(m) => {
                proof {
                    assert(decreases_to!(block => block.statements));
                    assert(decreases_to!(block.statements => block.statements@));
                    assert(decreases_to!(block.statements@ => block.statements@[ss.len() - 1]));
                }
                match_written(*after, m, dst, start)
            },
            _ => true,
        }
    }
}

/// What an `if` lowered from offset `start` on leaves in `dst`: its
/// condition is lowered and tested first (see `if_condition_tested`), then
/// each branch writes `dst` (see `if_parts`).
#[verifier::opaque]
pub open spec fn if_written(after: &Compiler, v: HirIf, dst: Register, start: int) -> bool
    decreases v, 1int,
{
    exists|t0: Compiler, t1: Compiler, e0: Compiler|
        #![trigger t0.code(), t1.code(), e0.code()]
        start <= t0.code().len() && if_parts(after, v, dst, t0, t1, e0) && if_condition_tested(after, v, start, t0, e0)
}

/// A test of `c` that jumps to `target` when it is false.
pub open spec fn test_jump(c: Register, target: int) -> InstrModel {
    InstrModel::JumpIfFalse(c, target as usize)
}

/// The condition of an `if` lowered from offset `start` on: lowered from
/// `b0` to `cm` into `c`, standing unchanged in the code, then tested, the
/// test jumping to the else-branch at the offset of `e0`; the then-branch
/// starts right after the test, at the offset of `t0`.
#[verifier::opaque]
pub open spec fn if_condition_tested(after: &Compiler, v: HirIf, start: int, t0: Compiler, e0: Compiler) -> bool
    decreases v, 0int,
{
    exists|b0: Compiler, cm: Compiler, c: Register|
        #![trigger b0.code(), cm.code(), test_jump(c, e0.code().len() as int)]
        {
            &&& v.condition matches Some(x) && lowered_value(&b0, &cm, *x, c)
            &&& start <= b0.code().len() <= cm.code().len()
            &&& t0.code().len() == cm.code().len() + 1
            &&& code_agrees(after.code(), cm.code(), b0.code().len() as int, cm.code().len() as int)
            &&& after.code()[cm.code().len() as int] == test_jump(c, e0.code().len() as int)
        }
}

/// The tested condition of an `if` stays in place when code from `start` on is kept.
pub proof fn lemma_condition_frame(a: Compiler, a2: Compiler, v: HirIf, start: int, t0: Compiler, e0: Compiler)
    requires
        if_condition_tested(&a, v, start, t0, e0),
        t0.code().len() <= a.code().len(),
        a2.code().len() == a.code().len(),
        code_agrees(a2.code(), a.code(), start, a.code().len() as int),
    ensures
        if_condition_tested(&a2, v, start, t0, e0),
{
    reveal(if_condition_tested);
    assert forall|b0: Compiler, cm: Compiler, c: Register|
        #![trigger b0.code(), cm.code(), test_jump(c, e0.code().len() as int)]
        start <= b0.code().len() <= cm.code().len() && t0.code().len() == cm.code().len() + 1 && code_agrees(
            a.code(),
            cm.code(),
            b0.code().len() as int,
            cm.code().len() as int,
        ) && a.code()[cm.code().len() as int] == test_jump(c, e0.code().len() as int) implies code_agrees(
        a2.code(),
        cm.code(),
        b0.code().len() as int,
        cm.code().len() as int,
    ) && a2.code()[cm.code().len() as int] == test_jump(c, e0.code().len() as int) by {
        assert forall|i: int| b0.code().len() <= i < cm.code().len() implies #[trigger] a2.code()[i] == cm.code()[i] by {
            assert(a.code()[i] == cm.code()[i]);
        }
        assert(a2.code()[cm.code().len() as int] == a.code()[cm.code().len() as int]);
    }
}

/// The pieces of an `if` that writes `dst`: its then-branch, lowered from
/// `t0` to `t1` and standing unchanged in the code, writes `dst` there (unit
/// when it is missing) and, when it falls through, jumps to the end; its
/// else-branch, lowered from the offset of `e0` on, writes `dst` (unit when
/// it is missing, then last).
#[verifier::opaque]
pub open spec fn if_parts(after: &Compiler, v: HirIf, dst: Register, t0: Compiler, t1: Compiler, e0: Compiler) -> bool
    decreases v, 0int,
{
    let then_falls = match v.then_block {
        Some(b) => !block_value_returns(b),
        None => true,
    };
    &&& t0.code().len() <= t1.code().len() <= e0.code().len() <= after.code().len()
    &&& code_agrees(after.code(), t1.code(), t0.code().len() as int, t1.code().len() as int)
    &&& match v.then_block {
        None => t1.code().len() == t0.code().len() + 1 && t1.code().last() == InstrModel::LoadConst(dst, ConstModel::Unit),
        Some(b) => block_value_returns(b) || block_value_written(&t1, b, dst, t0.code().len() as int),
    }
    &&& then_falls ==> t1.code().len() < after.code().len() && after.code()[t1.code().len() as int] == InstrModel::Jump(
        after.code().len() as usize,
    )
    &&& match v.else_branch {
        None => after.code().len() >= e0.code().len() + 1 && after.code().last() == InstrModel::LoadConst(
            dst,
            ConstModel::Unit,
        ),
        Some(branch) => {
            proof {
                assert(decreases_to!(v => v.else_branch));
            }
            match *branch {
                HirElseBranch::Block(b) => block_value_returns(b) || block_value_written(after, b, dst, e0.code().len() as int),
                HirElseBranch::If(w) => if_written(after, w, dst, e0.code().len() as int),
            }
        },
    }
}

/// A condition tested from a later offset on is tested from an earlier one on.
pub proof fn lemma_condition_earlier(a: Compiler, v: HirIf, s0: int, s1: int, t0: Compiler, e0: Compiler)
    requires
        s0 <= s1,
        if_condition_tested(&a, v, s1, t0, e0),
    ensures
        if_condition_tested(&a, v, s0, t0, e0),
{
    reveal(if_condition_tested);
}

/// The pieces of an `if`, each shown, make up `if_parts`.
pub proof fn lemma_if_parts_hold(fin: Compiler, v: HirIf, dst: Register, t0: Compiler, t1: Compiler, e0: Compiler)
    requires
        t0.code().len() <= t1.code().len() <= e0.code().len() <= fin.code().len(),
        code_agrees(fin.code(), t1.code(), t0.code().len() as int, t1.code().len() as int),
        match v.then_block {
            None => t1.code().len() == t0.code().len() + 1 && t1.code().last() == InstrModel::LoadConst(dst, ConstModel::Unit),
            Some(b) => block_value_returns(b) || block_value_written(&t1, b, dst, t0.code().len() as int),
        },
        (match v.then_block {
            Some(b) => !block_value_returns(b),
            None => true,
        }) ==> t1.code().len() < fin.code().len() && fin.code()[t1.code().len() as int] == InstrModel::Jump(
            fin.code().len() as usize,
        ),
        match v.else_branch {
            None => fin.code().len() >= e0.code().len() + 1 && fin.code().last() == InstrModel::LoadConst(
                dst,
                ConstModel::Unit,
            ),
            Some(branch) => match *branch {
                HirElseBranch::Block(b) => block_value_returns(b) || block_value_written(&fin, b, dst, e0.code().len() as int),
                HirElseBranch::If(w) => if_written(&fin, w, dst, e0.code().len() as int),
            },
        },
    ensures
        if_parts(&fin, v, dst, t0, t1, e0),
{
    reveal(block_value_written);
    reveal(if_written);
    reveal(if_parts);
}

/// An `if` lowered from its pieces is written from any offset up to its
/// then-branch's start.
pub proof fn lemma_if_written_from(fin: Compiler, v: HirIf, dst: Register, start: int, t0: Compiler, t1: Compiler, e0: Compiler)
    requires
        start <= t0.code().len(),
        if_parts(&fin, v, dst, t0, t1, e0),
        if_condition_tested(&fin, v, start, t0, e0),
    ensures
        if_written(&fin, v, dst, start),
{
    reveal(if_written);
    reveal(if_parts);
    reveal(block_value_written);
    reveal(if_condition_tested);
    assert(t0.code().len() >= 0 && t1.code().len() >= 0 && e0.code().len() >= 0);
}

/// What an `if` writes from a later offset on, it writes from an earlier one on.
pub proof fn lemma_if_written_earlier(fin: Compiler, v: HirIf, dst: Register, s0: int, s1: int)
    requires
        s0 <= s1,
        if_written(&fin, v, dst, s1),
    ensures
        if_written(&fin, v, dst, s0),
{
    reveal(if_written);
    reveal(if_parts);
    reveal(block_value_written);
    reveal(if_condition_tested);
    let (t0, t1, e0) = choose|t0: Compiler, t1: Compiler, e0: Compiler|
        #![trigger t0.code(), t1.code(), e0.code()]
        s1 <= t0.code().len() && if_parts(&fin, v, dst, t0, t1, e0) && if_condition_tested(&fin, v, s1, t0, e0);
    lemma_condition_earlier(fin, v, s0, s1, t0, e0);
    lemma_if_written_from(fin, v, dst, s0, t0, t1, e0);
}

/// What a block writes stays written when code from `start` on is kept.
pub proof fn lemma_block_written_frame(a: Compiler, a2: Compiler, block: HirBlock, dst: Register, start: int)
    requires
        block_value_written(&a, block, dst, start),
        a2.code().len() == a.code().len(),
        code_agrees(a2.code(), a.code(), start, a.code().len() as int),
    ensures
        block_value_written(&a2, block, dst, start),
    decreases block, 0int,
{
    reveal(block_value_written);
    reveal(if_written);
    reveal(if_parts);
    let ss = block.statements@;
    if value_prefix_len(ss) == ss.len() {
        assert(a2.code()[a.code().len() - 1] == a.code()[a.code().len() - 1]);
    } else {
        match ss.last() {
            HirStmt::Expr { expression: Some(e) } => {
                assert(a2.code()[a.code().len() - 1] == a.code()[a.code().len() - 1]);
                assert forall|p: Compiler, m: Compiler, v: Register|
                    #![trigger p.code(), m.code(), move_of(dst, v)]
                    start <= p.code().len() <= m.code().len() && a.code().len() == m.code().len() + 1
                        && a.code().last() == move_of(dst, v) && code_agrees(
                        a.code(),
                        m.code(),
                        p.code().len() as int,
                        m.code().len() as int,
                    ) implies a2.code().len() == m.code().len() + 1 && a2.code().last() == move_of(dst, v)
                    && code_agrees(a2.code(), m.code(), p.code().len() as int, m.code().len() as int) by {
                    assert forall|i: int| p.code().len() <= i < m.code().len() implies #[trigger] a2.code()[i] == m.code()[i] by {
                        assert(a.code()[i] == m.code()[i]);
                    }
                }
            },
            HirStmt::If(v) => {
                assert(decreases_to!(block => block.statements));
                assert(decreases_to!(block.statements => block.statements@));
                assert(decreases_to!(block.statements@ => block.statements@[ss.len() - 1]));
                lemma_if_written_frame(a, a2, v, dst, start);
            },
            HirStmt::Match(m) => {
                reveal(match_written);
                lemma_match_written_frame(a, a2, m, dst, start);
            },
            _ => {},
        }
    }
}

/// What an `if` writes stays written when code from `start` on is kept.
pub proof fn lemma_if_written_frame(a: Compiler, a2: Compiler, v: HirIf, dst: Register, start: int)
    requires
        if_written(&a, v, dst, start),
        a2.code().len() == a.code().len(),
        code_agrees(a2.code(), a.code(), start, a.code().len() as int),
    ensures
        if_written(&a2, v, dst, start),
    decreases v, 1int,
{
    reveal(block_value_written);
    reveal(if_written);
    reveal(if_parts);
    reveal(if_condition_tested);
    let (t0, t1, e0) = choose|t0: Compiler, t1: Compiler, e0: Compiler|
        #![trigger t0.code(), t1.code(), e0.code()]
        start <= t0.code().len() && if_parts(&a, v, dst, t0, t1, e0) && if_condition_tested(&a, v, start, t0, e0);
    assert(if_parts(&a, v, dst, t0, t1, e0));
    lemma_condition_frame(a, a2, v, start, t0, e0);
    assert(code_agrees(a.code(), t1.code(), t0.code().len() as int, t1.code().len() as int));
    let then_falls = match v.then_block {
        Some(b) => !block_value_returns(b),
        None => true,
    };
    assert(code_agrees(a2.code(), t1.code(), t0.code().len() as int, t1.code().len() as int)) by {
        assert forall|i: int| t0.code().len() <= i < t1.code().len() implies #[trigger] a2.code()[i] == t1.code()[i] by {
            assert(a.code()[i] == t1.code()[i]);
        }
    }
    if then_falls {
        assert(a2.code()[t1.code().len() as int] == a.code()[t1.code().len() as int]);
    }
    assert(code_agrees(a2.code(), a.code(), e0.code().len() as int, a.code().len() as int));
    match v.else_branch {
        None => {
            assert(a2.code()[a.code().len() - 1] == a.code()[a.code().len() - 1]);
        },
        Some(branch) => {
            assert(decreases_to!(v => v.else_branch));
            match *branch {
                HirElseBranch::Block(b) => {
                    if !block_value_returns(b) {
                        lemma_block_written_frame(a, a2, b, dst, e0.code().len() as int);
                    }
                },
                HirElseBranch::If(w) => {
                    lemma_if_written_frame(a, a2, w, dst, e0.code().len() as int);
                },
            }
        },
    }
    assert(if_parts(&a2, v, dst, t0, t1, e0));
}

/// A block body's value is returned: the block's value is written to the
/// first register handed out for the body, which is then returned.
pub open spec fn block_value_returned(before: &Compiler, after: &Compiler, b: HirBlock) -> bool {
    let dst = Register(before.next_register() as u32);
    exists|m: Compiler|
        #![trigger m.code()]
        {
            &&& block_value_written(&m, b, dst, before.code().len() as int)
            &&& after.code() == m.code().push(return_of(dst))
        }
}

/// A body run for its effects can be lowered.
pub open spec fn body_lowerable(root: HirBodyRoot) -> bool {
    match root {
        HirBodyRoot::Block(b) => block_lowerable(b),
        HirBodyRoot::Expr(e) => expr_lowerable(e),
        HirBodyRoot::Empty => true,
    }
}

/// A body whose value is returned can be lowered.
pub open spec fn value_body_lowerable(root: HirBodyRoot) -> bool {
    match root {
        HirBodyRoot::Block(b) => block_value_lowerable(b),
        HirBodyRoot::Expr(e) => expr_lowerable(e),
        HirBodyRoot::Empty => true,
    }
}

/// A block body returns by itself before giving its value.
pub open spec fn value_body_returns(root: HirBodyRoot) -> bool {
    match root {
        HirBodyRoot::Block(b) => block_value_returns(b),
        _ => false,
    }
}

impl Compiler {
    /// Lowers a body for its effects; `Ok(true)` when it always returns: an
    /// expression body returns its value.
    pub fn compile_hir_body_root(&mut self, root: &HirBodyRoot) -> (r: Result<bool, CompileError>)
        requires
            old(self).wf(),
        ensures
            final(self).facts_view() == old(self).facts_view(),
            r is Ok ==> lowering_ok(old(self), final(self)) && same_scope(old(self), final(self)),
            step_outcome(r, body_lowerable(*root), final(self)),
            r matches Ok(b) ==> b == match *root {
                HirBodyRoot::Block(block) => block_returns(block),
                HirBodyRoot::Expr(_) => true,
                HirBodyRoot::Empty => false,
            },
            r is Ok ==> match *root {
                HirBodyRoot::Expr(e) => return_lowered(old(self), final(self), Some(e)),
                HirBodyRoot::Block(block) => stmts_lowered(old(self), final(self), block.statements@),
                HirBodyRoot::Empty => true,
            },
            *root is Empty ==> r == Ok::<bool, CompileError>(false) && *final(self) == *old(self),
    {
        let ghost c0 = self.code();
        proof {
            lemma_region_start(c0);
        }
        match root {
            HirBodyRoot::Block(block) => self.compile_hir_block(block),
            HirBodyRoot::Expr(expression) => {
                let ghost s0 = *self;
                let value = self.compile_hir_expression(expression)?;
                let ghost m = *self;
                let ghost c1 = self.code();
                self.emit(Instruction::Return { src: value });
                proof {
                    lemma_region_push(c0, c1, Set::empty(), InstrModel::Return(value));
                    assert(s0 == *old(self));
                    assert(return_of(value) == InstrModel::Return(value));
                    assert(m.code() == c1);
                    assert(lowered_value(&s0, &m, *expression, value));
                }
                Ok(true)
            },
            HirBodyRoot::Empty => Ok(false),
        }
    }

    /// Lowers a body whose value the code returns: an expression is
    /// returned, a block's value is returned unless the block always returns
    /// by itself, and an empty body returns `()`. Gives the number of
    /// registers the code uses.
    pub fn compile_hir_value_body(&mut self, root: &HirBodyRoot) -> (r: Result<u32, CompileError>)
        requires
            old(self).wf(),
        ensures
            final(self).facts_view() == old(self).facts_view(),
            r is Ok ==> lowering_ok(old(self), final(self)) && same_scope(old(self), final(self)),
            step_outcome(r, value_body_lowerable(*root), final(self)),
            r matches Ok(n) ==> n == final(self).next_register(),
            r is Ok ==> match *root {
                HirBodyRoot::Expr(e) => return_lowered(old(self), final(self), Some(e)),
                HirBodyRoot::Empty => return_lowered(old(self), final(self), None),
                HirBodyRoot::Block(b) => !block_value_returns(b) ==> block_value_returned(old(self), final(self), b),
            },
    {
        let ghost c0 = self.code();
        proof {
            lemma_region_start(c0);
        }
        match root {
            HirBodyRoot::Expr(expression) => {
                let ghost s0 = *self;
                let value = self.compile_hir_expression(expression)?;
                let ghost m = *self;
                let ghost c1 = self.code();
                self.emit(Instruction::Return { src: value });
                proof {
                    lemma_region_push(c0, c1, Set::empty(), InstrModel::Return(value));
                    assert(s0 == *old(self));
                    assert(return_of(value) == InstrModel::Return(value));
                    assert(m.code() == c1);
                    assert(lowered_value(&s0, &m, *expression, value));
                }
            },
            HirBodyRoot::Block(block) => {
                let dst = self.alloc_register()?;
                let returned = self.compile_hir_block_value_to(block, dst)?;
                if !returned {
                    let ghost m = *self;
                    let ghost c1 = self.code();
                    self.emit(Instruction::Return { src: dst });
                    proof {
                        lemma_region_push(c0, c1, Set::empty(), InstrModel::Return(dst));
                        assert(return_of(dst) == InstrModel::Return(dst));
                        assert(m.code() == c1);
                        assert(block_value_written(&m, *block, dst, c0.len() as int));
                    }
                }
            },
            HirBodyRoot::Empty => {
                let ghost s0 = *self;
                let value = self.emit_constant(Constant::Unit)?;
                let ghost m = *self;
                let ghost c1 = self.code();
                self.emit(Instruction::Return { src: value });
                proof {
                    lemma_region_push(c0, c0, Set::empty(), InstrModel::LoadConst(value, ConstModel::Unit));
                    lemma_region_push(c0, c1, Set::empty(), InstrModel::Return(value));
                    assert(s0 == *old(self));
                    assert(return_of(value) == InstrModel::Return(value));
                    assert(m.code() == c1);
                    assert(lowered_value(&s0, &m, HirExpr::Unit, value));
                }
            },
        }
        Ok(self.next_register_value())
    }
}

} // verus!
