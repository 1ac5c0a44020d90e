use vstd::prelude::*;

use crate::compiler::{CompileError, Compiler};
use crate::hir::{
    HirBinaryOp, HirBlock, HirElseBranch, HirExpr, HirIf, HirInterpolatedPart, HirLiteral, HirMapEntry, HirMatch, HirMatchArm, HirMatchArmBody,
    HirPattern,
    HirRecordPatternField, HirStmt,
};
use crate::match_lowering::pattern_needs_check;
use crate::patterns::enum_variant_path_spec;
use crate::script_types::string_views;

verus! {

/// How a lowering step may end: it succeeds only on what can be lowered,
/// refuses only what cannot, runs out of registers only when every
/// register number is used, and never finds a broken jump.
pub open spec fn step_outcome<T>(r: Result<T, CompileError>, lowerable: bool, after: &Compiler) -> bool {
    match r {
        Ok(_) => lowerable,
        Err(CompileError::UnsupportedSyntax(_)) => !lowerable,
        Err(CompileError::RegisterOverflow) => after.next_register() == u32::MAX,
        Err(CompileError::InvalidJump) => false,
    }
}

/// The index is a string literal, read by name.
pub open spec fn is_str_literal(e: HirExpr) -> bool {
    e matches HirExpr::Literal(HirLiteral::Str(_))
}

/// Every part of the expression that its lowering lowers has a form the
/// lowering knows: readable literals, single-name paths, operators with
/// all their operands, blocks, `if`, `match`, indexing and field reads.
pub open spec fn expr_lowerable(e: HirExpr) -> bool
    decreases e, 3int, 0int,
{
    match e {
        HirExpr::Literal(l) => !(l is Invalid),
        HirExpr::Path(p) => p@.len() == 1,
        HirExpr::Paren(Some(inner)) => expr_lowerable(*inner),
        HirExpr::Unit => true,
        HirExpr::Tuple(es) => exprs_lowerable(es@, es@.len() as int),
        HirExpr::Array(es) => exprs_lowerable(es@, es@.len() as int),
        HirExpr::Unary { op: Some(_), operand: Some(x) } => expr_lowerable(*x),
        HirExpr::Binary { op: Some(_), lhs: Some(l), rhs: Some(r) } => expr_lowerable(*l) && expr_lowerable(*r),
        HirExpr::Block(b) => block_value_lowerable(b),
        HirExpr::If(v) => if_value_lowerable(v),
        HirExpr::Match(m) => match_lowerable(m, true),
        HirExpr::Index { receiver, index } => expr_lowerable(*receiver) && (is_str_literal(*index) || expr_lowerable(
            *index,
        )),
        HirExpr::Field { receiver, .. } => expr_lowerable(*receiver),
        HirExpr::MapLiteral(entries) => entries_lowerable(entries@, entries@.len() as int),
        HirExpr::Interpolated(parts) => parts_lowerable(parts@, parts@.len() as int),
        _ => false,
    }
}

/// The expressions among the first `n` pieces of an interpolated string
/// can be lowered.
pub open spec fn parts_lowerable(parts: Seq<HirInterpolatedPart>, n: int) -> bool
    decreases parts, 0int, n,
{
    if n <= 0 || n > parts.len() {
        true
    } else {
        parts_lowerable(parts, n - 1) && match parts[n - 1] {
            HirInterpolatedPart::Expr(x) => expr_lowerable(x),
            HirInterpolatedPart::Text(_) => true,
        }
    }
}

pub proof fn lemma_parts_lowerable(parts: Seq<HirInterpolatedPart>, n: int, k: int)
    requires
        parts_lowerable(parts, n),
        0 <= k < n <= parts.len(),
    ensures
        parts[k] matches HirInterpolatedPart::Expr(x) ==> expr_lowerable(x),
    decreases n,
{
    if k < n - 1 {
        lemma_parts_lowerable(parts, n - 1, k);
    }
}

/// The first `n` expressions can all be lowered.
pub open spec fn exprs_lowerable(es: Seq<HirExpr>, n: int) -> bool
    decreases es, 0int, n,
{
    if n <= 0 || n > es.len() {
        true
    } else {
        exprs_lowerable(es, n - 1) && expr_lowerable(es[n - 1])
    }
}

/// Each of the first `n` map entries names its key and has a value that
/// can be lowered.
pub open spec fn entries_lowerable(entries: Seq<HirMapEntry>, n: int) -> bool
    decreases entries, 0int, n,
{
    if n <= 0 || n > entries.len() {
        true
    } else {
        entries_lowerable(entries, n - 1) && entries[n - 1].logical_key is Some && match entries[n - 1].value {
            Some(v) => expr_lowerable(v),
            None => false,
        }
    }
}

/// The statement can be lowered.
pub open spec fn stmt_lowerable(s: HirStmt) -> bool
    decreases s, 2int, 0int,
{
    match s {
        HirStmt::Let { initializer, .. } => match initializer {
            Some(x) => expr_lowerable(x),
            None => true,
        },
        HirStmt::Return { value } => match value {
            Some(x) => expr_lowerable(x),
            None => true,
        },
        HirStmt::Block(b) => block_lowerable(b),
        HirStmt::Expr { expression } => match expression {
            Some(x) => expr_lowerable(x),
            None => true,
        },
        HirStmt::If(v) => if_stmt_lowerable(v),
        HirStmt::Match(m) => match_lowerable(m, false),
        HirStmt::For { patterns, iterable, body } => {
            &&& iterable matches Some(x) && match range_bounds(x) {
                Some((a, b, _)) => expr_lowerable(a) && expr_lowerable(b),
                None => expr_lowerable(x),
            }
            &&& (patterns@.len() > 1 ==> pattern_lowerable(patterns@[0]))
            &&& (patterns@.len() > 0 ==> pattern_lowerable(patterns@.last()))
            &&& body matches Some(b) && block_lowerable(b)
        },
    }
}

/// The bounds of a range written `a..b` (`a..=b` when the flag is set).
pub open spec fn range_bounds(e: HirExpr) -> Option<(HirExpr, HirExpr, bool)> {
    match e {
        HirExpr::Binary { op: Some(HirBinaryOp::Range), lhs: Some(a), rhs: Some(b) } => Some((*a, *b, false)),
        HirExpr::Binary { op: Some(HirBinaryOp::RangeInclusive), lhs: Some(a), rhs: Some(b) } => Some((*a, *b, true)),
        _ => None,
    }
}

/// The statement always returns.
pub open spec fn stmt_returns(s: HirStmt) -> bool
    decreases s, 2int, 0int,
{
    match s {
        HirStmt::Return { .. } => true,
        HirStmt::Block(b) => block_returns(b),
        HirStmt::If(v) => if_stmt_returns(v),
        HirStmt::Match(m) => match_returns(m, false),
        _ => false,
    }
}

/// The statements from `i` up to `end` can be lowered, up to and including
/// the first that always returns (those after it are not lowered).
pub open spec fn stmts_lowerable(ss: Seq<HirStmt>, i: int, end: int) -> bool
    decreases ss, 0int, end - i,
{
    if i < 0 || i >= end || end > ss.len() {
        true
    } else {
        stmt_lowerable(ss[i]) && (stmt_returns(ss[i]) || stmts_lowerable(ss, i + 1, end))
    }
}

/// One of the statements from `i` up to `end` always returns.
pub open spec fn stmts_return(ss: Seq<HirStmt>, i: int, end: int) -> bool
    decreases ss, 0int, end - i,
{
    if i < 0 || i >= end || end > ss.len() {
        false
    } else {
        stmt_returns(ss[i]) || stmts_return(ss, i + 1, end)
    }
}

/// The block's statements can be lowered.
pub open spec fn block_lowerable(b: HirBlock) -> bool
    decreases b, 1int, 0int,
{
    stmts_lowerable(b.statements@, 0, b.statements@.len() as int)
}

/// The block always returns.
pub open spec fn block_returns(b: HirBlock) -> bool
    decreases b, 1int, 0int,
{
    stmts_return(b.statements@, 0, b.statements@.len() as int)
}

/// The last statement gives the block's value: an expression, an `if` or a `match`.
pub open spec fn is_value_tail(s: HirStmt) -> bool {
    s matches HirStmt::Expr { expression: Some(_) } || s is If || s is Match
}

/// How many statements come before a block's value.
pub open spec fn value_prefix_len(ss: Seq<HirStmt>) -> int {
    if ss.len() > 0 && is_value_tail(ss.last()) {
        ss.len() - 1
    } else {
        ss.len() as int
    }
}

/// The value-giving last statement can be lowered.
pub open spec fn tail_lowerable(s: HirStmt) -> bool
    decreases s, 2int, 0int,
{
    match s {
        HirStmt::Expr { expression: Some(x) } => expr_lowerable(x),
        HirStmt::If(v) => if_value_lowerable(v),
        HirStmt::Match(m) => match_lowerable(m, true),
        _ => true,
    }
}

/// The block, whose value is wanted, can be lowered: the statements before
/// its value up to one that always returns, then, when none does, the
/// statement giving its value.
pub open spec fn block_value_lowerable(b: HirBlock) -> bool
    decreases b, 1int, 0int,
{
    let ss = b.statements@;
    let p = value_prefix_len(ss);
    &&& stmts_lowerable(ss, 0, p)
    &&& (!stmts_return(ss, 0, p) && p < ss.len() ==> tail_lowerable(ss.last()))
}

/// The block, whose value is wanted, returns before its value.
pub open spec fn block_value_returns(b: HirBlock) -> bool
    decreases b, 1int, 0int,
{
    stmts_return(b.statements@, 0, value_prefix_len(b.statements@))
}

/// An `if` statement can be lowered.
pub open spec fn if_stmt_lowerable(v: HirIf) -> bool
    decreases v, 1int, 0int,
{
    &&& v.condition matches Some(c) && expr_lowerable(*c)
    &&& match v.then_block {
        Some(b) => block_lowerable(b),
        None => true,
    }
    &&& match v.else_branch {
        Some(branch) => match *branch {
            HirElseBranch::If(inner) => if_stmt_lowerable(inner),
            HirElseBranch::Block(b) => block_lowerable(b),
        },
        None => true,
    }
}

/// Both branches of an `if` statement always return.
pub open spec fn if_stmt_returns(v: HirIf) -> bool
    decreases v, 1int, 0int,
{
    &&& match v.then_block {
        Some(b) => block_returns(b),
        None => false,
    }
    &&& match v.else_branch {
        Some(branch) => match *branch {
            HirElseBranch::If(inner) => if_stmt_returns(inner),
            HirElseBranch::Block(b) => block_returns(b),
        },
        None => false,
    }
}

/// An `if` whose value is wanted can be lowered.
pub open spec fn if_value_lowerable(v: HirIf) -> bool
    decreases v, 1int, 0int,
{
    &&& v.condition matches Some(c) && expr_lowerable(*c)
    &&& match v.then_block {
        Some(b) => block_value_lowerable(b),
        None => true,
    }
    &&& match v.else_branch {
        Some(branch) => match *branch {
            HirElseBranch::If(inner) => if_value_lowerable(inner),
            HirElseBranch::Block(b) => block_value_lowerable(b),
        },
        None => true,
    }
}

/// Both branches of an `if` whose value is wanted return before giving it.
pub open spec fn if_value_returns(v: HirIf) -> bool
    decreases v, 1int, 0int,
{
    &&& match v.then_block {
        Some(b) => block_value_returns(b),
        None => false,
    }
    &&& match v.else_branch {
        Some(branch) => match *branch {
            HirElseBranch::If(inner) => if_value_returns(inner),
            HirElseBranch::Block(b) => block_value_returns(b),
        },
        None => false,
    }
}

/// The enum-variant path of a pattern names a variant of an enum.
pub open spec fn variant_path_ok(path: Vec<String>) -> bool {
    enum_variant_path_spec(string_views(path@)) is Some
}

/// The pattern's test can be lowered: a readable literal, variant paths
/// that name a variant, and, inside a tuple or record pattern, every part
/// that is tested.
pub open spec fn pattern_lowerable(p: HirPattern) -> bool
    decreases p, 0int,
{
    match p {
        HirPattern::Wildcard => true,
        HirPattern::Binding { .. } => true,
        HirPattern::Literal(Some(l)) => !(l is Invalid),
        HirPattern::Path { path: Some(q) } => variant_path_ok(q),
        HirPattern::TupleVariant { path, fields } => (match path {
            Some(q) => variant_path_ok(q),
            None => true,
        }) && tested_patterns_lowerable(fields@, fields@.len() as int),
        HirPattern::RecordVariant { path: Some(q), fields } => variant_path_ok(q) && tested_fields_lowerable(
            fields@,
            fields@.len() as int,
        ),
        _ => false,
    }
}

/// Each of the first `n` patterns that is tested can be lowered.
pub open spec fn tested_patterns_lowerable(ps: Seq<HirPattern>, n: int) -> bool
    decreases ps, n,
{
    if n <= 0 || n > ps.len() {
        true
    } else {
        tested_patterns_lowerable(ps, n - 1) && (!pattern_needs_check(ps[n - 1]) || pattern_lowerable(ps[n - 1]))
    }
}

/// The pattern of each of the first `n` record fields that is tested can be lowered.
pub open spec fn tested_fields_lowerable(fs: Seq<HirRecordPatternField>, n: int) -> bool
    decreases fs, n,
{
    if n <= 0 || n > fs.len() {
        true
    } else {
        tested_fields_lowerable(fs, n - 1) && match fs[n - 1].pattern {
            Some(p) => !pattern_needs_check(p) || pattern_lowerable(p),
            None => true,
        }
    }
}

/// The arm matches whatever reaches it: its pattern tests nothing and it
/// has no guard; the arms after it are not lowered.
pub open spec fn arm_catches_all(a: HirMatchArm) -> bool {
    &&& a.pattern matches Some(p) && !pattern_needs_check(p)
    &&& a.guard is None
}

/// The arm can be lowered: its pattern, its guard and its body (as a value
/// when the match's value is wanted).
pub open spec fn arm_lowerable(a: HirMatchArm, value: bool) -> bool
    decreases a, 0int, 0int,
{
    &&& a.pattern matches Some(p) && pattern_lowerable(p)
    &&& match a.guard {
        Some(g) => expr_lowerable(g),
        None => true,
    }
    &&& match a.body {
        Some(HirMatchArmBody::Expr(x)) => expr_lowerable(x),
        Some(HirMatchArmBody::Block(b)) => if value {
            block_value_lowerable(b)
        } else {
            block_lowerable(b)
        },
        None => false,
    }
}

/// The arm's body always returns.
pub open spec fn arm_returns(a: HirMatchArm, value: bool) -> bool
    decreases a, 0int, 0int,
{
    match a.body {
        Some(HirMatchArmBody::Block(b)) => if value {
            block_value_returns(b)
        } else {
            block_returns(b)
        },
        _ => false,
    }
}

/// The arms from `i` on can be lowered, up to and including the first that
/// matches whatever reaches it.
pub open spec fn arms_lowerable(arms: Seq<HirMatchArm>, i: int, value: bool) -> bool
    decreases arms, 0int, arms.len() - i,
{
    if i < 0 || i >= arms.len() {
        true
    } else {
        arm_lowerable(arms[i], value) && (arm_catches_all(arms[i]) || arms_lowerable(arms, i + 1, value))
    }
}

/// The arms from `i` on that are lowered all always return.
pub open spec fn arms_return(arms: Seq<HirMatchArm>, i: int, value: bool) -> bool
    decreases arms, 0int, arms.len() - i,
{
    if i < 0 || i >= arms.len() {
        true
    } else {
        arm_returns(arms[i], value) && (arm_catches_all(arms[i]) || arms_return(arms, i + 1, value))
    }
}

/// The `match` can be lowered: its scrutinee and the arms it lowers.
pub open spec fn match_lowerable(m: HirMatch, value: bool) -> bool
    decreases m, 1int, 0int,
{
    &&& m.scrutinee matches Some(s) && expr_lowerable(*s)
    &&& arms_lowerable(m.arms@, 0, value)
}

/// The `match` has arms and every arm it lowers always returns.
pub open spec fn match_returns(m: HirMatch, value: bool) -> bool
    decreases m, 1int, 0int,
{
    m.arms@.len() > 0 && arms_return(m.arms@, 0, value)
}

/// Both operands of a binary expression can be lowered.
pub open spec fn binary_operands_lowerable(e: HirExpr) -> bool {
    match e {
        HirExpr::Binary { lhs: Some(l), rhs: Some(r), .. } => expr_lowerable(*l) && expr_lowerable(*r),
        _ => false,
    }
}

/// A `&&` or `||` whose operands can be lowered.
pub open spec fn logical_lowerable(e: HirExpr) -> bool {
    match e {
        HirExpr::Binary { op: Some(o), lhs: Some(l), rhs: Some(r) } => (o == HirBinaryOp::And || o
            == HirBinaryOp::Or) && expr_lowerable(*l) && expr_lowerable(*r),
        _ => false,
    }
}

/// Each of the first `n` entries is complete and can be lowered when all of them are.
/// Some entry of the map lacks its key's name while every entry before it
/// can be lowered: lowering stops at that entry.
pub open spec fn map_key_missing_first(entries: Seq<HirMapEntry>) -> bool {
    exists|k: int| 0 <= k < entries.len() && (#[trigger] entries[k]).logical_key is None && entries_lowerable(entries, k)
}

pub proof fn lemma_entries_lowerable(entries: Seq<HirMapEntry>, n: int, k: int)
    requires
        entries_lowerable(entries, n),
        0 <= k < n <= entries.len(),
    ensures
        entries[k].logical_key is Some,
        entries[k].value matches Some(v) && expr_lowerable(v),
    decreases n,
{
    if k < n - 1 {
        lemma_entries_lowerable(entries, n - 1, k);
    }
}

/// Each of the first `n` expressions can be lowered when all of them can.
pub proof fn lemma_exprs_lowerable(es: Seq<HirExpr>, n: int, k: int)
    requires
        exprs_lowerable(es, n),
        0 <= k < n <= es.len(),
    ensures
        expr_lowerable(es[k]),
    decreases n,
{
    if k < n - 1 {
        lemma_exprs_lowerable(es, n - 1, k);
    }
}

} // verus!
