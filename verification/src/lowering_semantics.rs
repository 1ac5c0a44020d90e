use vstd::prelude::*;

use crate::compiler::{local_lookup, Compiler, ConstModel, InstrModel, Register};
use crate::hir::{HirBinaryOp, HirExpr, HirUnaryOp};
use crate::hir::HirLiteral;
use crate::hir_lowering::{
    binary_instr, binary_lowered, exprs_lowered, field_read_matches, get_index, index_read_matches,
    inverted_comparison, literal_const, logical_leaves, lowered_value, make_array, make_tuple, reads_from, unary_instr,
};
use crate::logical_lowering::{chain_links, leaf_in, link_end, link_in, logical_lowered};
use crate::lowerable::is_str_literal;
use crate::text::decimal_index;

verus! {

/// A value as straight-line code computes it, written as the expression
/// that gives it: what a register held before the code ran, a constant, a
/// global, or an operator applied to such values.
pub enum Term {
    Input(u32),
    Const(ConstModel),
    Global(Seq<char>),
    Unary(HirUnaryOp, Box<Term>),
    Binary(HirBinaryOp, Box<Term>, Box<Term>),
    Tuple(Seq<Term>),
    Array(Seq<Term>),
    TupleField(Box<Term>, usize),
    Field(Box<Term>, Seq<char>),
    Index(Box<Term>, Box<Term>),
    Key(Box<Term>, Seq<char>),
}

/// The operator a binary instruction applies, with its destination and its
/// operands' registers.
pub open spec fn binary_of(i: InstrModel) -> Option<(HirBinaryOp, Register, Register, Register)> {
    match i {
        InstrModel::Add(d, a, b) => Some((HirBinaryOp::Add, d, a, b)),
        InstrModel::Sub(d, a, b) => Some((HirBinaryOp::Sub, d, a, b)),
        InstrModel::Mul(d, a, b) => Some((HirBinaryOp::Mul, d, a, b)),
        InstrModel::Div(d, a, b) => Some((HirBinaryOp::Div, d, a, b)),
        InstrModel::Rem(d, a, b) => Some((HirBinaryOp::Rem, d, a, b)),
        InstrModel::Less(d, a, b) => Some((HirBinaryOp::Less, d, a, b)),
        InstrModel::LessEqual(d, a, b) => Some((HirBinaryOp::LessEqual, d, a, b)),
        InstrModel::Greater(d, a, b) => Some((HirBinaryOp::Greater, d, a, b)),
        InstrModel::GreaterEqual(d, a, b) => Some((HirBinaryOp::GreaterEqual, d, a, b)),
        InstrModel::Equal(d, a, b) => Some((HirBinaryOp::Equal, d, a, b)),
        InstrModel::NotEqual(d, a, b) => Some((HirBinaryOp::NotEqual, d, a, b)),
        InstrModel::IdentityEqual(d, a, b) => Some((HirBinaryOp::IdentityEqual, d, a, b)),
        InstrModel::IdentityNotEqual(d, a, b) => Some((HirBinaryOp::IdentityNotEqual, d, a, b)),
        InstrModel::MakeRange(d, a, b, inclusive) => Some(
            (if inclusive {
                HirBinaryOp::RangeInclusive
            } else {
                HirBinaryOp::Range
            }, d, a, b),
        ),
        _ => None,
    }
}

/// The registers with register `d` now holding `t`.
pub open spec fn set_reg(regs: spec_fn(u32) -> Term, d: u32, t: Term) -> spec_fn(u32) -> Term {
    |k: u32| if k == d { t } else { regs(k) }
}

/// What the listed registers hold.
pub open spec fn read_regs(regs: spec_fn(u32) -> Term, rs: Seq<Register>) -> Seq<Term> {
    Seq::new(rs.len(), |k: int| regs(rs[k].0))
}

/// One instruction of straight-line code on the registers; `None` for an
/// instruction this reading does not cover (jumps, calls, stores, ...).
pub open spec fn step(regs: spec_fn(u32) -> Term, i: InstrModel) -> Option<spec_fn(u32) -> Term> {
    match i {
        InstrModel::LoadConst(d, c) => Some(set_reg(regs, d.0, Term::Const(c))),
        InstrModel::LoadGlobal(d, name, _) => Some(set_reg(regs, d.0, Term::Global(name))),
        InstrModel::Move(d, s) => Some(set_reg(regs, d.0, regs(s.0))),
        InstrModel::Not(d, s) => Some(set_reg(regs, d.0, Term::Unary(HirUnaryOp::Not, Box::new(regs(s.0))))),
        InstrModel::Negate(d, s) => Some(set_reg(regs, d.0, Term::Unary(HirUnaryOp::Negate, Box::new(regs(s.0))))),
        InstrModel::MakeTuple(d, elements) => Some(set_reg(regs, d.0, Term::Tuple(read_regs(regs, elements)))),
        InstrModel::MakeArray(d, elements) => Some(set_reg(regs, d.0, Term::Array(read_regs(regs, elements)))),
        InstrModel::GetTupleField(d, v, k) => Some(set_reg(regs, d.0, Term::TupleField(Box::new(regs(v.0)), k))),
        InstrModel::GetRecordSlot(d, v, f, _) => Some(set_reg(regs, d.0, Term::Field(Box::new(regs(v.0)), f))),
        InstrModel::GetRecordField(d, v, f) => Some(set_reg(regs, d.0, Term::Field(Box::new(regs(v.0)), f))),
        InstrModel::GetIndex(d, b, i) => Some(
            set_reg(regs, d.0, Term::Index(Box::new(regs(b.0)), Box::new(regs(i.0)))),
        ),
        InstrModel::GetStringKeyIndex(d, b, k) => Some(set_reg(regs, d.0, Term::Key(Box::new(regs(b.0)), k))),
        _ => match binary_of(i) {
            Some((op, d, a, b)) => Some(
                set_reg(regs, d.0, Term::Binary(op, Box::new(regs(a.0)), Box::new(regs(b.0)))),
            ),
            None => None,
        },
    }
}

/// Straight-line code run from the given registers, one instruction after
/// the other.
pub open spec fn run(code: Seq<InstrModel>, regs: spec_fn(u32) -> Term) -> Option<spec_fn(u32) -> Term>
    decreases code.len(),
{
    if code.len() == 0 {
        Some(regs)
    } else {
        match run(code.drop_last(), regs) {
            Some(before) => step(before, code.last()),
            None => None,
        }
    }
}

/// An expression built from literals, names, parentheses and the unary and
/// non-logical binary operators: one whose code runs straight through.
pub open spec fn straight_line_expr(e: HirExpr) -> bool
    decreases e,
{
    match e {
        HirExpr::Literal(_) => true,
        HirExpr::Unit => true,
        HirExpr::Path(p) => p@.len() == 1,
        HirExpr::Paren(Some(x)) => straight_line_expr(*x),
        HirExpr::Unary { op: Some(_), operand: Some(x) } => straight_line_expr(*x),
        HirExpr::Binary { op: Some(op), lhs: Some(l), rhs: Some(r) } => op != HirBinaryOp::And && op
            != HirBinaryOp::Or && straight_line_expr(*l) && straight_line_expr(*r),
        HirExpr::Field { receiver, .. } => straight_line_expr(*receiver),
        HirExpr::Index { receiver, index } => straight_line_expr(*receiver) && (is_str_literal(*index)
            || straight_line_expr(*index)),
        HirExpr::Tuple(es) => {
            proof {
                assert(decreases_to!(e => es@));
            }
            straight_line_exprs(es@)
        },
        HirExpr::Array(es) => {
            proof {
                assert(decreases_to!(e => es@));
            }
            straight_line_exprs(es@)
        },
        _ => false,
    }
}

/// Each of the expressions runs straight through.
pub open spec fn straight_line_exprs(es: Seq<HirExpr>) -> bool
    decreases es,
{
    if es.len() == 0 {
        true
    } else {
        straight_line_exprs(es.subrange(0, es.len() - 1)) && straight_line_expr(es[es.len() - 1])
    }
}

/// The value of an expression, reading each bound local from the register
/// it is bound to (in `c`), as the registers `regs` hold them; `!` of an
/// equality or identity comparison is that comparison inverted.
pub open spec fn expr_term(c: Compiler, e: HirExpr, regs: spec_fn(u32) -> Term) -> Term
    decreases e, 1int,
{
    match e {
        HirExpr::Literal(l) => Term::Const(literal_const(l)),
        HirExpr::Path(p) => match local_lookup(c.locals(), p@[0]@) {
            Some(reg) => regs(reg.0),
            None => Term::Global(p@[0]@),
        },
        HirExpr::Paren(Some(x)) => expr_term(c, *x, regs),
        HirExpr::Unary { op: Some(u), operand: Some(x) } => if u == HirUnaryOp::Not && inverted_comparison(*x) is Some {
            comparison_term(c, *x, inverted_comparison(*x)->0, regs)
        } else {
            Term::Unary(u, Box::new(expr_term(c, *x, regs)))
        },
        HirExpr::Binary { op: Some(op), lhs: Some(l), rhs: Some(r) } => Term::Binary(
            op,
            Box::new(expr_term(c, *l, regs)),
            Box::new(expr_term(c, *r, regs)),
        ),
        HirExpr::Field { receiver, name } => match decimal_index(name@) {
            Some(k) => Term::TupleField(Box::new(expr_term(c, *receiver, regs)), k),
            None => Term::Field(Box::new(expr_term(c, *receiver, regs)), name@),
        },
        HirExpr::Index { receiver, index } => match *index {
            HirExpr::Literal(HirLiteral::Str(key)) => Term::Key(Box::new(expr_term(c, *receiver, regs)), key@),
            _ => Term::Index(Box::new(expr_term(c, *receiver, regs)), Box::new(expr_term(c, *index, regs))),
        },
        HirExpr::Tuple(es) => {
            proof {
                assert(decreases_to!(e => es@));
            }
            Term::Tuple(exprs_terms(c, es@, regs))
        },
        HirExpr::Array(es) => {
            proof {
                assert(decreases_to!(e => es@));
            }
            Term::Array(exprs_terms(c, es@, regs))
        },
        _ => Term::Const(ConstModel::Unit),
    }
}

/// The values of the expressions, in order.
pub open spec fn exprs_terms(c: Compiler, es: Seq<HirExpr>, regs: spec_fn(u32) -> Term) -> Seq<Term>
    decreases es, 0int,
{
    if es.len() == 0 {
        Seq::empty()
    } else {
        exprs_terms(c, es.subrange(0, es.len() - 1), regs).push(expr_term(c, es[es.len() - 1], regs))
    }
}

/// The value of the binary expression `b` (looking through parentheses)
/// with `op` in place of its operator.
pub open spec fn comparison_term(c: Compiler, b: HirExpr, op: HirBinaryOp, regs: spec_fn(u32) -> Term) -> Term
    decreases b, 0int,
{
    match b {
        HirExpr::Paren(Some(inner)) => comparison_term(c, *inner, op, regs),
        HirExpr::Binary { lhs: Some(l), rhs: Some(r), .. } => Term::Binary(
            op,
            Box::new(expr_term(c, *l, regs)),
            Box::new(expr_term(c, *r, regs)),
        ),
        _ => Term::Const(ConstModel::Unit),
    }
}

/// Running one instruction is taking its step.
pub proof fn lemma_run_one(i: InstrModel, regs: spec_fn(u32) -> Term)
    ensures
        run(seq![i], regs) == step(regs, i),
{
    assert(seq![i].drop_last() =~= Seq::<InstrModel>::empty());
    reveal_with_fuel(run, 2);
}

/// Running two pieces of code one after the other is running the first,
/// then the second on what it left.
pub proof fn lemma_run_concat(a: Seq<InstrModel>, b: Seq<InstrModel>, regs: spec_fn(u32) -> Term)
    ensures
        run(a + b, regs) == match run(a, regs) {
            Some(mid) => run(b, mid),
            None => None,
        },
    decreases b.len(),
{
    if b.len() == 0 {
        assert(a + b =~= a);
    } else {
        lemma_run_concat(a, b.drop_last(), regs);
        assert((a + b).drop_last() =~= a + b.drop_last());
        assert((a + b).last() == b.last());
    }
}

/// What the code lowered for `e` appended to `before`'s code: the new
/// instructions.
pub open spec fn new_code(before: Compiler, after: Compiler) -> Seq<InstrModel> {
    after.code().subrange(before.code().len() as int, after.code().len() as int)
}

/// What lowering an expression leaves behind: earlier code untouched,
/// register numbers not going back, the result in a register handed out.
pub open spec fn lowering_frame(before: Compiler, after: Compiler, r: Register) -> bool {
    &&& before.code().len() <= after.code().len()
    &&& after.code().subrange(0, before.code().len() as int) == before.code()
    &&& before.next_register() <= after.next_register()
    &&& r.0 < after.next_register()
}

/// The new code runs straight through from any registers `regs`, leaves
/// every register handed out before it as it was, and puts `value` in `r`.
pub open spec fn computes(before: Compiler, after: Compiler, r: Register, regs: spec_fn(u32) -> Term, value: Term) -> bool {
    &&& run(new_code(before, after), regs) is Some
    &&& run(new_code(before, after), regs)->0(r.0) == value
    &&& forall|k: u32| k < before.next_register() ==> #[trigger] run(new_code(before, after), regs)->0(k) == regs(k)
}

/// An expression's value reads only registers handed out already, through
/// the bindings it was lowered with.
pub proof fn lemma_term_reads_below(
    c1: Compiler,
    c2: Compiler,
    e: HirExpr,
    r1: spec_fn(u32) -> Term,
    r2: spec_fn(u32) -> Term,
)
    requires
        straight_line_expr(e),
        c1.wf(),
        c1.locals() == c2.locals(),
        forall|k: u32| k < c1.next_register() ==> #[trigger] r1(k) == r2(k),
    ensures
        expr_term(c1, e, r1) == expr_term(c2, e, r2),
    decreases e, 1int,
{
    match e {
        HirExpr::Path(p) => {
            c1.lemma_local_register_below(p@[0]@);
        },
        HirExpr::Paren(Some(x)) => {
            lemma_term_reads_below(c1, c2, *x, r1, r2);
        },
        HirExpr::Unary { op: Some(u), operand: Some(x) } => {
            if u == HirUnaryOp::Not && inverted_comparison(*x) is Some {
                lemma_comparison_reads_below(c1, c2, *x, inverted_comparison(*x)->0, r1, r2);
            } else {
                lemma_term_reads_below(c1, c2, *x, r1, r2);
            }
        },
        HirExpr::Binary { op: Some(op), lhs: Some(l), rhs: Some(r) } => {
            lemma_term_reads_below(c1, c2, *l, r1, r2);
            lemma_term_reads_below(c1, c2, *r, r1, r2);
        },
        HirExpr::Field { receiver, .. } => {
            lemma_term_reads_below(c1, c2, *receiver, r1, r2);
        },
        HirExpr::Index { receiver, index } => {
            lemma_term_reads_below(c1, c2, *receiver, r1, r2);
            if !is_str_literal(*index) {
                lemma_term_reads_below(c1, c2, *index, r1, r2);
            }
        },
        HirExpr::Tuple(es) => {
            assert(decreases_to!(e => es@));
            lemma_terms_read_below(c1, c2, es@, r1, r2);
        },
        HirExpr::Array(es) => {
            assert(decreases_to!(e => es@));
            lemma_terms_read_below(c1, c2, es@, r1, r2);
        },
        _ => {},
    }
}

proof fn lemma_terms_read_below(
    c1: Compiler,
    c2: Compiler,
    es: Seq<HirExpr>,
    r1: spec_fn(u32) -> Term,
    r2: spec_fn(u32) -> Term,
)
    requires
        straight_line_exprs(es),
        c1.wf(),
        c1.locals() == c2.locals(),
        forall|k: u32| k < c1.next_register() ==> #[trigger] r1(k) == r2(k),
    ensures
        exprs_terms(c1, es, r1) == exprs_terms(c2, es, r2),
    decreases es, 0int,
{
    if es.len() > 0 {
        lemma_terms_read_below(c1, c2, es.subrange(0, es.len() - 1), r1, r2);
        lemma_term_reads_below(c1, c2, es[es.len() - 1], r1, r2);
    }
}

proof fn lemma_comparison_reads_below(
    c1: Compiler,
    c2: Compiler,
    b: HirExpr,
    op: HirBinaryOp,
    r1: spec_fn(u32) -> Term,
    r2: spec_fn(u32) -> Term,
)
    requires
        straight_line_expr(b),
        c1.wf(),
        c1.locals() == c2.locals(),
        forall|k: u32| k < c1.next_register() ==> #[trigger] r1(k) == r2(k),
    ensures
        comparison_term(c1, b, op, r1) == comparison_term(c2, b, op, r2),
    decreases b, 0int,
{
    match b {
        HirExpr::Paren(Some(inner)) => {
            lemma_comparison_reads_below(c1, c2, *inner, op, r1, r2);
        },
        HirExpr::Binary { lhs: Some(l), rhs: Some(r), .. } => {
            lemma_term_reads_below(c1, c2, *l, r1, r2);
            lemma_term_reads_below(c1, c2, *r, r1, r2);
        },
        _ => {},
    }
}

/// The code lowered for an expression that runs straight through computes
/// the expression: run from any registers, it leaves in its result register
/// the expression's value over what the registers of its bound locals held,
/// and changes no register handed out before it.
pub proof fn law_lowered_expression_computes_its_value(
    before: Compiler,
    after: Compiler,
    e: HirExpr,
    r: Register,
    regs: spec_fn(u32) -> Term,
)
    requires
        straight_line_expr(e),
        before.wf(),
        lowered_value(&before, &after, e, r),
    ensures
        lowering_frame(before, after, r),
        computes(before, after, r, regs, expr_term(before, e, regs)),
    decreases e, 1int,
{
    let bl = before.code().len() as int;
    match e {
        HirExpr::Literal(l) => {
            assert(new_code(before, after) =~= seq![InstrModel::LoadConst(r, literal_const(l))]);
            lemma_run_one(InstrModel::LoadConst(r, literal_const(l)), regs);
            assert(after.code().subrange(0, bl) =~= before.code());
        },
        HirExpr::Unit => {
            assert(new_code(before, after) =~= seq![InstrModel::LoadConst(r, ConstModel::Unit)]);
            lemma_run_one(InstrModel::LoadConst(r, ConstModel::Unit), regs);
            assert(after.code().subrange(0, bl) =~= before.code());
        },
        HirExpr::Path(p) => {
            before.lemma_local_register_below(p@[0]@);
            match local_lookup(before.locals(), p@[0]@) {
                Some(reg) => {
                    assert(new_code(before, after) =~= Seq::<InstrModel>::empty());
                    assert(after.code().subrange(0, bl) =~= before.code());
                },
                None => {
                    let i = after.code().last();
                    assert(new_code(before, after) =~= seq![i]);
                    lemma_run_one(i, regs);
                    assert(after.code().subrange(0, bl) =~= before.code());
                },
            }
        },
        HirExpr::Paren(Some(x)) => {
            law_lowered_expression_computes_its_value(before, after, *x, r, regs);
        },
        HirExpr::Unary { op: Some(u), operand: Some(x) } => {
            if u == HirUnaryOp::Not && inverted_comparison(*x) is Some {
                lemma_inverted_not_logical(*x);
                lemma_comparison_computes(before, after, *x, inverted_comparison(*x)->0, r, regs);
            } else {
                assert(exists|m: Compiler, s: Register|
                    #![trigger m.code(), unary_instr(u, r, s)]
                    {
                        &&& lowered_value(&before, &m, *x, s)
                        &&& m.locals() == before.locals()
                        &&& m.wf()
                        &&& before.next_register() <= m.next_register()
                        &&& r.0 == m.next_register()
                        &&& after.next_register() == m.next_register() + 1
                        &&& after.code() == m.code().push(unary_instr(u, r, s))
                    });
                let (m, s) = choose|m: Compiler, s: Register|
                    #![trigger m.code(), unary_instr(u, r, s)]
                    {
                        &&& lowered_value(&before, &m, *x, s)
                        &&& m.locals() == before.locals()
                        &&& m.wf()
                        &&& before.next_register() <= m.next_register()
                        &&& r.0 == m.next_register()
                        &&& after.next_register() == m.next_register() + 1
                        &&& after.code() == m.code().push(unary_instr(u, r, s))
                    };
                law_lowered_expression_computes_its_value(before, m, *x, s, regs);
                let seg1 = new_code(before, m);
                let i = unary_instr(u, r, s);
                assert(new_code(before, after) =~= seg1 + seq![i]);
                lemma_run_concat(seg1, seq![i], regs);
                assert(after.code().subrange(0, bl) =~= m.code().subrange(0, bl));
                let r1 = run(seg1, regs)->0;
                lemma_run_one(i, r1);
            }
        },
        HirExpr::Binary { op: Some(op), lhs: Some(_), rhs: Some(_) } => {
            lemma_comparison_computes(before, after, e, op, r, regs);
        },
        HirExpr::Field { receiver, name } => {
            let last = after.code().last();
            assert(exists|m: Compiler, base: Register|
                #![trigger m.code(), reads_from(last, base)]
                {
                    &&& lowered_value(&before, &m, *receiver, base)
                    &&& m.locals() == before.locals() && m.wf()
                    &&& before.next_register() <= m.next_register()
                    &&& r.0 == m.next_register()
                    &&& after.next_register() == m.next_register() + 1
                    &&& after.code() == m.code().push(last)
                    &&& reads_from(last, base)
                });
            let (m, base) = choose|m: Compiler, base: Register|
                #![trigger m.code(), reads_from(last, base)]
                {
                    &&& lowered_value(&before, &m, *receiver, base)
                    &&& m.locals() == before.locals() && m.wf()
                    &&& before.next_register() <= m.next_register()
                    &&& r.0 == m.next_register()
                    &&& after.next_register() == m.next_register() + 1
                    &&& after.code() == m.code().push(last)
                    &&& reads_from(last, base)
                };
            law_lowered_expression_computes_its_value(before, m, *receiver, base, regs);
            lemma_build_computes(before, m, after, r, Seq::empty(), last, regs);
        },
        HirExpr::Index { receiver, index } => {
            let last = after.code().last();
            if is_str_literal(*index) {
                assert(exists|m: Compiler, base: Register|
                    #![trigger m.code(), reads_from(last, base)]
                    {
                        &&& lowered_value(&before, &m, *receiver, base)
                        &&& m.locals() == before.locals() && m.wf()
                        &&& before.next_register() <= m.next_register()
                        &&& r.0 == m.next_register()
                        &&& after.next_register() == m.next_register() + 1
                        &&& after.code() == m.code().push(last)
                        &&& reads_from(last, base)
                    });
                let (m, base) = choose|m: Compiler, base: Register|
                    #![trigger m.code(), reads_from(last, base)]
                    {
                        &&& lowered_value(&before, &m, *receiver, base)
                        &&& m.locals() == before.locals() && m.wf()
                        &&& before.next_register() <= m.next_register()
                        &&& r.0 == m.next_register()
                        &&& after.next_register() == m.next_register() + 1
                        &&& after.code() == m.code().push(last)
                        &&& reads_from(last, base)
                    };
                law_lowered_expression_computes_its_value(before, m, *receiver, base, regs);
                lemma_build_computes(before, m, after, r, Seq::empty(), last, regs);
            } else {
                assert(exists|m1: Compiler, mb: Compiler, m2: Compiler, base: Register, slot: Register|
                    #![trigger m1.code(), mb.code(), m2.code(), get_index(r, base, slot)]
                    {
                        &&& lowered_value(&before, &m1, *receiver, base)
                        &&& m1.locals() == before.locals() && m1.wf()
                        &&& before.next_register() <= m1.next_register()
                        &&& r.0 == m1.next_register()
                        &&& mb.code() == m1.code() && mb.next_register() == m1.next_register() + 1
                        &&& mb.locals() == before.locals() && mb.wf()
                        &&& lowered_value(&mb, &m2, *index, slot)
                        &&& m2.locals() == before.locals() && m2.wf()
                        &&& mb.next_register() <= m2.next_register()
                        &&& after.next_register() == m2.next_register()
                        &&& after.code() == m2.code().push(get_index(r, base, slot))
                    });
                let (m1, mb, m2, base, slot) = choose|m1: Compiler, mb: Compiler, m2: Compiler, base: Register, slot: Register|
                    #![trigger m1.code(), mb.code(), m2.code(), get_index(r, base, slot)]
                    {
                        &&& lowered_value(&before, &m1, *receiver, base)
                        &&& m1.locals() == before.locals() && m1.wf()
                        &&& before.next_register() <= m1.next_register()
                        &&& r.0 == m1.next_register()
                        &&& mb.code() == m1.code() && mb.next_register() == m1.next_register() + 1
                        &&& mb.locals() == before.locals() && mb.wf()
                        &&& lowered_value(&mb, &m2, *index, slot)
                        &&& m2.locals() == before.locals() && m2.wf()
                        &&& mb.next_register() <= m2.next_register()
                        &&& after.next_register() == m2.next_register()
                        &&& after.code() == m2.code().push(get_index(r, base, slot))
                    };
                law_lowered_expression_computes_its_value(before, m1, *receiver, base, regs);
                let seg1 = new_code(before, m1);
                let r1 = run(seg1, regs)->0;
                law_lowered_expression_computes_its_value(mb, m2, *index, slot, r1);
                let seg2 = new_code(mb, m2);
                let r2 = run(seg2, r1)->0;
                let i = get_index(r, base, slot);
                let ml = m1.code().len() as int;
                assert(m2.code().subrange(0, bl) =~= m1.code().subrange(0, bl));
                assert(new_code(before, after) =~= seg1 + seg2 + seq![i]) by {
                    assert(m2.code().subrange(bl, ml) =~= seg1);
                }
                lemma_run_concat(seg1, seg2, regs);
                lemma_run_concat(seg1 + seg2, seq![i], regs);
                lemma_run_one(i, r2);
                assert(after.code().subrange(0, bl) =~= before.code());
                lemma_term_reads_below(before, mb, *index, regs, r1);
                assert(r2(base.0) == r1(base.0));
            }
        },
        HirExpr::Tuple(es) => {
            assert(decreases_to!(e => es@));
            assert(exists|m: Compiler, rs: Seq<Register>|
                #![trigger m.code(), make_tuple(r, rs)]
                {
                    &&& exprs_lowered(&before, &m, es@, rs)
                    &&& m.locals() == before.locals() && m.wf()
                    &&& before.next_register() <= m.next_register()
                    &&& r.0 == m.next_register()
                    &&& after.next_register() == m.next_register() + 1
                    &&& after.code() == m.code().push(make_tuple(r, rs))
                });
            let (m, rs) = choose|m: Compiler, rs: Seq<Register>|
                #![trigger m.code(), make_tuple(r, rs)]
                {
                    &&& exprs_lowered(&before, &m, es@, rs)
                    &&& m.locals() == before.locals() && m.wf()
                    &&& before.next_register() <= m.next_register()
                    &&& r.0 == m.next_register()
                    &&& after.next_register() == m.next_register() + 1
                    &&& after.code() == m.code().push(make_tuple(r, rs))
                };
            lemma_exprs_compute(before, m, es@, rs, regs);
            lemma_build_computes(before, m, after, r, rs, make_tuple(r, rs), regs);
            let r1 = run(new_code(before, m), regs)->0;
            assert(read_regs(r1, rs) =~= exprs_terms(before, es@, regs));
        },
        HirExpr::Array(es) => {
            assert(decreases_to!(e => es@));
            assert(exists|m: Compiler, rs: Seq<Register>|
                #![trigger m.code(), make_array(r, rs)]
                {
                    &&& exprs_lowered(&before, &m, es@, rs)
                    &&& m.locals() == before.locals() && m.wf()
                    &&& before.next_register() <= m.next_register()
                    &&& r.0 == m.next_register()
                    &&& after.next_register() == m.next_register() + 1
                    &&& after.code() == m.code().push(make_array(r, rs))
                });
            let (m, rs) = choose|m: Compiler, rs: Seq<Register>|
                #![trigger m.code(), make_array(r, rs)]
                {
                    &&& exprs_lowered(&before, &m, es@, rs)
                    &&& m.locals() == before.locals() && m.wf()
                    &&& before.next_register() <= m.next_register()
                    &&& r.0 == m.next_register()
                    &&& after.next_register() == m.next_register() + 1
                    &&& after.code() == m.code().push(make_array(r, rs))
                };
            lemma_exprs_compute(before, m, es@, rs, regs);
            lemma_build_computes(before, m, after, r, rs, make_array(r, rs), regs);
            let r1 = run(new_code(before, m), regs)->0;
            assert(read_regs(r1, rs) =~= exprs_terms(before, es@, regs));
        },
        _ => {},
    }
}

/// Appending one instruction to lowered code: the earlier code stays, and
/// running the whole is running the lowered part, then the instruction.
proof fn lemma_build_computes(
    before: Compiler,
    m: Compiler,
    after: Compiler,
    r: Register,
    rs: Seq<Register>,
    i: InstrModel,
    regs: spec_fn(u32) -> Term,
)
    requires
        before.code().len() <= m.code().len(),
        m.code().subrange(0, before.code().len() as int) == before.code(),
        after.code() == m.code().push(i),
        run(new_code(before, m), regs) is Some,
    ensures
        before.code().len() <= after.code().len(),
        after.code().subrange(0, before.code().len() as int) == before.code(),
        run(new_code(before, after), regs) == step(run(new_code(before, m), regs)->0, i),
{
    let bl = before.code().len() as int;
    assert(new_code(before, after) =~= new_code(before, m) + seq![i]);
    lemma_run_concat(new_code(before, m), seq![i], regs);
    lemma_run_one(i, run(new_code(before, m), regs)->0);
    assert(after.code().subrange(0, bl) =~= m.code().subrange(0, bl));
}

/// The code lowered for expressions one after the other leaves each one's
/// value in its register, and changes no register handed out before it.
pub proof fn lemma_exprs_compute(
    before: Compiler,
    after: Compiler,
    es: Seq<HirExpr>,
    rs: Seq<Register>,
    regs: spec_fn(u32) -> Term,
)
    requires
        straight_line_exprs(es),
        before.wf(),
        exprs_lowered(&before, &after, es, rs),
    ensures
        before.code().len() <= after.code().len(),
        after.code().subrange(0, before.code().len() as int) == before.code(),
        before.next_register() <= after.next_register(),
        rs.len() == es.len(),
        forall|k: int| 0 <= k < rs.len() ==> (#[trigger] rs[k]).0 < after.next_register(),
        run(new_code(before, after), regs) is Some,
        exprs_terms(before, es, regs).len() == es.len(),
        forall|k: int|
            0 <= k < rs.len() ==> run(new_code(before, after), regs)->0((#[trigger] rs[k]).0) == exprs_terms(
                before,
                es,
                regs,
            )[k],
        forall|k: u32| k < before.next_register() ==> #[trigger] run(new_code(before, after), regs)->0(k) == regs(k),
    decreases es, 0int,
{
    let bl = before.code().len() as int;
    if es.len() == 0 {
        assert(new_code(before, after) =~= Seq::<InstrModel>::empty());
        assert(after.code().subrange(0, bl) =~= before.code());
    } else {
        let n = es.len() - 1;
        let front = es.subrange(0, n);
        let rfront = rs.subrange(0, n);
        reveal_with_fuel(exprs_lowered, 2);
        assert(exists|m: Compiler|
            #![trigger m.code()]
            {
                &&& exprs_lowered(&before, &m, front, rfront)
                &&& lowered_value(&m, &after, es[n], rs[n])
                &&& m.locals() == before.locals() && m.wf()
                &&& before.next_register() <= m.next_register()
            });
        let m = choose|m: Compiler|
            #![trigger m.code()]
            {
                &&& exprs_lowered(&before, &m, front, rfront)
                &&& lowered_value(&m, &after, es[n], rs[n])
                &&& m.locals() == before.locals() && m.wf()
                &&& before.next_register() <= m.next_register()
            };
        lemma_exprs_compute(before, m, front, rfront, regs);
        let r1 = run(new_code(before, m), regs)->0;
        law_lowered_expression_computes_its_value(m, after, es[n], rs[n], r1);
        let r2 = run(new_code(m, after), r1)->0;
        let ml = m.code().len() as int;
        assert(after.code().subrange(0, bl) =~= m.code().subrange(0, bl));
        assert(new_code(before, after) =~= new_code(before, m) + new_code(m, after)) by {
            assert(after.code().subrange(bl, ml) =~= new_code(before, m));
        }
        lemma_run_concat(new_code(before, m), new_code(m, after), regs);
        lemma_term_reads_below(before, m, es[n], regs, r1);
        assert forall|k: int| 0 <= k < rs.len() implies (#[trigger] rs[k]).0 < after.next_register() by {
            if k < n {
                assert(rfront[k] == rs[k]);
            }
        }
        assert forall|k: int| 0 <= k < rs.len() implies r2((#[trigger] rs[k]).0) == exprs_terms(before, es, regs)[k] by {
            if k < n {
                assert(rfront[k] == rs[k]);
                assert(rs[k].0 < m.next_register());
            }
        }
    }
}

/// An inverted comparison is a comparison, never `&&` or `||`.
proof fn lemma_inverted_not_logical(e: HirExpr)
    ensures
        inverted_comparison(e) is Some ==> inverted_comparison(e)->0 != HirBinaryOp::And && inverted_comparison(
            e,
        )->0 != HirBinaryOp::Or,
    decreases e,
{
    if let HirExpr::Paren(Some(inner)) = e {
        lemma_inverted_not_logical(*inner);
    }
}

/// The code lowered for a binary expression `b` (looking through
/// parentheses) with `op` in place of its operator computes that operator
/// on the values of its operands.
pub proof fn lemma_comparison_computes(
    before: Compiler,
    after: Compiler,
    b: HirExpr,
    op: HirBinaryOp,
    r: Register,
    regs: spec_fn(u32) -> Term,
)
    requires
        straight_line_expr(b),
        op != HirBinaryOp::And && op != HirBinaryOp::Or,
        before.wf(),
        binary_lowered(&before, &after, b, op, r),
    ensures
        lowering_frame(before, after, r),
        computes(before, after, r, regs, comparison_term(before, b, op, regs)),
    decreases b, 0int,
{
    let bl = before.code().len() as int;
    match b {
        HirExpr::Paren(Some(inner)) => {
            lemma_comparison_computes(before, after, *inner, op, r, regs);
        },
        HirExpr::Binary { lhs: Some(l), rhs: Some(rr), .. } => {
            reveal_with_fuel(binary_lowered, 2);
            assert(exists|m1: Compiler, m2: Compiler, a: Register, c: Register|
                #![trigger m1.code(), m2.code(), binary_instr(op, r, a, c)]
                {
                    &&& lowered_value(&before, &m1, *l, a)
                    &&& lowered_value(&m1, &m2, *rr, c)
                    &&& m1.locals() == before.locals() && m2.locals() == before.locals()
                    &&& m1.wf() && m2.wf()
                    &&& before.next_register() <= m1.next_register() <= m2.next_register()
                    &&& r.0 == m2.next_register()
                    &&& after.next_register() == m2.next_register() + 1
                    &&& after.code() == m2.code().push(binary_instr(op, r, a, c))
                });
            let (m1, m2, a, c) = choose|m1: Compiler, m2: Compiler, a: Register, c: Register|
                #![trigger m1.code(), m2.code(), binary_instr(op, r, a, c)]
                {
                    &&& lowered_value(&before, &m1, *l, a)
                    &&& lowered_value(&m1, &m2, *rr, c)
                    &&& m1.locals() == before.locals() && m2.locals() == before.locals()
                    &&& m1.wf() && m2.wf()
                    &&& before.next_register() <= m1.next_register() <= m2.next_register()
                    &&& r.0 == m2.next_register()
                    &&& after.next_register() == m2.next_register() + 1
                    &&& after.code() == m2.code().push(binary_instr(op, r, a, c))
                };
            law_lowered_expression_computes_its_value(before, m1, *l, a, regs);
            let seg1 = new_code(before, m1);
            let r1 = run(seg1, regs)->0;
            law_lowered_expression_computes_its_value(m1, m2, *rr, c, r1);
            let seg2 = new_code(m1, m2);
            let r2 = run(seg2, r1)->0;
            let i = binary_instr(op, r, a, c);
            let m1l = m1.code().len() as int;
            assert(m2.code().subrange(0, bl) =~= m1.code().subrange(0, bl));
            assert(new_code(before, after) =~= seg1 + seg2 + seq![i]) by {
                assert(m2.code().subrange(bl, m1l) =~= seg1);
            }
            lemma_run_concat(seg1, seg2, regs);
            lemma_run_concat(seg1 + seg2, seq![i], regs);
            lemma_run_one(i, r2);
            assert(binary_of(i) == Some((op, r, a, c)));
            assert(after.code().subrange(0, bl) =~= before.code());
            lemma_term_reads_below(before, m1, *rr, regs, r1);
            assert(r2(a.0) == r1(a.0));
        },
        _ => {},
    }
}


/// One instruction of code with jumps at offset `pc`: where control goes
/// next and the registers after it. A conditional jump is taken when
/// `truth` finds its register's value false; a truthiness test stores
/// `truth` of its source as a boolean.
pub open spec fn jump_step(
    code: Seq<InstrModel>,
    pc: int,
    regs: spec_fn(u32) -> Term,
    truth: spec_fn(Term) -> bool,
) -> Option<(int, spec_fn(u32) -> Term)> {
    match code[pc] {
        InstrModel::Jump(t) => Some((t as int, regs)),
        InstrModel::JumpIfFalse(c, t) => if truth(regs(c.0)) {
            Some((pc + 1, regs))
        } else {
            Some((t as int, regs))
        },
        InstrModel::Truthy(d, src) => Some((pc + 1, set_reg(regs, d.0, Term::Const(ConstModel::Bool(truth(regs(src.0))))))),
        other => match step(regs, other) {
            Some(next) => Some((pc + 1, next)),
            None => None,
        },
    }
}

/// Code with jumps run from offset `pc` until control reaches `stop`, for at
/// most `fuel` instructions; `None` if it leaves the code, runs out of fuel,
/// or meets an instruction this reading does not cover.
pub open spec fn run_jumps(
    code: Seq<InstrModel>,
    pc: int,
    regs: spec_fn(u32) -> Term,
    truth: spec_fn(Term) -> bool,
    fuel: nat,
    stop: int,
) -> Option<spec_fn(u32) -> Term>
    decreases fuel,
{
    if pc == stop {
        Some(regs)
    } else if fuel == 0 || !(0 <= pc < code.len()) {
        None
    } else {
        match jump_step(code, pc, regs, truth) {
            Some((next, after)) => run_jumps(code, next, after, truth, (fuel - 1) as nat, stop),
            None => None,
        }
    }
}

/// The operands of a chain, looking at `e` as `&&` or `||`.
pub open spec fn chain_leaves(e: HirExpr) -> Seq<HirExpr> {
    match e {
        HirExpr::Binary { op: Some(op), lhs: Some(l), rhs: Some(x) } => logical_leaves(*l, op) + logical_leaves(*x, op),
        _ => Seq::empty(),
    }
}

/// The operator of a binary expression (`&&` where there is none).
pub open spec fn chain_op(e: HirExpr) -> HirBinaryOp {
    match e {
        HirExpr::Binary { op: Some(op), .. } => op,
        _ => HirBinaryOp::And,
    }
}

/// Whether the operands of a chain, found true or false one by one, make
/// the chain true: all of them for `&&`, one of them for `||`.
pub open spec fn chain_truth(op: HirBinaryOp, truths: Seq<bool>) -> bool {
    if op == HirBinaryOp::And {
        forall|k: int| 0 <= k < truths.len() ==> truths[k]
    } else {
        exists|k: int| 0 <= k < truths.len() && truths[k]
    }
}

/// How `truth` finds the operands' values over the registers `regs`.
pub open spec fn leaf_truths(c: Compiler, leaves: Seq<HirExpr>, regs: spec_fn(u32) -> Term, truth: spec_fn(Term) -> bool) -> Seq<bool> {
    Seq::new(leaves.len(), |k: int| truth(expr_term(c, leaves[k], regs)))
}

/// Straight-line code between `a` and `b` runs the same inside code with
/// jumps, one instruction per unit of fuel.
proof fn lemma_run_segment(
    code: Seq<InstrModel>,
    a: int,
    b: int,
    regs: spec_fn(u32) -> Term,
    truth: spec_fn(Term) -> bool,
    fuel: nat,
    stop: int,
)
    requires
        0 <= a <= b <= code.len(),
        !(a <= stop < b),
        run(code.subrange(a, b), regs) is Some,
    ensures
        run_jumps(code, a, regs, truth, fuel + (b - a) as nat, stop) == run_jumps(
            code,
            b,
            run(code.subrange(a, b), regs)->0,
            truth,
            fuel,
            stop,
        ),
    decreases b - a,
{
    if a == b {
        assert(code.subrange(a, b) =~= Seq::<InstrModel>::empty());
        assert(fuel + (b - a) as nat == fuel);
    } else {
        let i = code[a];
        assert(code.subrange(a, b) =~= seq![i] + code.subrange(a + 1, b));
        lemma_run_concat(seq![i], code.subrange(a + 1, b), regs);
        lemma_run_one(i, regs);
        let mid = step(regs, i)->0;
        assert(step(regs, i) is Some);
        assert(jump_step(code, a, regs, truth) == Some((a + 1, mid)));
        lemma_run_segment(code, a + 1, b, mid, truth, fuel, stop);
        assert((fuel + (b - a) as nat - 1) as nat == fuel + (b - (a + 1)) as nat);
    }
}

/// The state of a chain reached before operand `k`: registers `rk` that
/// agree with `r0` below the chain's first register, every operand before
/// `k` having let control go on.
pub open spec fn chain_state_ok(
    before: Compiler,
    op: HirBinaryOp,
    leaves: Seq<HirExpr>,
    k: int,
    rk: spec_fn(u32) -> Term,
    r0: spec_fn(u32) -> Term,
    truth: spec_fn(Term) -> bool,
) -> bool {
    &&& forall|x: u32| x < before.next_register() ==> #[trigger] rk(x) == r0(x)
    &&& forall|j: int| 0 <= j < k ==> (#[trigger] leaf_truths(before, leaves, r0, truth)[j]) == (op == HirBinaryOp::And)
}

proof fn lemma_chain_runs(
    before: Compiler,
    after: Compiler,
    op: HirBinaryOp,
    dst: Register,
    leaves: Seq<HirExpr>,
    ss: Seq<Compiler>,
    ts: Seq<Compiler>,
    vs: Seq<Register>,
    truth: spec_fn(Term) -> bool,
    k: int,
    rk: spec_fn(u32) -> Term,
    r0: spec_fn(u32) -> Term,
) -> (fuel: nat)
    requires
        op == HirBinaryOp::And || op == HirBinaryOp::Or,
        before.wf(),
        chain_links(before, after, op, dst, leaves.len() as int, ss, ts, vs),
        forall|j: int| 0 <= j < leaves.len() ==> leaf_in(after.code(), #[trigger] ss[j], ts[j], leaves[j], vs[j], before),
        forall|j: int| 0 <= j < leaves.len() ==> straight_line_expr(#[trigger] leaves[j]),
        0 <= k < leaves.len(),
        ss[k].next_register() > before.next_register(),
        chain_state_ok(before, op, leaves, k, rk, r0, truth),
    ensures
        run_jumps(after.code(), ss[k].code().len() as int, rk, truth, fuel, after.code().len() as int) is Some,
        run_jumps(after.code(), ss[k].code().len() as int, rk, truth, fuel, after.code().len() as int)->0(dst.0)
            == Term::Const(ConstModel::Bool(chain_truth(op, leaf_truths(before, leaves, r0, truth)))),
        forall|x: u32|
            x < before.next_register() ==> #[trigger] run_jumps(
                after.code(),
                ss[k].code().len() as int,
                rk,
                truth,
                fuel,
                after.code().len() as int,
            )->0(x) == r0(x),
    decreases leaves.len() - k,
{
    let n = leaves.len() as int;
    let code = after.code();
    let stop = code.len() as int;
    let s = ss[k];
    let t = ts[k];
    let leaf = leaves[k];
    let v = vs[k];
    let truths = leaf_truths(before, leaves, r0, truth);
    assert(leaf_in(code, s, t, leaf, v, before));
    assert(straight_line_expr(leaf));
    law_lowered_expression_computes_its_value(s, t, leaf, v, rk);
    lemma_term_reads_below(before, s, leaf, r0, rk);
    let a = s.code().len() as int;
    let b = t.code().len() as int;
    assert(code.subrange(a, b) =~= new_code(s, t)) by {
        assert forall|i: int| 0 <= i < b - a implies code.subrange(a, b)[i] == new_code(s, t)[i] by {
            assert(code[a + i] == t.code()[a + i]);
        }
    }
    let out = run(new_code(s, t), rk)->0;
    let tv = truths[k];
    assert(tv == truth(expr_term(before, leaf, r0)));
    assert(out(v.0) == expr_term(before, leaf, r0));
    assert forall|x: u32| x < before.next_register() implies #[trigger] out(x) == r0(x) by {
        assert(out(x) == rk(x));
    }
    let last = ts[n - 1].code().len() as int;
    if k < n - 1 {
        assert(ss[k + 1].code().len() == link_end(op, t) && ss[k + 1].next_register() == t.next_register());
        assert(leaf_in(code, ss[k + 1], ts[k + 1], leaves[k + 1], vs[k + 1], before));
        let to: usize = if op == HirBinaryOp::And {
            (last + 2) as usize
        } else {
            stop as usize
        };
        assert(link_in(code, op, dst, t, v, to));
        if tv == (op == HirBinaryOp::And) {
            // Control goes on to the next operand.
            let next_pc = ss[k + 1].code().len() as int;
            assert(chain_state_ok(before, op, leaves, k + 1, out, r0, truth)) by {
                assert forall|j: int| 0 <= j < k + 1 implies (#[trigger] leaf_truths(before, leaves, r0, truth)[j]) == (op
                    == HirBinaryOp::And) by {
                    if j < k {
                        assert(chain_state_ok(before, op, leaves, k, rk, r0, truth));
                    }
                }
            }
            let rest = lemma_chain_runs(before, after, op, dst, leaves, ss, ts, vs, truth, k + 1, out, r0);
            let extra: nat = if op == HirBinaryOp::And {
                1
            } else {
                1
            };
            lemma_run_segment(code, a, b, rk, truth, rest + extra, stop);
            if op == HirBinaryOp::And {
                assert(jump_step(code, b, out, truth) == Some((b + 1, out)));
                assert(next_pc == b + 1);
            } else {
                assert(next_pc == b + 3);
            }
            // For `||`, a false operand jumps over the load of `true`.
            assert(run_jumps(code, b, out, truth, rest + extra, stop) == run_jumps(code, next_pc, out, truth, rest, stop))
                by {
                if op == HirBinaryOp::Or {
                    assert(jump_step(code, b, out, truth) == Some((b + 3, out)));
                }
            }
            (rest + extra + (b - a) as nat) as nat
        } else {
            // Control leaves the chain with the answer known.
            let answer = op == HirBinaryOp::Or;
            let done = set_reg(out, dst.0, Term::Const(ConstModel::Bool(answer)));
            if op == HirBinaryOp::And {
                assert(!truths[k]);
                assert(!chain_truth(op, truths));
                assert(jump_step(code, b, out, truth) == Some((last + 2, out)));
                assert(code[last + 2] == InstrModel::LoadConst(dst, ConstModel::Bool(false)));
                assert(jump_step(code, last + 2, out, truth) == Some((last + 3, done)));
                assert(run_jumps(code, last + 3, done, truth, 0, stop) == Some(done));
                assert(run_jumps(code, last + 2, out, truth, 1, stop) == Some(done));
                assert(run_jumps(code, b, out, truth, 2, stop) == Some(done));
            } else {
                assert(truths[k]);
                assert(chain_truth(op, truths));
                assert(jump_step(code, b, out, truth) == Some((b + 1, out)));
                assert(code[b + 1] == InstrModel::LoadConst(dst, ConstModel::Bool(true)));
                assert(jump_step(code, b + 1, out, truth) == Some((b + 2, done)));
                assert(jump_step(code, b + 2, done, truth) == Some((stop, done)));
                assert(run_jumps(code, stop, done, truth, 0, stop) == Some(done));
                assert(run_jumps(code, b + 2, done, truth, 1, stop) == Some(done));
                assert(run_jumps(code, b + 1, out, truth, 2, stop) == Some(done));
                assert(run_jumps(code, b, out, truth, 3, stop) == Some(done));
            }
            let tail: nat = if op == HirBinaryOp::And {
                2
            } else {
                3
            };
            lemma_run_segment(code, a, b, rk, truth, tail, stop);
            (tail + (b - a) as nat) as nat
        }
    } else {
        // The last operand: its truthiness is the chain's value.
        let done = set_reg(out, dst.0, Term::Const(ConstModel::Bool(tv)));
        assert(chain_truth(op, truths) == tv) by {
            assert(chain_state_ok(before, op, leaves, k, rk, r0, truth));
            if op == HirBinaryOp::And {
                if tv {
                    assert forall|j: int| 0 <= j < truths.len() implies truths[j] by {
                        if j < k {
                            assert(leaf_truths(before, leaves, r0, truth)[j]);
                        }
                    }
                }
            } else {
                if chain_truth(op, truths) {
                    let j = choose|j: int| 0 <= j < truths.len() && truths[j];
                    if j < k {
                        assert(leaf_truths(before, leaves, r0, truth)[j] == false);
                    }
                }
            }
        }
        assert(jump_step(code, b, out, truth) == Some((b + 1, done)));
        if op == HirBinaryOp::And {
            assert(jump_step(code, b + 1, done, truth) == Some((stop, done)));
            assert(run_jumps(code, stop, done, truth, 0, stop) == Some(done));
            assert(run_jumps(code, b + 1, done, truth, 1, stop) == Some(done));
            assert(run_jumps(code, b, out, truth, 2, stop) == Some(done));
        } else {
            assert(run_jumps(code, stop, done, truth, 0, stop) == Some(done));
            assert(run_jumps(code, b, out, truth, 1, stop) == Some(done));
        }
        let tail: nat = if op == HirBinaryOp::And {
            2
        } else {
            1
        };
        lemma_run_segment(code, a, b, rk, truth, tail, stop);
        (tail + (b - a) as nat) as nat
    }
}

/// The code lowered for `&&` or `||` over operands that run straight
/// through short-circuits: run from any registers, whichever way its tests
/// go, it reaches its end with the result register holding `true` exactly
/// when every operand (for `&&`) or some operand (for `||`) is true, and
/// changes no register handed out before it.
pub proof fn law_logical_chain_short_circuits(
    before: Compiler,
    after: Compiler,
    e: HirExpr,
    r: Register,
    regs: spec_fn(u32) -> Term,
    truth: spec_fn(Term) -> bool,
)
    requires
        e matches HirExpr::Binary { op: Some(op), lhs: Some(_), rhs: Some(_) } && (op == HirBinaryOp::And || op
            == HirBinaryOp::Or),
        forall|k: int| 0 <= k < chain_leaves(e).len() ==> straight_line_expr(#[trigger] chain_leaves(e)[k]),
        before.wf(),
        lowered_value(&before, &after, e, r),
    ensures
        exists|fuel: nat|
            #![trigger run_jumps(after.code(), before.code().len() as int, regs, truth, fuel, after.code().len() as int)]
            {
                let out = run_jumps(
                    after.code(),
                    before.code().len() as int,
                    regs,
                    truth,
                    fuel,
                    after.code().len() as int,
                );
                &&& out is Some
                &&& out->0(r.0) == Term::Const(
                    ConstModel::Bool(chain_truth(chain_op(e), leaf_truths(before, chain_leaves(e), regs, truth))),
                )
                &&& forall|x: u32| x < before.next_register() ==> #[trigger] out->0(x) == regs(x)
            },
{
    match e {
        HirExpr::Binary { op: Some(op), lhs: Some(l), rhs: Some(x) } => {
            let leaves = logical_leaves(*l, op) + logical_leaves(*x, op);
            assert(leaves == chain_leaves(e));
            assert(logical_lowered(before, after, e, r));
            let (ss, ts, vs) = choose|ss: Seq<Compiler>, ts: Seq<Compiler>, vs: Seq<Register>|
                chain_links(before, after, op, r, leaves.len() as int, ss, ts, vs) && forall|k: int|
                    0 <= k < leaves.len() ==> leaf_in(after.code(), #[trigger] ss[k], ts[k], leaves[k], vs[k], before);
            assert(chain_state_ok(before, op, leaves, 0, regs, regs, truth));
            let fuel = lemma_chain_runs(before, after, op, r, leaves, ss, ts, vs, truth, 0, regs, regs);
            let out = run_jumps(after.code(), before.code().len() as int, regs, truth, fuel, after.code().len() as int);
            assert(out is Some);
        },
        _ => {},
    }
}

} // verus!
