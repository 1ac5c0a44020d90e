use vstd::prelude::*;

use crate::compiler::{
    is_jump, local_lookup, retarget, CompileError, Compiler, ConstModel, Constant, InstrModel, Instruction, Register,
};
use crate::hir::{HirBinaryOp, HirBlock, HirExpr, HirPattern, HirStmt};
use crate::hir_lowering::{
    code_agrees, lemma_region_lowered, lemma_region_patch, lemma_region_push, lemma_region_push_jump,
    lemma_region_start, lowering_ok, offsets, pending_region, same_scope, seq_extends, stmts_lowered,
};
use crate::lowerable::{block_returns, range_bounds, step_outcome, stmt_lowerable};
use crate::match_lowering::lemma_region_chain;

verus! {

/// What a `for` loop steps through: the numbers of a range, or the items of
/// an iterator.
enum LoopIterable {
    Range { cursor: Register, end: Register, done: Register, inclusive: bool },
    Generic { iterator: Register },
}

/// The step that starts each round of a loop, and leaves the loop by
/// jumping to `end` once there is no next item: a range step over a range
/// (inclusive as `range` says), an iterator step otherwise.
pub open spec fn loop_step_exits(i: InstrModel, end: int, range: Option<bool>) -> bool {
    match range {
        Some(inclusive) => (i matches InstrModel::RangeNext(_, _, _, _, inc, t) && inc == inclusive && t == end),
        None => (i matches InstrModel::IterNext(_, _, t) && t == end),
    }
}

/// The shape of a lowered `for` loop appended to `before`: somewhere in the
/// new code stands its step, which leaves to just after the loop; unless
/// the body always returns, the loop's code ends with the jump back to that
/// step.
pub open spec fn for_loop_shape(
    before: Seq<InstrModel>,
    after: Seq<InstrModel>,
    range: Option<bool>,
    body_returns: bool,
) -> bool {
    exists|start: int|
        #![trigger after[start]]
        {
            &&& before.len() <= start < after.len()
            &&& loop_step_exits(after[start], after.len() as int, range)
            &&& (!body_returns ==> after.last() == InstrModel::Jump(start as usize))
        }
}

/// The register a loop's step writes the next item into.
pub open spec fn step_item(i: InstrModel) -> Option<Register> {
    match i {
        InstrModel::IterNext(d, _, _) => Some(d),
        InstrModel::RangeNext(d, _, _, _, _, _) => Some(d),
        _ => None,
    }
}

/// What a `for` loop's body sees: the body was lowered from `bs` to `be`
/// and stands unchanged in the code, after the loop's step at `start`. The
/// last pattern, when it is a name, is bound to the register the step
/// writes its item into. With two or more patterns the step is followed by
/// a copy of the counter into an index register and the counter's
/// increment; the first pattern, when it is a name other than the last
/// one's, is bound to that index register.
#[verifier::opaque]
pub open spec fn for_binds(before: Compiler, after: Compiler, patterns: Seq<HirPattern>, body: HirBlock) -> bool {
    exists|start: int, bs: Compiler, be: Compiler|
        #![trigger after.code()[start], bs.code(), be.code()]
        {
            &&& before.code().len() <= start < bs.code().len() <= be.code().len() <= after.code().len()
            &&& step_item(after.code()[start]) is Some
            &&& stmts_lowered(&bs, &be, body.statements@)
            &&& code_agrees(after.code(), be.code(), bs.code().len() as int, be.code().len() as int)
            &&& patterns.len() >= 1 ==> match patterns.last() {
                HirPattern::Binding { local: Some(n) } => local_lookup(bs.locals(), n@) == step_item(after.code()[start]),
                _ => true,
            }
            &&& patterns.len() >= 2 ==> match (patterns[0], patterns.last()) {
                (HirPattern::Binding { local: Some(n0) }, HirPattern::Binding { local: Some(n) }) => n@ != n0@ ==> {
                    &&& start + 2 < bs.code().len()
                    &&& match (after.code()[start + 1], after.code()[start + 2]) {
                        (InstrModel::Move(index, counter), InstrModel::Add(c1, c2, _)) => c1 == counter && c2 == counter
                            && local_lookup(bs.locals(), n0@) == Some(index),
                        _ => false,
                    }
                },
                _ => true,
            }
        }
}

/// Whether a `for` statement steps through a range, and if so whether the
/// range includes its end.
pub open spec fn for_range_kind(s: HirStmt) -> Option<bool> {
    match s {
        HirStmt::For { iterable: Some(x), .. } => match range_bounds(x) {
            Some((_, _, inclusive)) => Some(inclusive),
            None => None,
        },
        _ => None,
    }
}

impl Compiler {
    /// Lowers a `for` statement: the iterable (a range's two bounds, or a
    /// value to iterate over), the loop's step into a fresh item register,
    /// the index counter when there are two or more patterns, the pattern
    /// tests (a mismatch goes back to the step) and bindings, the body, and
    /// the jump back to the step. The loop's bindings end with it; a loop
    /// never returns by itself.
    #[verifier::rlimit(100)]
    #[verifier::spinoff_prover]
    pub fn compile_hir_for(&mut self, statement: &HirStmt) -> (r: Result<bool, CompileError>)
        requires
            old(self).wf(),
            statement is For,
        ensures
            final(self).facts_view() == old(self).facts_view(),
            r is Ok ==> lowering_ok(old(self), final(self)) && same_scope(old(self), final(self)),
            step_outcome(r, stmt_lowerable(*statement), final(self)),
            r matches Ok(b) ==> !b,
            statement matches HirStmt::For { iterable, body, .. } && (iterable is None || body is None) ==> r
                == Err::<bool, CompileError>(CompileError::UnsupportedSyntax("statement")),
            r is Ok ==> match *statement {
                HirStmt::For { body: Some(b), .. } => for_loop_shape(
                    old(self).code(),
                    final(self).code(),
                    for_range_kind(*statement),
                    block_returns(b),
                ),
                _ => true,
            },
            r is Ok ==> match *statement {
                HirStmt::For { patterns, body: Some(b), .. } => for_binds(*old(self), *final(self), patterns@, b),
                _ => true,
            },
        decreases statement, 0int,
    {
        let (patterns, iterable, body) = match statement {
            HirStmt::For { patterns, iterable: Some(iterable), body: Some(body) } => (patterns, iterable, body),
            _ => return Err(CompileError::UnsupportedSyntax("statement")),
        };
        let ghost c0 = self.code();
        proof {
            lemma_region_start(c0);
        }
        let scope = self.local_count();
        let loop_iterable = match iterable {
            HirExpr::Binary { op: Some(HirBinaryOp::Range), lhs: Some(start), rhs: Some(end) } => {
                let cursor = self.compile_hir_expression(start)?;
                let ghost c1 = self.code();
                let end = self.compile_hir_expression(end)?;
                let ghost c2 = self.code();
                let done = self.alloc_register()?;
                self.emit_bool_constant_to(done, false);
                proof {
                    lemma_region_lowered(c0, c0, c1, Set::empty());
                    lemma_region_lowered(c0, c1, c2, Set::empty());
                    lemma_region_push(c0, c2, Set::empty(), InstrModel::LoadConst(done, ConstModel::Bool(false)));
                }
                LoopIterable::Range { cursor, end, done, inclusive: false }
            },
            HirExpr::Binary { op: Some(HirBinaryOp::RangeInclusive), lhs: Some(start), rhs: Some(end) } => {
                let cursor = self.compile_hir_expression(start)?;
                let ghost c1 = self.code();
                let end = self.compile_hir_expression(end)?;
                let ghost c2 = self.code();
                let done = self.alloc_register()?;
                self.emit_bool_constant_to(done, false);
                proof {
                    lemma_region_lowered(c0, c0, c1, Set::empty());
                    lemma_region_lowered(c0, c1, c2, Set::empty());
                    lemma_region_push(c0, c2, Set::empty(), InstrModel::LoadConst(done, ConstModel::Bool(false)));
                }
                LoopIterable::Range { cursor, end, done, inclusive: true }
            },
            _ => {
                let value = self.compile_hir_expression(iterable)?;
                let ghost c1 = self.code();
                let iterator = self.alloc_register()?;
                self.emit(Instruction::IterInit { dst: iterator, iterable: value });
                proof {
                    lemma_region_lowered(c0, c0, c1, Set::empty());
                    lemma_region_push(c0, c1, Set::empty(), InstrModel::IterInit(iterator, value));
                }
                LoopIterable::Generic { iterator }
            },
        };
        proof {
            assert(range_bounds(*iterable) is None ==> loop_iterable is Generic);
        }
        let item = self.alloc_register()?;
        let has_index = patterns.len() > 1;
        let mut index: Option<(Register, Register, Register)> = None;
        if has_index {
            let counter = self.alloc_register()?;
            let ghost c1 = self.code();
            self.emit_constant_to(counter, Constant::Int(0));
            let ghost c2 = self.code();
            let one = self.emit_constant(Constant::Int(1))?;
            let index_register = self.alloc_register()?;
            proof {
                lemma_region_push(c0, c1, Set::empty(), InstrModel::LoadConst(counter, ConstModel::Int(0)));
                lemma_region_push(c0, c2, Set::empty(), InstrModel::LoadConst(one, ConstModel::Int(1)));
            }
            index = Some((counter, one, index_register));
        }
        let loop_start = self.current_offset();
        let ghost c_step = self.code();
        let done_jump = match loop_iterable {
            LoopIterable::Generic { iterator } => self.emit_iter_next(iterator, item),
            LoopIterable::Range { cursor, end, done, inclusive } => self.emit_range_next(
                cursor,
                end,
                done,
                inclusive,
                item,
            ),
        };
        let ghost step = self.code()[done_jump as int];
        let ghost pend: Set<int> = set![done_jump as int];
        proof {
            lemma_region_push_jump(c0, c_step, Set::empty(), step);
            assert(Set::<int>::empty().insert(done_jump as int) =~= pend);
        }
        let ghost c_after_step = self.code();
        let ghost mut c_counted: Seq<InstrModel> = self.code();
        let ghost mut index_reg: Register = item;
        let ghost mut counter_reg: Register = item;
        let ghost mut locals_before_last = self.locals();
        match index {
            Some((counter, one, index_register)) => {
                let ghost c1 = self.code();
                self.emit(Instruction::Move { dst: index_register, src: counter });
                let ghost c2 = self.code();
                self.emit(Instruction::Add { dst: counter, lhs: counter, rhs: one });
                proof {
                    lemma_region_push(c0, c1, pend, InstrModel::Move(index_register, counter));
                    lemma_region_push(c0, c2, pend, InstrModel::Add(counter, counter, one));
                    c_counted = self.code();
                    index_reg = index_register;
                    counter_reg = counter;
                }
                self.compile_loop_pattern(index_register, &patterns[0], loop_start, Ghost(c0), Ghost(pend))?;
            },
            None => {},
        }
        proof {
            locals_before_last = self.locals();
        }
        let ghost c_before_last = self.code();
        if patterns.len() > 0 {
            self.compile_loop_pattern(item, &patterns[patterns.len() - 1], loop_start, Ghost(c0), Ghost(pend))?;
        }
        let ghost c_body = self.code();
        let ghost bs = *self;
        let body_returned = self.compile_hir_block(body)?;
        let ghost be = *self;
        proof {
            lemma_region_lowered(c0, c_body, self.code(), pend);
        }
        if !body_returned {
            let ghost c1 = self.code();
            let back = InstrModel::Jump(loop_start);
            self.emit(Instruction::Jump { target: loop_start });
            proof {
                lemma_region_push_jump(c0, c1, pend, back);
                lemma_region_patch(c0, c1.push(back), pend.insert(c1.len() as int), c1.len() as int, loop_start);
                assert(c1.push(back).update(c1.len() as int, retarget(back, loop_start)) =~= c1.push(back));
                assert(pend.insert(c1.len() as int).remove(c1.len() as int) =~= pend);
            }
        }
        let ghost c_end = self.code();
        let loop_end = self.current_offset();
        match self.patch_jump(done_jump, loop_end) {
            Ok(()) => {},
            Err(err) => {
                proof {
                    assert(pend.contains(done_jump as int));
                }
                return Err(err);
            },
        }
        proof {
            lemma_region_patch(c0, c_end, pend, done_jump as int, loop_end);
            assert(pend.remove(done_jump as int) =~= Set::<int>::empty());
            self.lemma_local_shapes_len();
            old(self).lemma_local_shapes_len();
        }
        self.drop_locals_from(scope);
        proof {
            assert(self.locals() =~= old(self).locals());
            assert(self.local_shapes() =~= old(self).local_shapes());
            assert(self.code()[loop_start as int] == retarget(step, loop_end));
            if !body_returned {
                assert(self.code().last() == c_end.last());
            }
            let fin = self.code();
            let start = loop_start as int;
            assert(step_item(step) == Some(item));
            assert(step_item(fin[start]) == Some(item));
            assert(be.code().subrange(0, bs.code().len() as int) == bs.code());
            assert(c_end.subrange(0, be.code().len() as int) == be.code());
            assert forall|k: int| 0 <= k < be.code().len() && k != start implies #[trigger] fin[k] == be.code()[k] by {
                assert(c_end.subrange(0, be.code().len() as int)[k] == c_end[k]);
            }
            assert(code_agrees(fin, be.code(), bs.code().len() as int, be.code().len() as int));
            if patterns@.len() >= 1 {
                if let HirPattern::Binding { local: Some(n) } = patterns@.last() {
                    assert(patterns@[patterns.len() - 1] == patterns@.last());
                    assert(bs.locals() == locals_before_last.push((n@, item)));
                    assert(bs.locals().last() == (n@, item));
                    assert(local_lookup(bs.locals(), n@) == Some(item));
                }
            }
            if patterns@.len() >= 2 {
                if let HirPattern::Binding { local: Some(n0) } = patterns@[0] {
                    if let HirPattern::Binding { local: Some(n) } = patterns@.last() {
                        if n@ != n0@ {
                            assert(patterns@[patterns.len() - 1] == patterns@.last());
                            assert(c_before_last == c_counted);
                            assert(bs.code() == c_counted);
                            assert(c_counted[start + 1] == InstrModel::Move(index_reg, counter_reg));
                            assert(fin[start + 1] == be.code()[start + 1]);
                            assert(be.code()[start + 1] == bs.code()[start + 1]);
                            assert(fin[start + 2] == be.code()[start + 2]);
                            assert(be.code()[start + 2] == bs.code()[start + 2]);
                            assert(locals_before_last.last() == (n0@, index_reg));
                            assert(bs.locals().drop_last() == locals_before_last);
                            assert(local_lookup(bs.locals(), n0@) == local_lookup(locals_before_last, n0@));
                            assert(local_lookup(bs.locals(), n0@) == Some(index_reg));
                        }
                    }
                }
            }
            assert(for_binds(*old(self), *self, patterns@, *body)) by {
                reveal(for_binds);
            }
        }
        Ok(false)
    }

    /// Tests one of a loop's patterns against `value`, a mismatch going back
    /// to the loop's step at `loop_start`, then binds its names.
    fn compile_loop_pattern(
        &mut self,
        value: Register,
        pattern: &crate::hir::HirPattern,
        loop_start: usize,
        Ghost(base): Ghost<Seq<InstrModel>>,
        Ghost(pend): Ghost<Set<int>>,
    ) -> (r: Result<(), CompileError>)
        requires
            old(self).wf(),
            value.0 < old(self).next_register(),
            pending_region(base, old(self).code(), pend),
            base.len() <= loop_start < old(self).code().len(),
        ensures
            final(self).facts_view() == old(self).facts_view(),
            r is Ok ==> {
                &&& final(self).wf()
                &&& old(self).next_register() <= final(self).next_register()
                &&& seq_extends(old(self).locals(), final(self).locals())
                &&& seq_extends(old(self).local_shapes(), final(self).local_shapes())
                &&& pending_region(base, final(self).code(), pend)
                &&& old(self).code().len() <= final(self).code().len()
                &&& final(self).code()[loop_start as int] == old(self).code()[loop_start as int]
            },
            r is Ok ==> match *pattern {
                HirPattern::Binding { local: Some(n) } => final(self).code() == old(self).code() && final(self).locals()
                    == old(self).locals().push((n@, value)),
                _ => true,
            },
            step_outcome(r, crate::lowerable::pattern_lowerable(*pattern), final(self)),
    {
        let ghost c1 = self.code();
        let jumps = self.compile_hir_match_pattern(value, pattern)?;
        proof {
            lemma_region_chain(base, c1, self.code(), pend, offsets(jumps@));
            assert(pend + offsets(jumps@) =~= offsets(jumps@) + pend);
            assert forall|k: int| 0 <= k < jumps@.len() implies !pend.contains(#[trigger] jumps@[k] as int) by {
                assert(c1.len() <= jumps@[k]);
            }
        }
        let ghost c2 = self.code();
        self.patch_jumps(&jumps, loop_start, Ghost(base), Ghost(pend));
        proof {
            assert(c2[loop_start as int] == c1[loop_start as int]);
            if jumps@.len() == 0 {
                assert(offsets(jumps@) =~= Set::<int>::empty());
                assert(self.code() =~= c2);
            }
        }
        let ghost c3 = self.code();
        self.bind_hir_pattern_locals(value, pattern)?;
        proof {
            lemma_region_lowered(base, c3, self.code(), pend);
            assert(self.code()[loop_start as int] == c3[loop_start as int]);
        }
        Ok(())
    }
}

} // verus!
