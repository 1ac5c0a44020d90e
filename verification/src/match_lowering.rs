use vstd::prelude::*;

use crate::compiler::{
    is_jump, retarget, CompileError, Compiler, ConstModel, Constant, InstrModel, Instruction, Register, PENDING_TARGET,
};
use crate::hir::{HirMatch, HirMatchArm, HirMatchArmBody, HirPattern, HirRecordPatternField};
use crate::hir_lowering::{
    jump_ok, lemma_offsets_drop_first, lemma_offsets_push, lemma_region_patch, lemma_region_push,
    lemma_region_lowered, lemma_region_push_jump, lemma_region_start, lowered, lowering_ok, offsets, offsets_ordered,
    literal_const, pending_region, same_scope, seq_extends, block_value_written, code_agrees, lowered_value, move_of,
};
use crate::lowerable::{
    arm_catches_all, arm_lowerable, arm_returns, arms_lowerable, arms_return, block_value_returns, expr_lowerable,
    match_lowerable,
    match_returns,
    pattern_lowerable, step_outcome, tested_fields_lowerable, tested_patterns_lowerable, variant_path_ok,
};
use crate::patterns::tuple_variant_field_name;

verus! {

/// Whether matching the pattern tests the value: a bare binding or `_` matches anything.
pub open spec fn pattern_needs_check(p: HirPattern) -> bool {
    match p {
        HirPattern::Literal(Some(_)) => true,
        HirPattern::Path { path: Some(_) } => true,
        HirPattern::TupleVariant { .. } => true,
        HirPattern::RecordVariant { .. } => true,
        _ => false,
    }
}

/// Whether the pattern binds a local somewhere inside it.
pub open spec fn pattern_declares_local(p: HirPattern) -> bool
    decreases p, 0int,
{
    match p {
        HirPattern::Binding { local } => local is Some,
        HirPattern::TupleVariant { fields, .. } => some_pattern_declares_local(fields@, fields@.len() as int),
        HirPattern::RecordVariant { fields, .. } => some_field_declares_local(fields@, fields@.len() as int),
        _ => false,
    }
}

/// Whether one of the first `n` patterns binds a local.
pub open spec fn some_pattern_declares_local(ps: Seq<HirPattern>, n: int) -> bool
    decreases ps, n,
{
    if n <= 0 || n > ps.len() {
        false
    } else {
        pattern_declares_local(ps[n - 1]) || some_pattern_declares_local(ps, n - 1)
    }
}

/// Whether the pattern of one of the first `n` record fields binds a local.
pub open spec fn some_field_declares_local(fs: Seq<HirRecordPatternField>, n: int) -> bool
    decreases fs, n,
{
    if n <= 0 || n > fs.len() {
        false
    } else {
        (match fs[n - 1].pattern {
            Some(p) => pattern_declares_local(p),
            None => false,
        }) || some_field_declares_local(fs, n - 1)
    }
}

pub proof fn lemma_some_pattern_declares(ps: Seq<HirPattern>, i: int, n: int)
    requires
        0 <= i < n <= ps.len(),
        pattern_declares_local(ps[i]),
    ensures
        some_pattern_declares_local(ps, n),
    decreases n,
{
    if i < n - 1 {
        lemma_some_pattern_declares(ps, i, n - 1);
    }
}

pub proof fn lemma_some_field_declares(fs: Seq<HirRecordPatternField>, i: int, n: int)
    requires
        0 <= i < n <= fs.len(),
        fs[i].pattern matches Some(p) && pattern_declares_local(p),
    ensures
        some_field_declares_local(fs, n),
    decreases n,
{
    if i < n - 1 {
        lemma_some_field_declares(fs, i, n - 1);
    }
}


/// Pending regions compose: what `base..c1` leaves pending and what
/// `c1..c2` leaves pending is all that `base..c2` leaves pending.
pub proof fn lemma_region_chain(
    base: Seq<InstrModel>,
    c1: Seq<InstrModel>,
    c2: Seq<InstrModel>,
    p: Set<int>,
    q: Set<int>,
)
    requires
        pending_region(base, c1, p),
        pending_region(c1, c2, q),
    ensures
        pending_region(base, c2, p + q),
{
    assert forall|k: int| 0 <= k < c1.len() implies #[trigger] c2[k] == c1[k] by {
        assert(c2.subrange(0, c1.len() as int)[k] == c2[k]);
    }
    assert(c2.subrange(0, base.len() as int) =~= c1.subrange(0, base.len() as int));
    assert forall|k: int| base.len() <= k < c2.len() && !(p + q).contains(k) implies #[trigger] jump_ok(
        c2[k],
        base.len() as int,
        c2.len() as int,
    ) by {
        if k < c1.len() {
            assert(jump_ok(c1[k], base.len() as int, c1.len() as int));
        } else {
            assert(jump_ok(c2[k], c1.len() as int, c2.len() as int));
        }
    }
    assert forall|x: int| (p + q).contains(x) implies base.len() <= x < c2.len() && is_jump(c2[x]) by {
        if p.contains(x) {
            assert(is_jump(c1[x]));
        }
    }
}

/// The offsets of two lists together are those of the first and the second.
pub proof fn lemma_offsets_concat(a: Seq<usize>, b: Seq<usize>)
    ensures
        offsets(a + b) == offsets(a) + offsets(b),
{
    assert forall|q: int| #[trigger] offsets(a + b).contains(q) == (offsets(a) + offsets(b)).contains(q) by {
        if offsets(a).contains(q) {
            let i = choose|i: int| 0 <= i < a.len() && a[i] as int == q;
            assert((a + b)[i] == a[i]);
        }
        if offsets(b).contains(q) {
            let i = choose|i: int| 0 <= i < b.len() && b[i] as int == q;
            assert((a + b)[a.len() + i] == b[i]);
        }
        if offsets(a + b).contains(q) {
            let i = choose|i: int| 0 <= i < (a + b).len() && (a + b)[i] as int == q;
            if i < a.len() {
                assert((a + b)[i] == a[i]);
            } else {
                assert((a + b)[i] == b[i - a.len()]);
            }
        }
    }
    assert(offsets(a + b) =~= offsets(a) + offsets(b));
}

/// Two increasing lists, the second starting at or after `mid`, make one.
pub proof fn lemma_ordered_concat(a: Seq<usize>, b: Seq<usize>, mid: int, len: int)
    requires
        offsets_ordered(a, mid),
        offsets_ordered(b, len),
        mid <= len,
        forall|k: int| 0 <= k < b.len() ==> mid <= #[trigger] b[k],
    ensures
        offsets_ordered(a + b, len),
{
    let c = a + b;
    assert forall|i: int, j: int| 0 <= i < j < c.len() implies (#[trigger] c[i]) < (#[trigger] c[j]) by {
        if j < a.len() {
        } else if i < a.len() {
            assert(c[j] == b[j - a.len()]);
            assert(mid <= b[j - a.len()]);
        } else {
            assert(c[i] == b[i - a.len()]);
            assert(c[j] == b[j - a.len()]);
        }
    }
    assert forall|i: int| 0 <= i < c.len() implies (#[trigger] c[i]) < len by {
        if i >= a.len() {
            assert(c[i] == b[i - a.len()]);
        }
    }
}

/// A tested pattern among the first `n` can be lowered when all of them can.
pub proof fn lemma_tested_pattern(ps: Seq<HirPattern>, n: int, k: int)
    requires
        tested_patterns_lowerable(ps, n),
        0 <= k < n <= ps.len(),
    ensures
        !pattern_needs_check(ps[k]) || pattern_lowerable(ps[k]),
    decreases n,
{
    if k < n - 1 {
        lemma_tested_pattern(ps, n - 1, k);
    }
}

/// A tested field pattern among the first `n` can be lowered when all of them can.
pub proof fn lemma_tested_field(fs: Seq<HirRecordPatternField>, n: int, k: int)
    requires
        tested_fields_lowerable(fs, n),
        0 <= k < n <= fs.len(),
    ensures
        match fs[k].pattern {
            Some(p) => !pattern_needs_check(p) || pattern_lowerable(p),
            None => true,
        },
    decreases n,
{
    if k < n - 1 {
        lemma_tested_field(fs, n - 1, k);
    }
}

/// Patterns an arm cannot test: unreadable ones, and a record pattern without a path.
pub open spec fn pattern_refused(p: HirPattern) -> bool {
    match p {
        HirPattern::Literal(None) => true,
        HirPattern::Path { path: None } => true,
        HirPattern::RecordVariant { path: None, .. } => true,
        HirPattern::Missing => true,
        _ => false,
    }
}

/// What lowering a pattern test owes on success: the code grows by lowered
/// code whose jumps taken on a mismatch are `jumps`, in increasing order and
/// still to be patched; locals and facts are untouched.
pub open spec fn pattern_test_ok(before: &Compiler, after: &Compiler, jumps: Seq<usize>) -> bool {
    &&& after.wf()
    &&& before.next_register() <= after.next_register()
    &&& after.facts_view() == before.facts_view()
    &&& after.locals() == before.locals()
    &&& after.local_shapes() == before.local_shapes()
    &&& offsets_ordered(jumps, after.code().len() as int)
    &&& forall|k: int| 0 <= k < jumps.len() ==> before.code().len() <= #[trigger] jumps[k]
    &&& pending_region(before.code(), after.code(), offsets(jumps))
}

/// A test instruction followed by a pending conditional jump.
pub proof fn lemma_test_jump(base: Seq<InstrModel>, c1: Seq<InstrModel>, test: InstrModel, condition: Register, jump: usize)
    requires
        pending_region(base, c1, Set::empty()),
        !is_jump(test),
        jump == c1.len() + 1,
    ensures
        pending_region(
            base,
            c1.push(test).push(InstrModel::JumpIfFalse(condition, PENDING_TARGET)),
            offsets(seq![jump]),
        ),
        offsets_ordered(seq![jump], c1.len() + 2int),
{
    lemma_region_push(base, c1, Set::empty(), test);
    lemma_region_push_jump(base, c1.push(test), Set::empty(), InstrModel::JumpIfFalse(condition, PENDING_TARGET));
    lemma_offsets_push(Seq::empty(), jump);
    assert(Seq::<usize>::empty().push(jump) =~= seq![jump]);
    assert(offsets(Seq::<usize>::empty()) =~= Set::<int>::empty());
}

/// An increasing list stays increasing with a larger offset pushed.
pub proof fn lemma_ordered_push(v: Seq<usize>, x: usize, len: int)
    requires
        offsets_ordered(v, x as int),
        x < len,
    ensures
        offsets_ordered(v.push(x), len),
{
    let w = v.push(x);
    assert forall|i: int, j: int| 0 <= i < j < w.len() implies (#[trigger] w[i]) < (#[trigger] w[j]) by {
        assert(w[i] == v[i]);
        if j < v.len() {
            assert(w[j] == v[j]);
        }
    }
    assert forall|i: int| 0 <= i < w.len() implies (#[trigger] w[i]) < len by {
        if i < v.len() {
            assert(w[i] == v[i]);
        }
    }
}

/// Whether matching the pattern tests the value.
pub fn hir_pattern_needs_check(pattern: &HirPattern) -> (r: bool)
    ensures
        r == pattern_needs_check(*pattern),
{
    match pattern {
        HirPattern::Literal(Some(_)) => true,
        HirPattern::Path { path: Some(_) } => true,
        HirPattern::TupleVariant { .. } => true,
        HirPattern::RecordVariant { .. } => true,
        _ => false,
    }
}

/// Whether the pattern binds a local somewhere inside it.
pub fn hir_pattern_declares_local(pattern: &HirPattern) -> (r: bool)
    ensures
        r == pattern_declares_local(*pattern),
    decreases pattern,
{
    match pattern {
        HirPattern::Binding { local } => local.is_some(),
        HirPattern::TupleVariant { path, fields } => {
            let mut i: usize = fields.len();
            while i > 0
                invariant
                    *pattern == (HirPattern::TupleVariant { path: *path, fields: *fields }),
                    i <= fields@.len(),
                    some_pattern_declares_local(fields@, fields@.len() as int) == some_pattern_declares_local(
                        fields@,
                        i as int,
                    ),
                decreases i,
            {
                proof {
                    assert(decreases_to!(*pattern => pattern->TupleVariant_fields));
                    assert(decreases_to!(*fields => fields@));
                    assert(decreases_to!(fields@ => fields@[i - 1]));
                }
                if hir_pattern_declares_local(&fields[i - 1]) {
                    return true;
                }
                i = i - 1;
            }
            false
        },
        HirPattern::RecordVariant { path, fields } => {
            let mut i: usize = fields.len();
            while i > 0
                invariant
                    *pattern == (HirPattern::RecordVariant { path: *path, fields: *fields }),
                    i <= fields@.len(),
                    some_field_declares_local(fields@, fields@.len() as int) == some_field_declares_local(
                        fields@,
                        i as int,
                    ),
                decreases i,
            {
                match &fields[i - 1].pattern {
                    Some(p) => {
                        proof {
                            assert(decreases_to!(*pattern => pattern->RecordVariant_fields));
                            assert(decreases_to!(*fields => fields@));
                            assert(decreases_to!(fields@ => fields@[i - 1]));
                            assert(decreases_to!(fields@[i - 1] => fields@[i - 1].pattern));
                        }
                        if hir_pattern_declares_local(p) {
                            return true;
                        }
                    },
                    None => {},
                }
                i = i - 1;
            }
            false
        },
        _ => false,
    }
}

/// No arm of the `match` matches whatever reaches it.
pub open spec fn no_catch_all(arms: Seq<HirMatchArm>) -> bool {
    forall|j: int| 0 <= j < arms.len() ==> !arm_catches_all(#[trigger] arms[j])
}

/// What an arm lowered from offset `start` to the state `be` leaves in
/// `dst`: an expression body is lowered (at or after `start`) and its
/// register moved there, last; a block body that falls through writes it
/// (see `block_value_written`).
pub open spec fn arm_value_written(be: Compiler, arm: HirMatchArm, dst: Register, start: int) -> bool
    decreases arm, 0int,
{
    match arm.body {
        Some(HirMatchArmBody::Expr(e)) => exists|p: Compiler, m: Compiler, v: Register|
            #![trigger p.code(), m.code(), move_of(dst, v)]
            {
                &&& lowered_value(&p, &m, e, v)
                &&& start <= p.code().len() <= m.code().len()
                &&& be.code().len() == m.code().len() + 1
                &&& be.code().last() == move_of(dst, v)
                &&& code_agrees(be.code(), m.code(), p.code().len() as int, m.code().len() as int)
            },
        Some(HirMatchArmBody::Block(b)) => block_value_returns(b) || block_value_written(&be, b, dst, start),
        None => false,
    }
}

/// The arms of a `match` that wrote `dst`, one after the other: arm `k`'s
/// body lowered from `bs[k]` to `be[k]`, standing unchanged in `after`'s
/// code, wrote `dst` there; the arms lowered are all of them, or those up to
/// and including the first that catches everything.
pub open spec fn arms_written(
    after: Compiler,
    arms: Seq<HirMatchArm>,
    dst: Register,
    start: int,
    bs: Seq<Compiler>,
    be: Seq<Compiler>,
) -> bool
    decreases arms, 0int,
{
    &&& bs.len() == be.len() <= arms.len()
    &&& bs.len() == arms.len() || (bs.len() >= 1 && arm_catches_all(arms[bs.len() - 1]))
    &&& forall|k: int| 0 <= k < bs.len() - 1 ==> !arm_catches_all(#[trigger] arms[k])
    &&& forall|k: int|
        0 <= k < bs.len() ==> start <= (#[trigger] bs[k]).code().len() <= be[k].code().len() <= after.code().len()
    &&& forall|k: int| 0 <= k < bs.len() - 1 ==> (#[trigger] be[k]).code().len() <= bs[k + 1].code().len()
    &&& forall|k: int|
        0 <= k < bs.len() ==> code_agrees(after.code(), (#[trigger] be[k]).code(), bs[k].code().len() as int, be[k].code().len() as int)
    &&& forall|k: int|
        0 <= k < bs.len() ==> {
            proof {
                assert(decreases_to!(arms => arms[k]));
            }
            arm_value_written(#[trigger] be[k], arms[k], dst, bs[k].code().len() as int)
        }
}

/// What a `match` lowered from offset `start` on leaves in `dst`: each arm
/// it lowered wrote it (see `arms_written`).
#[verifier::opaque]
pub open spec fn match_written(after: Compiler, m: HirMatch, dst: Register, start: int) -> bool
    decreases m, 1int,
{
    exists|bs: Seq<Compiler>, be: Seq<Compiler>|
        #![trigger bs.len(), be.len()]
        arms_written(after, m.arms@, dst, start, bs, be)
}

/// What a `match` writes stays written when code from `start` on is kept.
pub proof fn lemma_match_written_frame(a: Compiler, a2: Compiler, m: HirMatch, dst: Register, start: int)
    requires
        match_written(a, m, dst, start),
        a2.code().len() == a.code().len(),
        code_agrees(a2.code(), a.code(), start, a.code().len() as int),
    ensures
        match_written(a2, m, dst, start),
{
    reveal(match_written);
    let (bs, be) = choose|bs: Seq<Compiler>, be: Seq<Compiler>|
        #![trigger bs.len(), be.len()]
        arms_written(a, m.arms@, dst, start, bs, be);
    assert forall|k: int|
        0 <= k < bs.len() implies code_agrees(a2.code(), (#[trigger] be[k]).code(), bs[k].code().len() as int, be[k].code().len() as int) by {
        assert(start <= bs[k].code().len());
        assert forall|x: int| bs[k].code().len() <= x < be[k].code().len() implies #[trigger] a2.code()[x] == be[k].code()[x] by {
            assert(a.code()[x] == be[k].code()[x]);
        }
    }
    assert(arms_written(a2, m.arms@, dst, start, bs, be));
}

/// What a `match` writes from a later offset on, it writes from an earlier one on.
pub proof fn lemma_match_written_earlier(a: Compiler, m: HirMatch, dst: Register, s0: int, s1: int)
    requires
        s0 <= s1,
        match_written(a, m, dst, s1),
    ensures
        match_written(a, m, dst, s0),
{
    reveal(match_written);
    let (bs, be) = choose|bs: Seq<Compiler>, be: Seq<Compiler>|
        #![trigger bs.len(), be.len()]
        arms_written(a, m.arms@, dst, s1, bs, be);
    assert(arms_written(a, m.arms@, dst, s0, bs, be));
}

impl Compiler {

    /// Lowers the test of `scrutinee` against a pattern; returns the jumps,
    /// still to be patched, taken when it does not match. Bindings and `_`
    /// test nothing.
    pub fn compile_hir_match_pattern(&mut self, scrutinee: Register, pattern: &HirPattern) -> (r: Result<
        Vec<usize>,
        CompileError,
    >)
        requires
            old(self).wf(),
            scrutinee.0 < old(self).next_register(),
        ensures
            final(self).facts_view() == old(self).facts_view(),
            r matches Ok(jumps) ==> pattern_test_ok(old(self), final(self), jumps@) && (jumps@.len() == 0
                <==> !pattern_needs_check(*pattern)),
            pattern_refused(*pattern) ==> r == Err::<Vec<usize>, CompileError>(
                CompileError::UnsupportedSyntax("match pattern"),
            ),
            !pattern_needs_check(*pattern) && !pattern_refused(*pattern) ==> (r matches Ok(jumps) && jumps@.len()
                == 0 && final(self).code() == old(self).code()),
            step_outcome(r, pattern_lowerable(*pattern), final(self)),
            r is Ok ==> match *pattern {
                HirPattern::Literal(Some(l)) => {
                    let value = Register(old(self).next_register() as u32);
                    let condition = Register((old(self).next_register() + 1) as u32);
                    &&& final(self).code() == old(self).code() + seq![
                        InstrModel::LoadConst(value, literal_const(l)),
                        InstrModel::Equal(condition, scrutinee, value),
                        InstrModel::JumpIfFalse(condition, PENDING_TARGET),
                    ]
                    &&& r->Ok_0@ == seq![(old(self).code().len() + 2) as usize]
                },
                _ => true,
            },
        decreases pattern,
    {
        let ghost c0 = self.code();
        proof {
            lemma_region_start(c0);
            assert(offsets(Seq::<usize>::empty()) =~= Set::<int>::empty());
        }
        match pattern {
            HirPattern::Wildcard => Ok(Vec::new()),
            HirPattern::Binding { .. } => Ok(Vec::new()),
            HirPattern::Literal(Some(literal)) => {
                let value = self.compile_hir_literal(literal)?;
                let ghost c1 = self.code();
                let condition = self.alloc_register()?;
                self.emit(Instruction::Equal { dst: condition, lhs: scrutinee, rhs: value });
                let jump = self.emit_jump_if_false(condition);
                proof {
                    lemma_test_jump(c0, c1, InstrModel::Equal(condition, scrutinee, value), condition, jump);
                }
                let jumps = vec![jump];
                assert(jumps@ =~= seq![jump]);
                assert(self.code() =~= c0 + seq![
                    InstrModel::LoadConst(value, literal_const(*literal)),
                    InstrModel::Equal(condition, scrutinee, value),
                    InstrModel::JumpIfFalse(condition, PENDING_TARGET),
                ]);
                Ok(jumps)
            },
            HirPattern::Path { path: Some(path) } => {
                let jumps = self.compile_variant_tag_pattern(scrutinee, path.as_slice())?;
                proof {
                    lemma_test_jump(
                        c0,
                        c0,
                        self.code()[c0.len() as int],
                        Register(old(self).next_register() as u32),
                        jumps@[0],
                    );
                    assert(jumps@ =~= seq![jumps@[0]]);
                    assert(self.code() =~= c0.push(self.code()[c0.len() as int]).push(
                        InstrModel::JumpIfFalse(Register(old(self).next_register() as u32), PENDING_TARGET),
                    ));
                }
                Ok(jumps)
            },
            HirPattern::TupleVariant { path, fields } => {
                let mut jumps = match path {
                    Some(p) => {
                        let jumps = self.compile_variant_tag_pattern(scrutinee, p.as_slice())?;
                        proof {
                            lemma_test_jump(
                                c0,
                                c0,
                                self.code()[c0.len() as int],
                                Register(old(self).next_register() as u32),
                                jumps@[0],
                            );
                            assert(jumps@ =~= seq![jumps@[0]]);
                            assert(self.code() =~= c0.push(self.code()[c0.len() as int]).push(
                                InstrModel::JumpIfFalse(Register(old(self).next_register() as u32), PENDING_TARGET),
                            ));
                        }
                        jumps
                    },
                    None => {
                        let condition = self.alloc_register()?;
                        self.emit(Instruction::TupleArityEqual { dst: condition, value: scrutinee, arity: fields.len() });
                        let jump = self.emit_jump_if_false(condition);
                        proof {
                            lemma_test_jump(
                                c0,
                                c0,
                                InstrModel::TupleArityEqual(condition, scrutinee, fields.len()),
                                condition,
                                jump,
                            );
                        }
                        let jumps = vec![jump];
                        assert(jumps@ =~= seq![jump]);
                        jumps
                    },
                };
                let mut index: usize = 0;
                while index < fields.len()
                    invariant
                        *pattern == (HirPattern::TupleVariant { path: *path, fields: *fields }),
                        self.wf(),
                        self.facts_view() == old(self).facts_view(),
                        self.locals() == old(self).locals(),
                        self.local_shapes() == old(self).local_shapes(),
                        c0 == old(self).code(),
                        old(self).next_register() <= self.next_register(),
                        scrutinee.0 < self.next_register(),
                        jumps@.len() > 0,
                        offsets_ordered(jumps@, self.code().len() as int),
                        forall|k: int| 0 <= k < jumps@.len() ==> c0.len() <= #[trigger] jumps@[k],
                        pending_region(c0, self.code(), offsets(jumps@)),
                        index <= fields@.len(),
                        tested_patterns_lowerable(fields@, index as int),
                        path matches Some(q) ==> variant_path_ok(*q),
                    decreases fields.len() - index,
                {
                    if !hir_pattern_needs_check(&fields[index]) {
                        index = index + 1;
                        continue;
                    }
                    let ghost c1 = self.code();
                    let value = match path {
                        Some(p) => self.emit_enum_pattern_field_read(scrutinee, p.as_slice(), tuple_variant_field_name(index))?,
                        None => self.emit_tuple_pattern_field_read(scrutinee, index)?,
                    };
                    let ghost c2 = self.code();
                    proof {
                        assert(c2 =~= c1.push(c2.last()));
                        lemma_region_push(c0, c1, offsets(jumps@), c2.last());
                        assert(decreases_to!(*pattern => pattern->TupleVariant_fields));
                        assert(decreases_to!(*fields => fields@));
                        assert(decreases_to!(fields@ => fields@[index as int]));
                    }
                    let mut sub = match self.compile_hir_match_pattern(value, &fields[index]) {
                        Ok(sub) => sub,
                        Err(e) => {
                            proof {
                                if tested_patterns_lowerable(fields@, fields@.len() as int) {
                                    lemma_tested_pattern(fields@, fields@.len() as int, index as int);
                                }
                            }
                            return Err(e);
                        },
                    };
                    let ghost c3 = self.code();
                    proof {
                        lemma_region_chain(c0, c2, c3, offsets(jumps@), offsets(sub@));
                        lemma_offsets_concat(jumps@, sub@);
                        lemma_ordered_concat(jumps@, sub@, c2.len() as int, c3.len() as int);
                    }
                    jumps.append(&mut sub);
                    index = index + 1;
                }
                Ok(jumps)
            },
            HirPattern::RecordVariant { path: Some(path), fields } => {
                let mut jumps = self.compile_variant_tag_pattern(scrutinee, path.as_slice())?;
                proof {
                    lemma_test_jump(
                        c0,
                        c0,
                        self.code()[c0.len() as int],
                        Register(old(self).next_register() as u32),
                        jumps@[0],
                    );
                    assert(jumps@ =~= seq![jumps@[0]]);
                    assert(self.code() =~= c0.push(self.code()[c0.len() as int]).push(
                        InstrModel::JumpIfFalse(Register(old(self).next_register() as u32), PENDING_TARGET),
                    ));
                }
                let mut index: usize = 0;
                while index < fields.len()
                    invariant
                        *pattern == (HirPattern::RecordVariant { path: Some(*path), fields: *fields }),
                        self.wf(),
                        self.facts_view() == old(self).facts_view(),
                        self.locals() == old(self).locals(),
                        self.local_shapes() == old(self).local_shapes(),
                        c0 == old(self).code(),
                        old(self).next_register() <= self.next_register(),
                        scrutinee.0 < self.next_register(),
                        jumps@.len() > 0,
                        offsets_ordered(jumps@, self.code().len() as int),
                        forall|k: int| 0 <= k < jumps@.len() ==> c0.len() <= #[trigger] jumps@[k],
                        pending_region(c0, self.code(), offsets(jumps@)),
                        index <= fields@.len(),
                        tested_fields_lowerable(fields@, index as int),
                        variant_path_ok(*path),
                    decreases fields.len() - index,
                {
                    let field_pattern = match &fields[index].pattern {
                        Some(p) => p,
                        None => {
                            index = index + 1;
                            continue;
                        },
                    };
                    if !hir_pattern_needs_check(field_pattern) {
                        index = index + 1;
                        continue;
                    }
                    let ghost c1 = self.code();
                    let value = self.emit_enum_pattern_field_read(scrutinee, path.as_slice(), fields[index].name.clone())?;
                    let ghost c2 = self.code();
                    proof {
                        assert(c2 =~= c1.push(c2.last()));
                        lemma_region_push(c0, c1, offsets(jumps@), c2.last());
                        assert(decreases_to!(*pattern => pattern->RecordVariant_fields));
                        assert(decreases_to!(*fields => fields@));
                        assert(decreases_to!(fields@ => fields@[index as int]));
                        assert(decreases_to!(fields@[index as int] => fields@[index as int].pattern));
                    }
                    let mut sub = match self.compile_hir_match_pattern(value, field_pattern) {
                        Ok(sub) => sub,
                        Err(e) => {
                            proof {
                                if tested_fields_lowerable(fields@, fields@.len() as int) {
                                    lemma_tested_field(fields@, fields@.len() as int, index as int);
                                }
                            }
                            return Err(e);
                        },
                    };
                    let ghost c3 = self.code();
                    proof {
                        lemma_region_chain(c0, c2, c3, offsets(jumps@), offsets(sub@));
                        lemma_offsets_concat(jumps@, sub@);
                        lemma_ordered_concat(jumps@, sub@, c2.len() as int, c3.len() as int);
                    }
                    jumps.append(&mut sub);
                    index = index + 1;
                }
                Ok(jumps)
            },
            _ => Err(CompileError::UnsupportedSyntax("match pattern")),
        }
    }
    /// Binds the locals a pattern declares to the parts of `scrutinee` they
    /// stand for, each part read into a fresh register; a tuple pattern
    /// without a path first guards the tuple's arity.
    pub fn bind_hir_pattern_locals(&mut self, scrutinee: Register, pattern: &HirPattern) -> (r: Result<(), CompileError>)
        requires
            old(self).wf(),
            scrutinee.0 < old(self).next_register(),
        ensures
            final(self).facts_view() == old(self).facts_view(),
            r is Ok ==> lowering_ok(old(self), final(self)),
            r is Ok && !pattern_declares_local(*pattern) ==> final(self).locals() == old(self).locals()
                && final(self).local_shapes() == old(self).local_shapes(),
            r matches Err(e) ==> e == CompileError::RegisterOverflow && final(self).next_register() == u32::MAX,
            match *pattern {
                HirPattern::Binding { local: Some(name) } => {
                    &&& r is Ok
                    &&& final(self).code() == old(self).code()
                    &&& final(self).next_register() == old(self).next_register()
                    &&& final(self).locals() == old(self).locals().push((name@, scrutinee))
                    &&& final(self).local_shapes() == old(self).local_shapes().push((name@, None))
                },
                HirPattern::TupleVariant { path: None, fields } => r is Ok ==> {
                    &&& old(self).code().len() < final(self).code().len()
                    &&& final(self).code()[old(self).code().len() as int] == InstrModel::GuardTupleArity(
                        scrutinee,
                        fields@.len() as usize,
                    )
                },
                HirPattern::TupleVariant { .. } => true,
                HirPattern::RecordVariant { path: Some(_), .. } => true,
                _ => {
                    &&& r is Ok
                    &&& final(self).code() == old(self).code()
                    &&& final(self).next_register() == old(self).next_register()
                    &&& final(self).locals() == old(self).locals()
                    &&& final(self).local_shapes() == old(self).local_shapes()
                },
            },
        decreases pattern,
    {
        let ghost c0 = self.code();
        proof {
            lemma_region_start(c0);
        }
        match pattern {
            HirPattern::Binding { local: Some(name) } => {
                self.bind_local(name.clone(), scrutinee);
                Ok(())
            },
            HirPattern::TupleVariant { path, fields } => {
                if path.is_none() {
                    self.emit(Instruction::GuardTupleArity { value: scrutinee, arity: fields.len() });
                    proof {
                        lemma_region_push(c0, c0, Set::empty(), InstrModel::GuardTupleArity(scrutinee, fields.len()));
                    }
                }
                let ghost c1 = self.code();
                proof {
                    lemma_region_start(c1);
                }
                let mut index: usize = 0;
                while index < fields.len()
                    invariant
                        *pattern == (HirPattern::TupleVariant { path: *path, fields: *fields }),
                        self.wf(),
                        self.facts_view() == old(self).facts_view(),
                        c0 == old(self).code(),
                        lowered(c0, c1),
                        lowered(c1, self.code()),
                        path is None ==> c0.len() < c1.len() && c1[c0.len() as int] == InstrModel::GuardTupleArity(
                            scrutinee,
                            fields@.len() as usize,
                        ),
                        old(self).next_register() <= self.next_register(),
                        scrutinee.0 < self.next_register(),
                        seq_extends(old(self).locals(), self.locals()),
                seq_extends(old(self).local_shapes(), self.local_shapes()),
                        !some_pattern_declares_local(fields@, fields@.len() as int) ==> self.locals()
                            == old(self).locals() && self.local_shapes() == old(self).local_shapes(),
                        index <= fields@.len(),
                    decreases fields.len() - index,
                {
                    if !hir_pattern_declares_local(&fields[index]) {
                        index = index + 1;
                        continue;
                    }
                    proof {
                        lemma_some_pattern_declares(fields@, index as int, fields@.len() as int);
                    }
                    let ghost c2 = self.code();
                    let value = match path {
                        Some(p) => self.emit_enum_pattern_field_read(scrutinee, p.as_slice(), tuple_variant_field_name(index))?,
                        None => self.emit_tuple_pattern_field_read(scrutinee, index)?,
                    };
                    let ghost c3 = self.code();
                    proof {
                        assert(c3 =~= c2.push(c3.last()));
                        lemma_region_push(c1, c2, Set::empty(), c3.last());
                        assert(decreases_to!(*pattern => pattern->TupleVariant_fields));
                        assert(decreases_to!(*fields => fields@));
                        assert(decreases_to!(fields@ => fields@[index as int]));
                    }
                    self.bind_hir_pattern_locals(value, &fields[index])?;
                    proof {
                        lemma_region_lowered(c1, c3, self.code(), Set::empty());
                    }
                    index = index + 1;
                }
                proof {
                    lemma_region_lowered(c0, c1, self.code(), Set::empty());
                    if path is None {
                        assert(self.code().subrange(0, c1.len() as int)[c0.len() as int] == self.code()[c0.len() as int]);
                    }
                }
                Ok(())
            },
            HirPattern::RecordVariant { path: Some(path), fields } => {
                let mut index: usize = 0;
                while index < fields.len()
                    invariant
                        *pattern == (HirPattern::RecordVariant { path: Some(*path), fields: *fields }),
                        self.wf(),
                        self.facts_view() == old(self).facts_view(),
                        c0 == old(self).code(),
                        lowered(c0, self.code()),
                        old(self).next_register() <= self.next_register(),
                        scrutinee.0 < self.next_register(),
                        seq_extends(old(self).locals(), self.locals()),
                seq_extends(old(self).local_shapes(), self.local_shapes()),
                        !some_field_declares_local(fields@, fields@.len() as int) ==> self.locals()
                            == old(self).locals() && self.local_shapes() == old(self).local_shapes(),
                        index <= fields@.len(),
                    decreases fields.len() - index,
                {
                    let field_pattern = match &fields[index].pattern {
                        Some(p) => p,
                        None => {
                            index = index + 1;
                            continue;
                        },
                    };
                    if !hir_pattern_declares_local(field_pattern) {
                        index = index + 1;
                        continue;
                    }
                    proof {
                        lemma_some_field_declares(fields@, index as int, fields@.len() as int);
                    }
                    let ghost c2 = self.code();
                    let value = self.emit_enum_pattern_field_read(scrutinee, path.as_slice(), fields[index].name.clone())?;
                    let ghost c3 = self.code();
                    proof {
                        assert(c3 =~= c2.push(c3.last()));
                        lemma_region_push(c0, c2, Set::empty(), c3.last());
                        assert(decreases_to!(*pattern => pattern->RecordVariant_fields));
                        assert(decreases_to!(*fields => fields@));
                        assert(decreases_to!(fields@ => fields@[index as int]));
                        assert(decreases_to!(fields@[index as int] => fields@[index as int].pattern));
                    }
                    self.bind_hir_pattern_locals(value, field_pattern)?;
                    proof {
                        lemma_region_lowered(c0, c3, self.code(), Set::empty());
                    }
                    index = index + 1;
                }
                Ok(())
            },
            _ => Ok(()),
        }
    }

    /// Lowers a `match`: each arm tests the scrutinee, binds its locals for
    /// the arm only, checks its guard, and runs its body, whose value goes to
    /// `dst` when there is one; a failed test or guard goes on to the next
    /// arm. An arm that tests nothing ends the arms; without one, a match with
    /// a destination gives `()` when no arm matches. `Ok(true)` when every
    /// arm always returns.
    #[verifier::rlimit(100)]
    #[verifier::spinoff_prover]
    pub fn compile_hir_match(&mut self, value: &HirMatch, dst: Option<Register>) -> (r: Result<bool, CompileError>)
        requires
            old(self).wf(),
            dst matches Some(d) ==> d.0 < old(self).next_register(),
        ensures
            r is Ok ==> same_scope(old(self), final(self)),
            final(self).facts_view() == old(self).facts_view(),
            r is Ok ==> lowering_ok(old(self), final(self)),
            value.scrutinee is None ==> r == Err::<bool, CompileError>(
                CompileError::UnsupportedSyntax("match scrutinee"),
            ),
            r == Ok::<bool, CompileError>(true) ==> value.arms@.len() > 0,
            step_outcome(r, match_lowerable(*value, dst is Some), final(self)),
            r matches Ok(b) ==> b == match_returns(*value, dst is Some),
            r is Ok && dst is Some && no_catch_all(value.arms@) ==> final(self).code().last() == InstrModel::LoadConst(
                dst->0,
                ConstModel::Unit,
            ),
            r is Ok && dst is Some ==> match_written(*final(self), *value, dst->0, old(self).code().len() as int),
        decreases value, 0int,
    {
        let ghost c0 = self.code();
        let scrutinee_expression = match &value.scrutinee {
            Some(e) => &**e,
            None => return Err(CompileError::UnsupportedSyntax("match scrutinee")),
        };
        let scrutinee = self.compile_hir_expression(scrutinee_expression)?;
        let mut end_jumps: Vec<usize> = Vec::new();
        let mut all_arms_return = value.arms.len() > 0;
        let mut has_catch_all = false;
        let mut i: usize = 0;
        let ghost mut bs: Seq<Compiler> = Seq::empty();
        let ghost mut be: Seq<Compiler> = Seq::empty();
        let ghost d: Register = match dst {
            Some(x) => x,
            None => Register(0),
        };
        proof {
            assert(offsets(end_jumps@) =~= Set::<int>::empty());
        }
        while i < value.arms.len() && !has_catch_all
            invariant
                bs.len() == i && be.len() == i,
                forall|k: int|
                    0 <= k < i ==> c0.len() <= (#[trigger] bs[k]).code().len() <= be[k].code().len() <= self.code().len(),
                forall|k: int| 0 <= k < i - 1 ==> (#[trigger] be[k]).code().len() <= bs[k + 1].code().len(),
                forall|k: int|
                    0 <= k < i ==> code_agrees(self.code(), (#[trigger] be[k]).code(), bs[k].code().len() as int, be[k].code().len() as int),
                dst is Some ==> forall|k: int|
                    0 <= k < i ==> arm_value_written(#[trigger] be[k], value.arms@[k], d, bs[k].code().len() as int),
                forall|k: int, q: int|
                    #![trigger bs[k], offsets(end_jumps@).contains(q)]
                    0 <= k < i && offsets(end_jumps@).contains(q) ==> !(bs[k].code().len() <= q < be[k].code().len()),
                dst matches Some(x) ==> x == d,
                forall|j: int| 0 <= j < i - 1 ==> !arm_catches_all(#[trigger] value.arms@[j]),
                self.wf(),
                self.facts_view() == old(self).facts_view(),
                value.scrutinee is Some,
                c0 == old(self).code(),
                old(self).next_register() <= self.next_register(),
                seq_extends(old(self).locals(), self.locals()),
                seq_extends(old(self).local_shapes(), self.local_shapes()),
                scrutinee.0 < self.next_register(),
                dst matches Some(d) ==> d.0 < self.next_register(),
                offsets_ordered(end_jumps@, self.code().len() as int),
                pending_region(c0, self.code(), offsets(end_jumps@)),
                all_arms_return ==> value.arms@.len() > 0,
                i <= value.arms@.len(),
                value.scrutinee matches Some(s) && expr_lowerable(*s),
                same_scope(old(self), self),
                !has_catch_all ==> arms_lowerable(value.arms@, 0, dst is Some) == arms_lowerable(
                    value.arms@,
                    i as int,
                    dst is Some,
                ),
                !has_catch_all ==> (value.arms@.len() > 0 && arms_return(value.arms@, 0, dst is Some)) == (
                all_arms_return && arms_return(value.arms@, i as int, dst is Some)),
                has_catch_all ==> arms_lowerable(value.arms@, 0, dst is Some),
                !has_catch_all ==> forall|j: int| 0 <= j < i ==> !arm_catches_all(#[trigger] value.arms@[j]),
                has_catch_all ==> i >= 1 && arm_catches_all(value.arms@[i - 1]),
                has_catch_all ==> (value.arms@.len() > 0 && arms_return(value.arms@, 0, dst is Some))
                    == all_arms_return,
            decreases value.arms.len() - i,
        {
            proof {
                assert(decreases_to!(*value => value.arms));
                assert(decreases_to!(value.arms => value.arms@));
                assert(decreases_to!(value.arms@ => value.arms@[i as int]));
            }
            let arm = &value.arms[i];
            let pattern = match &arm.pattern {
                Some(p) => p,
                None => {
                    proof {
                        assert(!arm_lowerable(value.arms@[i as int], dst is Some));
                        assert(!arms_lowerable(value.arms@, i as int, dst is Some));
                    }
                    return Err(CompileError::UnsupportedSyntax("match pattern"));
                },
            };
            let ghost ends = end_jumps@;
            let ghost ca = self.code();
            let mut next_arm_jumps = match self.compile_hir_match_pattern(scrutinee, pattern) {
                Ok(jumps) => jumps,
                Err(e) => {
                    proof {
                        if !pattern_lowerable(*pattern) {
                            assert(!arm_lowerable(value.arms@[i as int], dst is Some));
                            assert(!arms_lowerable(value.arms@, i as int, dst is Some));
                        }
                    }
                    return Err(e);
                },
            };
            let ghost cb = self.code();
            let ghost tests = next_arm_jumps@;
            proof {
                lemma_region_chain(c0, ca, cb, offsets(ends), offsets(tests));
            }
            let scope = self.local_count();
            let arm_scrutinee = match pattern {
                HirPattern::Binding { .. } => {
                    let copy = self.alloc_register()?;
                    self.emit(Instruction::Move { dst: copy, src: scrutinee });
                    proof {
                        lemma_region_push(c0, cb, offsets(ends) + offsets(tests), InstrModel::Move(copy, scrutinee));
                    }
                    copy
                },
                _ => scrutinee,
            };
            let ghost cc = self.code();
            self.bind_hir_pattern_locals(arm_scrutinee, pattern)?;
            let ghost cd = self.code();
            proof {
                lemma_region_lowered(c0, cc, cd, offsets(ends) + offsets(tests));
            }
            match &arm.guard {
                Some(guard) => {
                    proof {
                        assert(decreases_to!(value.arms@[i as int] => value.arms@[i as int].guard));
                    }
                    let jump = match self.compile_hir_jump_if_false(guard) {
                        Ok(x) => x,
                        Err(e) => {
                            proof {
                                if !(expr_lowerable(*guard)) {
                                    assert(!arm_lowerable(value.arms@[i as int], dst is Some));
                                    assert(!arms_lowerable(value.arms@, i as int, dst is Some));
                                }
                            }
                            return Err(e);
                        },
                    };
                    let ghost ce = self.code();
                    proof {
                        assert(set![jump as int].contains(jump as int));
                        lemma_region_chain(c0, cd, ce, offsets(ends) + offsets(tests), set![jump as int]);
                        lemma_offsets_push(tests, jump);
                        lemma_ordered_push(tests, jump, ce.len() as int);
                        assert(offsets(ends) + offsets(tests) + set![jump as int] =~= offsets(ends) + offsets(
                            tests.push(jump),
                        ));
                    }
                    next_arm_jumps.push(jump);
                },
                None => {},
            }
            let ghost cf = self.code();
            let ghost sb = *self;
            let ghost pend = offsets(ends) + offsets(next_arm_jumps@);
            proof {
                assert forall|q: int| offsets(next_arm_jumps@).contains(q) implies ca.len() <= q < cf.len() by {
                    let m = choose|m: int| 0 <= m < next_arm_jumps@.len() && next_arm_jumps@[m] as int == q;
                    if m < tests.len() {
                        assert(next_arm_jumps@[m] == tests[m]);
                        assert(offsets(tests).contains(q));
                    }
                }
                assert forall|k: int| 0 <= k < ca.len() implies #[trigger] cf[k] == ca[k] by {
                    assert(cb.subrange(0, ca.len() as int)[k] == cb[k]);
                    assert(cd.subrange(0, cc.len() as int)[k] == cd[k]);
                    assert(cf.subrange(0, cd.len() as int)[k] == cf[k]);
                }
            }
            let arm_returned = match &arm.body {
                Some(HirMatchArmBody::Expr(expression)) => {
                    proof {
                        assert(decreases_to!(value.arms@[i as int] => value.arms@[i as int].body));
                    }
                    let result = match self.compile_hir_expression(expression) {
                        Ok(x) => x,
                        Err(e) => {
                            proof {
                                if !(expr_lowerable(*expression)) {
                                    assert(!arm_lowerable(value.arms@[i as int], dst is Some));
                                    assert(!arms_lowerable(value.arms@, i as int, dst is Some));
                                }
                            }
                            return Err(e);
                        },
                    };
                    proof {
                        lemma_region_lowered(c0, cf, self.code(), pend);
                    }
                    let ghost sm = *self;
                    match dst {
                        Some(dd) => {
                            let ghost cg = self.code();
                            self.emit(Instruction::Move { dst: dd, src: result });
                            proof {
                                lemma_region_push(c0, cg, pend, InstrModel::Move(dd, result));
                                assert(move_of(dd, result) == InstrModel::Move(dd, result));
                                assert(lowered_value(&sb, &sm, *expression, result));
                                assert(code_agrees(self.code(), sm.code(), sb.code().len() as int, sm.code().len() as int));
                                assert(arm_value_written(*self, value.arms@[i as int], d, sb.code().len() as int));
                            }
                        },
                        None => {},
                    }
                    false
                },
                Some(HirMatchArmBody::Block(block)) => {
                    proof {
                        assert(decreases_to!(value.arms@[i as int] => value.arms@[i as int].body));
                    }
                    let returned = match dst {
                        Some(d) => match self.compile_hir_block_value_to(block, d) {
                        Ok(x) => x,
                        Err(e) => {
                            proof {
                                if !(crate::lowerable::block_value_lowerable(*block)) {
                                    assert(!arm_lowerable(value.arms@[i as int], dst is Some));
                                    assert(!arms_lowerable(value.arms@, i as int, dst is Some));
                                }
                            }
                            return Err(e);
                        },
                    },
                        None => match self.compile_hir_block(block) {
                        Ok(x) => x,
                        Err(e) => {
                            proof {
                                if !(crate::lowerable::block_lowerable(*block)) {
                                    assert(!arm_lowerable(value.arms@[i as int], dst is Some));
                                    assert(!arms_lowerable(value.arms@, i as int, dst is Some));
                                }
                            }
                            return Err(e);
                        },
                    },
                    };
                    proof {
                        lemma_region_lowered(c0, cf, self.code(), pend);
                    }
                    returned
                },
                None => {
                    proof {
                        assert(!arm_lowerable(value.arms@[i as int], dst is Some));
                        assert(!arms_lowerable(value.arms@, i as int, dst is Some));
                    }
                    return Err(CompileError::UnsupportedSyntax("match arm body"));
                },
            };
            let ghost sa = *self;
            proof {
                self.lemma_local_shapes_len();
                old(self).lemma_local_shapes_len();
                assert(sb.code() == cf);
                assert forall|k: int| 0 <= k < cf.len() implies #[trigger] sa.code()[k] == cf[k] by {
                    assert(sa.code().subrange(0, cf.len() as int)[k] == sa.code()[k]);
                }
            }
            self.drop_locals_from(scope);
            proof {
                assert(self.locals() =~= old(self).locals());
                assert(self.local_shapes() =~= old(self).local_shapes());
                assert(arm_lowerable(value.arms@[i as int], dst is Some));
                assert(arm_returned == arm_returns(value.arms@[i as int], dst is Some));
                assert((next_arm_jumps@.len() == 0) == arm_catches_all(value.arms@[i as int]));
            }
            all_arms_return = all_arms_return && arm_returned;
            let ghost cg = self.code();
            if !arm_returned {
                let j = self.emit_jump();
                proof {
                    lemma_region_push_jump(c0, cg, pend, InstrModel::Jump(PENDING_TARGET));
                    lemma_offsets_push(ends, j);
                    lemma_ordered_push(ends, j, self.code().len() as int);
                    assert(pend.insert(j as int) =~= offsets(ends.push(j)) + offsets(next_arm_jumps@));
                }
                end_jumps.push(j);
            } else {
                proof {
                    assert(pend =~= offsets(end_jumps@) + offsets(next_arm_jumps@));
                }
            }
            if next_arm_jumps.len() == 0 {
                proof {
                    assert(offsets(next_arm_jumps@) =~= Set::<int>::empty());
                    assert(offsets(end_jumps@) + offsets(next_arm_jumps@) =~= offsets(end_jumps@));
                }
                proof {
                    assert(arm_catches_all(value.arms@[i as int]));
                }
                has_catch_all = true;
            } else {
                proof {
                    assert(!arm_catches_all(value.arms@[i as int]));
                }
                let target = self.current_offset();
                proof {
                    assert(offsets(end_jumps@) + offsets(next_arm_jumps@) =~= offsets(next_arm_jumps@) + offsets(
                        end_jumps@,
                    ));
                    assert forall|k: int| 0 <= k < next_arm_jumps@.len() implies !offsets(end_jumps@).contains(
                        #[trigger] next_arm_jumps@[k] as int,
                    ) by {
                        if offsets(end_jumps@).contains(next_arm_jumps@[k] as int) {
                            let m = choose|m: int| 0 <= m < end_jumps@.len() && end_jumps@[m] as int
                                == next_arm_jumps@[k] as int;
                            if m < ends.len() {
                                assert(end_jumps@[m] == ends[m]);
                            }
                        }
                    }
                }
                self.patch_jumps(&next_arm_jumps, target, Ghost(c0), Ghost(offsets(end_jumps@)));
            }
            proof {
                let cur = self.code();
                assert forall|k: int| 0 <= k < sa.code().len() && !(ca.len() <= k < cf.len()) implies #[trigger] cur[k]
                    == sa.code()[k] by {
                    if offsets(next_arm_jumps@).contains(k) {
                    }
                }
                bs = bs.push(sb);
                be = be.push(sa);
                assert forall|k: int|
                    0 <= k < i + 1 implies code_agrees(cur, (#[trigger] be[k]).code(), bs[k].code().len() as int, be[k].code().len() as int) by {
                    if k < i {
                        assert forall|x: int| bs[k].code().len() <= x < be[k].code().len() implies #[trigger] cur[x] == be[k].code()[x] by {
                            assert(ca[x] == be[k].code()[x]);
                            assert(cf[x] == ca[x]);
                            assert(sa.code()[x] == cf[x]);
                        }
                    } else {
                        assert forall|x: int| bs[k].code().len() <= x < be[k].code().len() implies #[trigger] cur[x] == be[k].code()[x] by {
                        }
                    }
                }
                assert forall|k: int, q: int|
                    #![trigger bs[k], offsets(end_jumps@).contains(q)]
                    0 <= k < i + 1 && offsets(end_jumps@).contains(q) implies !(bs[k].code().len() <= q < be[k].code().len()) by {
                    if offsets(ends).contains(q) {
                        let m = choose|m: int| 0 <= m < ends.len() && ends[m] as int == q;
                        assert(ends[m] < ca.len());
                        if k < i {
                            assert(offsets(ends).contains(q));
                        }
                    } else {
                        let m = choose|m: int| 0 <= m < end_jumps@.len() && end_jumps@[m] as int == q;
                        if m < ends.len() {
                            assert(end_jumps@[m] == ends[m]);
                            assert(offsets(ends).contains(q));
                        }
                    }
                }
            }
            i = i + 1;
        }
        proof {
            if no_catch_all(value.arms@) {
                if has_catch_all {
                    assert(arm_catches_all(value.arms@[i - 1]));
                }
            }
        }
        match dst {
            Some(d) => {
                if !has_catch_all {
                    let ghost cz = self.code();
                    self.emit_constant_to(d, Constant::Unit);
                    proof {
                        lemma_region_push(c0, cz, offsets(end_jumps@), InstrModel::LoadConst(d, ConstModel::Unit));
                    }
                }
            },
            None => {},
        }
        let ghost before_patch = self.code();
        let target = self.current_offset();
        proof {
            assert(offsets(end_jumps@) + Set::<int>::empty() =~= offsets(end_jumps@));
        }
        self.patch_jumps(&end_jumps, target, Ghost(c0), Ghost(Set::<int>::empty()));
        proof {
            if dst is Some && no_catch_all(value.arms@) {
                assert(!is_jump(before_patch[before_patch.len() - 1]));
                assert(self.code().last() == before_patch.last());
            }
            let fin = self.code();
            assert forall|k: int|
                0 <= k < i implies code_agrees(fin, (#[trigger] be[k]).code(), bs[k].code().len() as int, be[k].code().len() as int) by {
                assert forall|x: int| bs[k].code().len() <= x < be[k].code().len() implies #[trigger] fin[x] == be[k].code()[x] by {
                    assert(!offsets(end_jumps@).contains(x));
                    assert(before_patch[x] == be[k].code()[x]);
                }
            }
            if dst is Some {
                assert(arms_written(*self, value.arms@, d, c0.len() as int, bs, be));
                assert(bs.len() == i && be.len() == i);
                reveal(match_written);
                assert(match_written(*self, *value, d, c0.len() as int));
            }
        }
        Ok(all_arms_return)
    }

    /// Points each jump at the listed offsets to `target`; the jumps pending
    /// in `other` stay pending.
    pub fn patch_jumps(
        &mut self,
        jumps: &Vec<usize>,
        target: usize,
        Ghost(base): Ghost<Seq<InstrModel>>,
        Ghost(other): Ghost<Set<int>>,
    )
        requires
            old(self).wf(),
            offsets_ordered(jumps@, old(self).code().len() as int),
            pending_region(base, old(self).code(), offsets(jumps@) + other),
            forall|k: int| 0 <= k < jumps@.len() ==> !other.contains(#[trigger] jumps@[k] as int),
            base.len() <= target <= old(self).code().len(),
        ensures
            final(self).wf(),
            final(self).facts_view() == old(self).facts_view(),
            final(self).next_register() == old(self).next_register(),
            final(self).locals() == old(self).locals(),
            final(self).local_shapes() == old(self).local_shapes(),
            final(self).code().len() == old(self).code().len(),
            pending_region(base, final(self).code(), other),
            forall|k: int|
                0 <= k < old(self).code().len() && !is_jump(#[trigger] old(self).code()[k]) ==> final(self).code()[k]
                    == old(self).code()[k],
            forall|k: int|
                0 <= k < old(self).code().len() && !offsets(jumps@).contains(k) ==> #[trigger] final(self).code()[k]
                    == old(self).code()[k],
            forall|j: int|
                0 <= j < jumps@.len() ==> final(self).code()[#[trigger] jumps@[j] as int] == retarget(
                    old(self).code()[jumps@[j] as int],
                    target,
                ),
    {
        let n = jumps.len();
        let mut i: usize = 0;
        proof {
            assert(jumps@.subrange(0, n as int) =~= jumps@);
        }
        while i < n
            invariant
                self.wf(),
                self.facts_view() == old(self).facts_view(),
                self.next_register() == old(self).next_register(),
                self.locals() == old(self).locals(),
                self.local_shapes() == old(self).local_shapes(),
                self.code().len() == old(self).code().len(),
                n == jumps@.len(),
                i <= n,
                base.len() <= target <= self.code().len(),
                offsets_ordered(jumps@, self.code().len() as int),
                forall|k: int| 0 <= k < jumps@.len() ==> !other.contains(#[trigger] jumps@[k] as int),
                pending_region(base, self.code(), offsets(jumps@.subrange(i as int, n as int)) + other),
                forall|k: int|
                    0 <= k < old(self).code().len() && !is_jump(#[trigger] old(self).code()[k]) ==> self.code()[k]
                        == old(self).code()[k],
                forall|k: int|
                    0 <= k < old(self).code().len() && !offsets(jumps@).contains(k) ==> #[trigger] self.code()[k]
                        == old(self).code()[k],
                forall|j: int|
                    0 <= j < i ==> self.code()[#[trigger] jumps@[j] as int] == retarget(
                        old(self).code()[jumps@[j] as int],
                        target,
                    ),
                forall|j: int| i <= j < n ==> self.code()[#[trigger] jumps@[j] as int] == old(self).code()[jumps@[j] as int],
            decreases n - i,
        {
            let ghost c1 = self.code();
            let ghost rest = offsets(jumps@.subrange(i as int, n as int));
            let ghost x = jumps@[i as int] as int;
            proof {
                lemma_offsets_drop_first(jumps@, i as int, c1.len() as int);
                assert((rest + other).contains(x));
            }
            match self.patch_jump(jumps[i], target) {
                Ok(()) => {},
                Err(_) => {
                    proof {
                        assert(false);
                    }
                },
            }
            proof {
                lemma_region_patch(base, c1, rest + other, x, target);
                assert(offsets(jumps@).contains(x)) by {
                    assert(jumps@[i as int] as int == x);
                }
                assert(!other.contains(x));
                assert forall|q: int| #[trigger] (rest + other).remove(x).contains(q) == (offsets(
                    jumps@.subrange(i + 1, n as int),
                ) + other).contains(q) by {
                    assert(rest.remove(x).contains(q) == offsets(jumps@.subrange(i + 1, n as int)).contains(q));
                }
                assert((rest + other).remove(x) =~= offsets(jumps@.subrange(i + 1, n as int)) + other);
            }
            i = i + 1;
        }
        proof {
            assert(offsets(jumps@.subrange(n as int, n as int)) =~= Set::<int>::empty());
            assert(Set::<int>::empty() + other =~= other);
        }
    }
}

} // verus!
