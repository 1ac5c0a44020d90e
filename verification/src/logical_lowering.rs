use vstd::prelude::*;

use crate::compiler::{retarget, CompileError, Compiler, ConstModel, InstrModel, Instruction, Register, PENDING_TARGET};
use crate::hir::{HirBinaryOp, HirExpr};
use crate::hir_lowering::{
    derefs, hir_logical_operands, lemma_offsets_push, lemma_region_lowered, lemma_region_patch, lemma_region_push,
    lemma_region_push_jump, lemma_region_start, logical_leaves, lowered_value, lowering_ok, offsets, offsets_ordered,
    pending_region, same_scope,
};
use crate::lowerable::{expr_lowerable, logical_lowerable, step_outcome};

verus! {

/// Where the code after a chain operand's short-circuit test resumes: one
/// past the test for `&&`; past the test, the load of `true` and the jump
/// to the end for `||`.
pub open spec fn link_end(op: HirBinaryOp, t: Compiler) -> int {
    if op == HirBinaryOp::And {
        t.code().len() + 1int
    } else {
        t.code().len() + 3int
    }
}

/// The offset of an operand's jump that leaves the chain: its test for
/// `&&`, its jump to the end for `||`.
pub open spec fn leaving_jump(op: HirBinaryOp, t: Compiler) -> int {
    if op == HirBinaryOp::And {
        t.code().len() as int
    } else {
        t.code().len() + 2int
    }
}

/// Operand `leaf`, lowered from `s` to `t` into `v`, stands unchanged in
/// `code`, with the bindings of `before`.
pub open spec fn leaf_in(code: Seq<InstrModel>, s: Compiler, t: Compiler, leaf: HirExpr, v: Register, before: Compiler) -> bool
    decreases leaf, 2int,
{
    &&& lowered_value(&s, &t, leaf, v)
    &&& s.wf() && t.wf()
    &&& s.locals() == before.locals() && t.locals() == before.locals()
    &&& s.next_register() <= t.next_register()
    &&& s.code().len() <= t.code().len() <= code.len()
    &&& forall|i: int| s.code().len() <= i < t.code().len() ==> #[trigger] code[i] == t.code()[i]
}

/// The short-circuit test after an operand that is not the chain's last:
/// for `&&`, a jump to `to` (the load of `false`) when the operand is
/// false; for `||`, a jump over the load of `true` into `dst` and the jump
/// to `to` (the end) when the operand is false.
pub open spec fn link_in(code: Seq<InstrModel>, op: HirBinaryOp, dst: Register, t: Compiler, v: Register, to: usize) -> bool {
    let p = t.code().len() as int;
    if op == HirBinaryOp::And {
        code[p] == InstrModel::JumpIfFalse(v, to)
    } else {
        &&& code[p] == InstrModel::JumpIfFalse(v, (p + 3) as usize)
        &&& code[p + 1] == InstrModel::LoadConst(dst, ConstModel::Bool(true))
        &&& code[p + 2] == InstrModel::Jump(to)
    }
}

/// The frame of a chain of `n` operands of `op` into `dst`, appended to
/// `before`: operand `k` lowered from `ss[k]` to `ts[k]` into `vs[k]`, the
/// first right after `dst` was taken, each next one right after the test
/// of the one before it; after each operand but the last its short-circuit
/// test; after the last, its truthiness into `dst`; for `&&`, then a jump to
/// the end and the load of `false` that the tests jump to; the tests of `||`
/// jump to the end.
pub open spec fn chain_links(
    before: Compiler,
    after: Compiler,
    op: HirBinaryOp,
    dst: Register,
    n: int,
    ss: Seq<Compiler>,
    ts: Seq<Compiler>,
    vs: Seq<Register>,
) -> bool {
    let last = ts[n - 1].code().len() as int;
    let end = after.code().len() as int;
    let to: usize = if op == HirBinaryOp::And {
        (last + 2) as usize
    } else {
        end as usize
    };
    &&& n >= 2 && ss.len() == n && ts.len() == n && vs.len() == n
    &&& dst.0 == before.next_register()
    &&& ss[0].code().len() == before.code().len() && ss[0].next_register() == before.next_register() + 1
    &&& forall|k: int| 0 <= k < n - 1 ==> link_in(after.code(), op, dst, #[trigger] ts[k], vs[k], to)
    &&& forall|k: int|
        0 <= k < n - 1 ==> (#[trigger] ss[k + 1]).code().len() == link_end(op, ts[k]) && ss[k + 1].next_register()
            == ts[k].next_register()
    &&& after.code()[last] == InstrModel::Truthy(dst, vs[n - 1])
    &&& op == HirBinaryOp::And ==> {
        &&& after.code()[last + 1] == InstrModel::Jump(end as usize)
        &&& after.code()[last + 2] == InstrModel::LoadConst(dst, ConstModel::Bool(false))
        &&& end == last + 3
    }
    &&& op == HirBinaryOp::Or ==> end == last + 1
    &&& end <= usize::MAX
    &&& after.next_register() == ts[n - 1].next_register()
}

/// The code of `&&` or `||` into `r`: its chain of operands (a nested chain
/// of the same operator counts as part of it), in order, each standing
/// where `chain_links` puts it.
pub open spec fn logical_lowered(before: Compiler, after: Compiler, e: HirExpr, r: Register) -> bool
    decreases e, 0int,
{
    match e {
        HirExpr::Binary { op: Some(op), lhs: Some(l), rhs: Some(rr) } => {
            proof {
                lemma_leaves_inside(*l, op);
                lemma_leaves_inside(*rr, op);
                let la = logical_leaves(*l, op);
                let lb = logical_leaves(*rr, op);
                assert forall|k: int| 0 <= k < (la + lb).len() implies decreases_to!(e => #[trigger] (la + lb)[k]) by {
                    if k < la.len() {
                        assert((la + lb)[k] == la[k]);
                    } else {
                        assert((la + lb)[k] == lb[k - la.len()]);
                    }
                }
            }
            let leaves = logical_leaves(*l, op) + logical_leaves(*rr, op);
            exists|ss: Seq<Compiler>, ts: Seq<Compiler>, vs: Seq<Register>|
                #![trigger chain_links(before, after, op, r, leaves.len() as int, ss, ts, vs)]
                {
                    &&& chain_links(before, after, op, r, leaves.len() as int, ss, ts, vs)
                    &&& forall|k: int|
                        0 <= k < leaves.len() ==> leaf_in(after.code(), #[trigger] ss[k], ts[k], leaves[k], vs[k], before)
                }
        },
        _ => false,
    }
}

/// Each operand of a chain is the expression itself or lies inside it, and
/// there is at least one.
pub proof fn lemma_leaves_inside(x: HirExpr, op: HirBinaryOp)
    ensures
        logical_leaves(x, op).len() >= 1,
        forall|k: int|
            0 <= k < logical_leaves(x, op).len() ==> #[trigger] logical_leaves(x, op)[k] == x || decreases_to!(
                x => logical_leaves(x, op)[k]),
        expr_lowerable(x) <==> forall|k: int|
            0 <= k < logical_leaves(x, op).len() ==> expr_lowerable(#[trigger] logical_leaves(x, op)[k]),
    decreases x,
{
    match x {
        HirExpr::Binary { op: Some(o), lhs: Some(l), rhs: Some(r) } => {
            if o == op {
                lemma_leaves_inside(*l, op);
                lemma_leaves_inside(*r, op);
                let a = logical_leaves(*l, op);
                let b = logical_leaves(*r, op);
                assert forall|k: int| 0 <= k < (a + b).len() implies #[trigger] (a + b)[k] == x || decreases_to!(
                    x => (a + b)[k]) by {
                    if k < a.len() {
                        assert((a + b)[k] == a[k]);
                    } else {
                        assert((a + b)[k] == b[k - a.len()]);
                    }
                }
                assert(logical_leaves(x, op) == a + b);
                assert(expr_lowerable(x) == (expr_lowerable(*l) && expr_lowerable(*r)));
                if expr_lowerable(x) {
                    assert forall|k: int| 0 <= k < (a + b).len() implies expr_lowerable(#[trigger] (a + b)[k]) by {
                        if k < a.len() {
                            assert((a + b)[k] == a[k]);
                        } else {
                            assert((a + b)[k] == b[k - a.len()]);
                        }
                    }
                }
                if forall|k: int| 0 <= k < (a + b).len() ==> expr_lowerable(#[trigger] (a + b)[k]) {
                    assert forall|k: int| 0 <= k < a.len() implies expr_lowerable(#[trigger] a[k]) by {
                        assert((a + b)[k] == a[k]);
                    }
                    assert forall|k: int| 0 <= k < b.len() implies expr_lowerable(#[trigger] b[k]) by {
                        assert((a + b)[k + a.len()] == b[k]);
                    }
                    assert(expr_lowerable(*l));
                    assert(expr_lowerable(*r));
                }
            } else {
                assert(logical_leaves(x, op) =~= seq![x]);
                assert(logical_leaves(x, op)[0] == x);
            }
        },
        _ => {
            assert(logical_leaves(x, op) =~= seq![x]);
            assert(logical_leaves(x, op)[0] == x);
        },
    }
}

/// The pieces of a lowered chain, gathered while it was emitted, make up
/// its `logical_code`: `s` is the state before the last operand, `t` after
/// it, `after` the final state once the tests were patched to `tgt`.
pub proof fn lemma_logical_witness(
    before: Compiler,
    after: Compiler,
    s: Compiler,
    t: Compiler,
    op: HirBinaryOp,
    dst: Register,
    value: Register,
    ls: Seq<HirExpr>,
    ss: Seq<Compiler>,
    ts: Seq<Compiler>,
    vs: Seq<Register>,
    pending: Seq<usize>,
    tgt: int,
)
    requires
        op == HirBinaryOp::And || op == HirBinaryOp::Or,
        ls.len() >= 2,
        ss.len() == ls.len() - 1 && ts.len() == ls.len() - 1 && vs.len() == ls.len() - 1 && pending.len() == ls.len()
            - 1,
        dst.0 == before.next_register(),
        ss[0].code().len() == before.code().len() && ss[0].next_register() == before.next_register() + 1,
        forall|j: int| 0 <= j < ls.len() - 1 ==> leaf_in(s.code(), #[trigger] ss[j], ts[j], ls[j], vs[j], before),
        forall|j: int| 0 <= j < ls.len() - 1 ==> link_in(s.code(), op, dst, #[trigger] ts[j], vs[j], PENDING_TARGET),
        forall|j: int| 0 <= j < ls.len() - 1 ==> link_end(op, #[trigger] ts[j]) <= s.code().len(),
        forall|j: int|
            0 <= j < ls.len() - 2 ==> (#[trigger] ss[j + 1]).code().len() == link_end(op, ts[j]) && ss[j
                + 1].next_register() == ts[j].next_register(),
        forall|j: int, j2: int|
            0 <= j < j2 < ls.len() - 1 ==> link_end(op, #[trigger] ts[j]) <= (#[trigger] ss[j2]).code().len(),
        s.code().len() == link_end(op, ts[ls.len() - 2]),
        s.next_register() == ts[ls.len() - 2].next_register(),
        forall|j: int| 0 <= j < pending.len() ==> #[trigger] pending[j] == leaving_jump(op, ts[j]),
        lowered_value(&s, &t, ls[ls.len() - 1], value),
        s.wf() && t.wf(),
        s.locals() == before.locals() && t.locals() == before.locals(),
        s.next_register() <= t.next_register(),
        s.code().len() <= t.code().len(),
        tgt == if op == HirBinaryOp::And {
            t.code().len() + 2
        } else {
            t.code().len() + 1
        },
        forall|i: int| 0 <= i < s.code().len() && !offsets(pending).contains(i) ==> #[trigger] after.code()[i] == s.code()[i],
        forall|j: int| 0 <= j < pending.len() ==> after.code()[#[trigger] pending[j] as int] == retarget(
            s.code()[pending[j] as int],
            tgt as usize,
        ),
        forall|i: int| s.code().len() <= i < t.code().len() ==> #[trigger] after.code()[i] == t.code()[i],
        after.code()[t.code().len() as int] == InstrModel::Truthy(dst, value),
        op == HirBinaryOp::And ==> {
            &&& after.code()[t.code().len() + 1int] == InstrModel::Jump((t.code().len() + 3) as usize)
            &&& after.code()[t.code().len() + 2int] == InstrModel::LoadConst(dst, ConstModel::Bool(false))
            &&& after.code().len() == t.code().len() + 3
        },
        op == HirBinaryOp::Or ==> after.code().len() == t.code().len() + 1,
        after.code().len() <= usize::MAX,
        after.next_register() == t.next_register(),
    ensures
        chain_links(before, after, op, dst, ls.len() as int, ss.push(s), ts.push(t), vs.push(value)),
        forall|k: int|
            0 <= k < ls.len() ==> leaf_in(after.code(), #[trigger] ss.push(s)[k], ts.push(t)[k], ls[k], vs.push(value)[k], before),
{
    let n = ls.len() as int;
    let ss2 = ss.push(s);
    let ts2 = ts.push(t);
    let vs2 = vs.push(value);
    let last = t.code().len() as int;
    assert(ts2[n - 1] == t);
    // No pending test lies inside an operand's code, nor in the first two
    // places of a later link.
    assert forall|j: int, i: int|
        #![trigger ss[j], offsets(pending).contains(i)]
        0 <= j < n - 1 && ss[j].code().len() <= i < ts[j].code().len() implies !offsets(pending).contains(i) by {
        if offsets(pending).contains(i) {
            let q = choose|q: int| 0 <= q < pending.len() && pending[q] as int == i;
            assert(pending[q] == leaving_jump(op, ts[q]));
            assert(leaf_in(s.code(), ss[q], ts[q], ls[q], vs[q], before));
            assert(leaf_in(s.code(), ss[j], ts[j], ls[j], vs[j], before));
            if q < j {
                assert(link_end(op, ts[q]) <= ss[j].code().len());
            } else if q > j {
                assert(link_end(op, ts[j]) <= ss[q].code().len());
            }
        }
    }
    assert forall|j: int| 0 <= j < n - 1 implies leaf_in(after.code(), #[trigger] ss2[j], ts2[j], ls[j], vs2[j], before) by {
        assert(ss2[j] == ss[j] && ts2[j] == ts[j] && vs2[j] == vs[j]);
        assert(leaf_in(s.code(), ss[j], ts[j], ls[j], vs[j], before));
        assert forall|i: int| ss[j].code().len() <= i < ts[j].code().len() implies #[trigger] after.code()[i]
            == ts[j].code()[i] by {
            assert(ss[j].code().len() <= i < ts[j].code().len());
            assert(!offsets(pending).contains(i));
            assert(link_end(op, ts[j]) <= s.code().len());
            assert(s.code()[i] == ts[j].code()[i]);
        }
    }
    assert(leaf_in(after.code(), ss2[n - 1], ts2[n - 1], ls[n - 1], vs2[n - 1], before)) by {
        assert(ss2[n - 1] == s && vs2[n - 1] == value);
    }
    let to: usize = if op == HirBinaryOp::And {
        (last + 2) as usize
    } else {
        after.code().len() as usize
    };
    assert forall|j: int| 0 <= j < n - 1 implies link_in(after.code(), op, dst, #[trigger] ts2[j], vs2[j], to) by {
        assert(ts2[j] == ts[j] && vs2[j] == vs[j]);
        assert(link_in(s.code(), op, dst, ts[j], vs[j], PENDING_TARGET));
        assert(link_end(op, ts[j]) <= s.code().len());
        assert(leaf_in(s.code(), ss[j], ts[j], ls[j], vs[j], before));
        let p = ts[j].code().len() as int;
        assert(after.code()[pending[j] as int] == retarget(s.code()[pending[j] as int], tgt as usize));
        if op == HirBinaryOp::Or {
            assert forall|i: int| p <= i <= p + 1 implies !offsets(pending).contains(i) by {
                if offsets(pending).contains(i) {
                    let q = choose|q: int| 0 <= q < pending.len() && pending[q] as int == i;
                    assert(pending[q] == leaving_jump(op, ts[q]));
                    assert(leaf_in(s.code(), ss[q], ts[q], ls[q], vs[q], before));
                    if q < j {
                        assert(link_end(op, ts[q]) <= ss[j].code().len());
                    } else if q > j {
                        assert(link_end(op, ts[j]) <= ss[q].code().len());
                    }
                }
            }
            assert(after.code()[p] == s.code()[p]);
            assert(after.code()[p + 1] == s.code()[p + 1]);
        }
    }
    assert forall|k: int|
        0 <= k < n - 1 implies (#[trigger] ss2[k + 1]).code().len() == link_end(op, ts2[k]) && ss2[k + 1].next_register()
        == ts2[k].next_register() by {
        assert(ts2[k] == ts[k]);
        if k < n - 2 {
            assert(ss2[k + 1] == ss[k + 1]);
        } else {
            assert(ss2[k + 1] == s);
        }
    }
    assert(ss2[0] == ss[0]);
    assert(vs2[n - 1] == value);
}

impl Compiler {
    /// Lowers `&&` or `||` with short-circuit jumps into one fresh register
    /// holding a boolean; a chain of the same operator is lowered as one:
    /// each operand in order, each but the last followed by its test, the
    /// last followed by its truthiness into the result.
    pub fn compile_hir_logical(&mut self, e: &HirExpr) -> (r: Result<Register, CompileError>)
        requires
            old(self).wf(),
        ensures
            r is Ok ==> same_scope(old(self), final(self)),
            final(self).facts_view() == old(self).facts_view(),
            r is Ok ==> lowering_ok(old(self), final(self)) && r->Ok_0.0 < final(self).next_register(),
            step_outcome(r, logical_lowerable(*e), final(self)),
            r is Ok ==> r->Ok_0.0 == old(self).next_register(),
            r is Ok ==> logical_lowered(*old(self), *final(self), *e, r->Ok_0),
        decreases e, 0int,
    {
        let (op, lhs, rhs) = match e {
            HirExpr::Binary { op: Some(op), lhs: Some(lhs), rhs: Some(rhs) } => (*op, &**lhs, &**rhs),
            _ => return Err(CompileError::UnsupportedSyntax("expression")),
        };
        if op != HirBinaryOp::And && op != HirBinaryOp::Or {
            return Err(CompileError::UnsupportedSyntax("expression"));
        }
        let leaves = hir_logical_operands(op, lhs, rhs);
        let ghost ls = derefs(leaves@);
        let ghost la = logical_leaves(*lhs, op);
        let ghost lb = logical_leaves(*rhs, op);
        proof {
            lemma_leaves_inside(*lhs, op);
            lemma_leaves_inside(*rhs, op);
            assert(ls == la + lb);
            assert(decreases_to!(*e => *lhs));
            assert(decreases_to!(*e => *rhs));
            assert forall|j: int| 0 <= j < ls.len() implies decreases_to!(*e => #[trigger] ls[j]) by {
                if j < la.len() {
                    assert(ls[j] == la[j]);
                } else {
                    assert(ls[j] == lb[j - la.len()]);
                }
            }
            assert(logical_lowerable(*e) <==> forall|k: int| 0 <= k < ls.len() ==> expr_lowerable(#[trigger] ls[k])) by {
                if forall|k: int| 0 <= k < ls.len() ==> expr_lowerable(#[trigger] ls[k]) {
                    assert forall|k: int| 0 <= k < la.len() implies expr_lowerable(#[trigger] la[k]) by {
                        assert(ls[k] == la[k]);
                    }
                    assert forall|k: int| 0 <= k < lb.len() implies expr_lowerable(#[trigger] lb[k]) by {
                        assert(ls[k + la.len()] == lb[k]);
                    }
                }
                if logical_lowerable(*e) {
                    assert forall|k: int| 0 <= k < ls.len() implies expr_lowerable(#[trigger] ls[k]) by {
                        if k < la.len() {
                            assert(ls[k] == la[k]);
                        } else {
                            assert(ls[k] == lb[k - la.len()]);
                        }
                    }
                }
            }
        }
        let n = leaves.len();
        let ghost c0 = self.code();
        proof {
            lemma_region_start(c0);
            assert(offsets(Seq::<usize>::empty()) =~= Set::<int>::empty());
        }
        let dst = self.alloc_register()?;
        let mut pending: Vec<usize> = Vec::new();
        let ghost mut ss: Seq<Compiler> = Seq::empty();
        let ghost mut ts: Seq<Compiler> = Seq::empty();
        let ghost mut vs: Seq<Register> = Seq::empty();
        let mut k: usize = 0;
        while k < n - 1
            invariant
                self.wf(),
                self.facts_view() == old(self).facts_view(),
                same_scope(old(self), self),
                c0 == old(self).code(),
                dst.0 == old(self).next_register(),
                old(self).next_register() < self.next_register(),
                op == HirBinaryOp::And || op == HirBinaryOp::Or,
                ls == derefs(leaves@),
                n == ls.len(),
                n >= 2,
                0 <= k <= n - 1,
                forall|j: int| 0 <= j < ls.len() ==> decreases_to!(*e => #[trigger] ls[j]),
                logical_lowerable(*e) <==> forall|j: int| 0 <= j < ls.len() ==> expr_lowerable(#[trigger] ls[j]),
                forall|j: int| 0 <= j < k ==> expr_lowerable(#[trigger] ls[j]),
                ss.len() == k && ts.len() == k && vs.len() == k && pending@.len() == k,
                pending_region(c0, self.code(), offsets(pending@)),
                offsets_ordered(pending@, self.code().len() as int),
                forall|j: int| 0 <= j < k ==> #[trigger] pending@[j] == leaving_jump(op, ts[j]),
                k == 0 ==> self.code() == c0 && self.next_register() == old(self).next_register() + 1,
                k > 0 ==> self.code().len() == link_end(op, ts[k - 1]) && self.next_register() == ts[k
                    - 1].next_register(),
                k > 0 ==> ss[0].code().len() == c0.len() && ss[0].next_register() == old(self).next_register() + 1,
                forall|j: int| 0 <= j < k ==> leaf_in(self.code(), #[trigger] ss[j], ts[j], ls[j], vs[j], *old(self)),
                forall|j: int| 0 <= j < k ==> link_in(self.code(), op, dst, #[trigger] ts[j], vs[j], PENDING_TARGET),
                forall|j: int| 0 <= j < k ==> link_end(op, #[trigger] ts[j]) <= self.code().len(),
                forall|j: int|
                    0 <= j < k - 1 ==> (#[trigger] ss[j + 1]).code().len() == link_end(op, ts[j]) && ss[j
                        + 1].next_register() == ts[j].next_register(),
                forall|j: int, j2: int| 0 <= j < j2 < k ==> link_end(op, #[trigger] ts[j]) <= (#[trigger] ss[j2]).code().len(),
            decreases n - 1 - k,
        {
            proof {
                assert(ls[k as int] == *leaves@[k as int]);
            }
            let ghost s = *self;
            let value = match self.compile_hir_expression(leaves[k]) {
                Ok(v) => v,
                Err(err) => {
                    return Err(err);
                },
            };
            let ghost t = *self;
            proof {
                lemma_region_lowered(c0, s.code(), t.code(), offsets(pending@));
            }
            let ghost p0 = pending@;
            if op == HirBinaryOp::And {
                let j = self.emit_jump_if_false(value);
                proof {
                    lemma_region_push_jump(c0, t.code(), offsets(p0), InstrModel::JumpIfFalse(value, PENDING_TARGET));
                    lemma_offsets_push(p0, j);
                }
                pending.push(j);
                proof {
                    assert forall|i: int| 0 <= i < t.code().len() implies #[trigger] self.code()[i] == t.code()[i] by {}
                }
            } else {
                let next = self.emit_jump_if_false(value);
                let ghost c2 = self.code();
                proof {
                    lemma_region_push_jump(c0, t.code(), offsets(p0), InstrModel::JumpIfFalse(value, PENDING_TARGET));
                }
                self.emit_bool_constant_to(dst, true);
                let ghost c3 = self.code();
                proof {
                    lemma_region_push(c0, c2, offsets(p0).insert(next as int), InstrModel::LoadConst(dst, ConstModel::Bool(true)));
                }
                let end = self.emit_jump();
                let ghost c4 = self.code();
                proof {
                    lemma_region_push_jump(c0, c3, offsets(p0).insert(next as int), InstrModel::Jump(PENDING_TARGET));
                }
                let target = self.current_offset();
                match self.patch_jump(next, target) {
                    Ok(()) => {},
                    Err(err) => {
                        proof {
                            assert(offsets(p0).insert(next as int).insert(end as int).contains(next as int));
                        }
                        return Err(err);
                    },
                }
                proof {
                    let pset = offsets(p0).insert(next as int).insert(end as int);
                    lemma_region_patch(c0, c4, pset, next as int, target);
                    assert(!offsets(p0).contains(next as int)) by {
                        if offsets(p0).contains(next as int) {
                            let q = choose|q: int| 0 <= q < p0.len() && p0[q] as int == next as int;
                        }
                    }
                    assert(pset.remove(next as int) =~= offsets(p0).insert(end as int));
                    lemma_offsets_push(p0, end);
                }
                pending.push(end);
                proof {
                    assert forall|i: int| 0 <= i < t.code().len() implies #[trigger] self.code()[i] == t.code()[i] by {
                        assert(c4[i] == t.code()[i]);
                    }
                }
            }
            proof {
                ss = ss.push(s);
                ts = ts.push(t);
                vs = vs.push(value);
                assert forall|j: int| 0 <= j < k + 1 implies leaf_in(self.code(), #[trigger] ss[j], ts[j], ls[j], vs[j], *old(self)) by {
                    if j < k {
                        assert forall|i: int| ss[j].code().len() <= i < ts[j].code().len() implies #[trigger] self.code()[i]
                            == ts[j].code()[i] by {
                            assert(link_end(op, ts[j]) <= s.code().len());
                            assert(s.code()[i] == ts[j].code()[i]);
                            assert(t.code().subrange(0, s.code().len() as int)[i] == t.code()[i]);
                            assert(i < t.code().len());
                        }
                    } else {
                        assert forall|i: int| ss[j].code().len() <= i < ts[j].code().len() implies #[trigger] self.code()[i]
                            == ts[j].code()[i] by {
                            assert(i < t.code().len());
                        }
                    }
                }
                assert forall|j: int| 0 <= j < k + 1 implies link_in(self.code(), op, dst, #[trigger] ts[j], vs[j], PENDING_TARGET) by {
                    if j < k {
                        assert(link_end(op, ts[j]) <= t.code().len());
                    }
                }
            }
            k = k + 1;
        }
        let ghost s = *self;
        proof {
            assert(ls[k as int] == *leaves@[k as int]);
        }
        let value = match self.compile_hir_expression(leaves[k]) {
            Ok(v) => v,
            Err(err) => {
                return Err(err);
            },
        };
        let ghost t = *self;
        proof {
            lemma_region_lowered(c0, s.code(), t.code(), offsets(pending@));
        }
        self.emit(Instruction::Truthy { dst, src: value });
        let ghost c1 = self.code();
        proof {
            lemma_region_push(c0, t.code(), offsets(pending@), InstrModel::Truthy(dst, value));
        }
        let ghost last_len = t.code().len();
        let ghost tgt: int = if op == HirBinaryOp::And {
            last_len + 2int
        } else {
            last_len + 1int
        };
        proof {
            assert forall|i: int| 0 <= i < s.code().len() implies #[trigger] t.code()[i] == s.code()[i] by {
                assert(t.code().subrange(0, s.code().len() as int)[i] == t.code()[i]);
            }
        }
        if op == HirBinaryOp::And {
            let end = self.emit_jump();
            let ghost c2 = self.code();
            proof {
                lemma_region_push_jump(c0, c1, offsets(pending@), InstrModel::Jump(PENDING_TARGET));
            }
            let target = self.current_offset();
            let ghost end_set: Set<int> = set![end as int];
            proof {
                assert(offsets(pending@) + set![end as int] =~= offsets(pending@).insert(end as int));
                assert forall|j: int| 0 <= j < pending@.len() implies !set![end as int].contains(#[trigger] pending@[j] as int) by {}
            }
            self.patch_jumps(&pending, target, Ghost(c0), Ghost(end_set));
            let ghost c3 = self.code();
            self.emit_bool_constant_to(dst, false);
            let ghost c4 = self.code();
            proof {
                lemma_region_push(c0, c3, set![end as int], InstrModel::LoadConst(dst, ConstModel::Bool(false)));
            }
            let target = self.current_offset();
            match self.patch_jump(end, target) {
                Ok(()) => {},
                Err(err) => {
                    proof {
                        assert(set![end as int].contains(end as int));
                    }
                    return Err(err);
                },
            }
            proof {
                lemma_region_patch(c0, c4, set![end as int], end as int, target);
                assert(set![end as int].remove(end as int) =~= Set::<int>::empty());
                assert(!offsets(pending@).contains(end as int)) by {
                    if offsets(pending@).contains(end as int) {
                        let q = choose|q: int| 0 <= q < pending@.len() && pending@[q] as int == end as int;
                    }
                }
                assert(!offsets(pending@).contains(last_len as int)) by {
                    if offsets(pending@).contains(last_len as int) {
                        let q = choose|q: int| 0 <= q < pending@.len() && pending@[q] as int == last_len as int;
                    }
                }
                assert forall|i: int| 0 <= i < s.code().len() && !offsets(pending@).contains(i) implies #[trigger] self.code()[i]
                    == s.code()[i] by {
                    assert(c3[i] == c2[i]);
                    assert(c4[i] == c3[i]);
                }
                assert forall|j: int| 0 <= j < pending@.len() implies self.code()[#[trigger] pending@[j] as int] == retarget(
                    s.code()[pending@[j] as int],
                    tgt as usize,
                ) by {
                    assert(c4[pending@[j] as int] == c3[pending@[j] as int]);
                    assert(c2[pending@[j] as int] == s.code()[pending@[j] as int]);
                }
                assert forall|i: int| s.code().len() <= i < t.code().len() implies #[trigger] self.code()[i] == t.code()[i] by {
                    assert(!offsets(pending@).contains(i)) by {
                        if offsets(pending@).contains(i) {
                            let q = choose|q: int| 0 <= q < pending@.len() && pending@[q] as int == i;
                        }
                    }
                    assert(c3[i] == c2[i]);
                    assert(c4[i] == c3[i]);
                }
                assert(c3[last_len as int] == c2[last_len as int]);
                assert(c4[last_len as int] == c3[last_len as int]);
                assert(c3[end as int] == c2[end as int]);
                assert(self.code()[last_len as int] == InstrModel::Truthy(dst, value));
                assert(self.code()[last_len + 1int] == InstrModel::Jump((last_len + 3) as usize));
                assert(self.code()[last_len + 2int] == InstrModel::LoadConst(dst, ConstModel::Bool(false)));
                assert(self.code().len() == target);
            }
        } else {
            let target = self.current_offset();
            proof {
                assert(offsets(pending@) + Set::<int>::empty() =~= offsets(pending@));
            }
            self.patch_jumps(&pending, target, Ghost(c0), Ghost(Set::<int>::empty()));
            proof {
                assert(!offsets(pending@).contains(last_len as int)) by {
                    if offsets(pending@).contains(last_len as int) {
                        let q = choose|q: int| 0 <= q < pending@.len() && pending@[q] as int == last_len as int;
                    }
                }
                assert forall|i: int| 0 <= i < s.code().len() && !offsets(pending@).contains(i) implies #[trigger] self.code()[i]
                    == s.code()[i] by {
                    assert(c1[i] == s.code()[i]);
                }
                assert forall|j: int| 0 <= j < pending@.len() implies self.code()[#[trigger] pending@[j] as int] == retarget(
                    s.code()[pending@[j] as int],
                    tgt as usize,
                ) by {
                    assert(c1[pending@[j] as int] == s.code()[pending@[j] as int]);
                }
                assert forall|i: int| s.code().len() <= i < t.code().len() implies #[trigger] self.code()[i] == t.code()[i] by {
                    assert(!offsets(pending@).contains(i)) by {
                        if offsets(pending@).contains(i) {
                            let q = choose|q: int| 0 <= q < pending@.len() && pending@[q] as int == i;
                        }
                    }
                    assert(c1[i] == t.code()[i]);
                }
                assert(self.code()[last_len as int] == InstrModel::Truthy(dst, value));
                assert(self.code().len() == target);
            }
        }
        proof {
            lemma_logical_witness(*old(self), *self, s, t, op, dst, value, ls, ss, ts, vs, pending@, tgt);
            assert(ls == logical_leaves(*lhs, op) + logical_leaves(*rhs, op));
        }
        Ok(dst)
    }
}

} // verus!
