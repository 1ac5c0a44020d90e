use vstd::prelude::*;

use crate::compiler::{CompileError, Compiler, InstrModel, Instruction, Register};

verus! {

/// The operator of an assignment: plain `=` or a compound one.
#[derive(Clone, Copy, Debug, PartialEq, Eq, Structural)]
pub enum HirAssignOp {
    Assign,
    Add,
    Sub,
    Mul,
    Div,
    Rem,
}

/// The instruction that combines the current value with the assigned one
/// for a compound assignment; none for `=`. With `i64_specialized`, `+`,
/// `-` and `*` use the `i64` instructions.
pub open spec fn compound_instr(op: HirAssignOp, dst: Register, lhs: Register, rhs: Register, i64_specialized: bool) -> Option<
    InstrModel,
> {
    match op {
        HirAssignOp::Assign => None,
        HirAssignOp::Add => Some(
            if i64_specialized {
                InstrModel::I64Add(dst, lhs, rhs)
            } else {
                InstrModel::Add(dst, lhs, rhs)
            },
        ),
        HirAssignOp::Sub => Some(
            if i64_specialized {
                InstrModel::I64Sub(dst, lhs, rhs)
            } else {
                InstrModel::Sub(dst, lhs, rhs)
            },
        ),
        HirAssignOp::Mul => Some(
            if i64_specialized {
                InstrModel::I64Mul(dst, lhs, rhs)
            } else {
                InstrModel::Mul(dst, lhs, rhs)
            },
        ),
        HirAssignOp::Div => Some(InstrModel::Div(dst, lhs, rhs)),
        HirAssignOp::Rem => Some(InstrModel::Rem(dst, lhs, rhs)),
    }
}

/// The instruction of a compound assignment operator.
pub fn hir_compound_instruction(
    op: HirAssignOp,
    dst: Register,
    lhs: Register,
    rhs: Register,
    i64_specialized: bool,
) -> (r: Option<Instruction>)
    ensures
        match r {
            Some(i) => compound_instr(op, dst, lhs, rhs, i64_specialized) == Some(i@),
            None => compound_instr(op, dst, lhs, rhs, i64_specialized) is None,
        },
{
    if i64_specialized {
        match op {
            HirAssignOp::Add => return Some(Instruction::I64Add { dst, lhs, rhs }),
            HirAssignOp::Sub => return Some(Instruction::I64Sub { dst, lhs, rhs }),
            HirAssignOp::Mul => return Some(Instruction::I64Mul { dst, lhs, rhs }),
            _ => {},
        }
    }
    match op {
        HirAssignOp::Assign => None,
        HirAssignOp::Add => Some(Instruction::Add { dst, lhs, rhs }),
        HirAssignOp::Sub => Some(Instruction::Sub { dst, lhs, rhs }),
        HirAssignOp::Mul => Some(Instruction::Mul { dst, lhs, rhs }),
        HirAssignOp::Div => Some(Instruction::Div { dst, lhs, rhs }),
        HirAssignOp::Rem => Some(Instruction::Rem { dst, lhs, rhs }),
    }
}

/// How an indexed assignment addresses its collection.
#[derive(Debug, PartialEq, Eq)]
pub enum PreparedIndexKey {
    Dynamic(Register),
    String(String),
}

/// An indexed assignment target whose collection and key are in registers.
#[derive(Debug, PartialEq, Eq)]
pub struct PreparedIndexAssignment {
    pub base: Register,
    pub key: PreparedIndexKey,
}

/// The collection element a nested record assignment writes back into.
#[derive(Debug, PartialEq, Eq)]
pub enum PreparedIndexedRoot {
    Dynamic { collection: Register, index: Register },
    String { collection: Register, key: String },
}

/// A nested field assignment: `records[i]` holds the record whose field
/// `fields[i]` (at `slots[i]` when known) holds `records[i + 1]`.
#[derive(Debug, PartialEq, Eq)]
pub struct PreparedFieldAssignment {
    pub records: Vec<Register>,
    pub fields: Vec<String>,
    pub slots: Vec<Option<usize>>,
    pub indexed_root: Option<PreparedIndexedRoot>,
}

/// Reading the current value of an indexed element.
pub open spec fn index_get(dst: Register, base: Register, key: PreparedIndexKey) -> InstrModel {
    match key {
        PreparedIndexKey::Dynamic(index) => InstrModel::GetIndex(dst, base, index),
        PreparedIndexKey::String(k) => InstrModel::GetStringKeyIndex(dst, base, k@),
    }
}

/// Writing an indexed element.
pub open spec fn index_set(base: Register, key: PreparedIndexKey, src: Register) -> InstrModel {
    match key {
        PreparedIndexKey::Dynamic(index) => InstrModel::SetIndex(base, index, src),
        PreparedIndexKey::String(k) => InstrModel::SetStringKeyIndex(base, k@, src),
    }
}

/// Reading a record field, by slot when known.
pub open spec fn field_get(dst: Register, record: Register, field: Seq<char>, slot: Option<usize>) -> InstrModel {
    match slot {
        Some(s) => InstrModel::GetRecordSlot(dst, record, field, s),
        None => InstrModel::GetRecordField(dst, record, field),
    }
}

/// Writing a record field, by slot when known.
pub open spec fn field_set(record: Register, field: Seq<char>, slot: Option<usize>, src: Register) -> InstrModel {
    match slot {
        Some(s) => InstrModel::SetRecordSlot(record, field, s, src),
        None => InstrModel::SetRecordField(record, field, src),
    }
}

/// The write-backs of a nested field assignment after its leaf write: each
/// enclosing record, innermost first, stores the record nested in it.
pub open spec fn write_backs(t: PreparedFieldAssignment, count: int) -> Seq<InstrModel>
    decreases count,
{
    if count <= 0 {
        Seq::empty()
    } else {
        let index = count - 1;
        seq![field_set(t.records@[index], t.fields@[index]@, t.slots@[index], t.records@[index + 1])] + write_backs(
            t,
            count - 1,
        )
    }
}

/// The write of the outermost record back into its collection, when there is one.
pub open spec fn root_write_back(t: PreparedFieldAssignment) -> Seq<InstrModel> {
    match t.indexed_root {
        Some(PreparedIndexedRoot::Dynamic { collection, index }) => seq![InstrModel::SetIndex(collection, index, t.records@[0])],
        Some(PreparedIndexedRoot::String { collection, key }) => seq![
            InstrModel::SetStringKeyIndex(collection, key@, t.records@[0]),
        ],
        None => Seq::empty(),
    }
}

impl Compiler {
    /// Finishes an indexed assignment: for a compound operator, reads the
    /// element and combines it with `value`; then stores the result, which is
    /// returned.
    pub fn finish_hir_index_assignment(
        &mut self,
        op: HirAssignOp,
        target: PreparedIndexAssignment,
        value: Register,
    ) -> (r: Result<Register, CompileError>)
        ensures
            final(self).facts_view() == old(self).facts_view(),
            final(self).locals() == old(self).locals(),
            final(self).local_shapes() == old(self).local_shapes(),
            old(self).wf() ==> final(self).wf(),
            match r {
                Ok(assigned) => if op == HirAssignOp::Assign {
                    assigned == value && final(self).next_register() == old(self).next_register()
                        && final(self).code() == old(self).code().push(index_set(target.base, target.key, value))
                } else {
                    let current = Register(old(self).next_register() as u32);
                    &&& assigned == Register((old(self).next_register() + 1) as u32)
                    &&& final(self).next_register() == old(self).next_register() + 2
                    &&& final(self).code() == old(self).code().push(index_get(current, target.base, target.key)).push(
                        compound_instr(op, assigned, current, value, false)->0,
                    ).push(index_set(target.base, target.key, assigned))
                },
                Err(e) => e == CompileError::RegisterOverflow && op != HirAssignOp::Assign
                    && old(self).next_register() + 2 > u32::MAX,
            },
    {
        let ghost key_model = target.key;
        let PreparedIndexAssignment { base, key } = target;
        let assigned = if op == HirAssignOp::Assign {
            value
        } else {
            let current = self.alloc_register()?;
            match &key {
                PreparedIndexKey::Dynamic(index) => {
                    self.emit(Instruction::GetIndex { dst: current, base, index: *index });
                },
                PreparedIndexKey::String(k) => {
                    self.emit(Instruction::GetStringKeyIndex { dst: current, base, key: k.clone() });
                },
            }
            let dst = self.alloc_register()?;
            match hir_compound_instruction(op, dst, current, value, false) {
                Some(instruction) => self.emit(instruction),
                None => {},
            }
            dst
        };
        match key {
            PreparedIndexKey::Dynamic(index) => {
                self.emit(Instruction::SetIndex { base, index, src: assigned });
            },
            PreparedIndexKey::String(k) => {
                self.emit(Instruction::SetStringKeyIndex { base, key: k, src: assigned });
            },
        }
        Ok(assigned)
    }

    /// Finishes a nested field assignment: for a compound operator, reads the
    /// leaf field and combines it with `value`; stores the result in the
    /// leaf record; then writes each record back into the one enclosing it,
    /// innermost first, and the outermost into its collection element.
    pub fn finish_hir_field_assignment(
        &mut self,
        op: HirAssignOp,
        target: PreparedFieldAssignment,
        value: Register,
    ) -> (r: Result<Register, CompileError>)
        requires
            target.fields@.len() >= 1,
            target.records@.len() == target.fields@.len(),
            target.slots@.len() == target.fields@.len(),
        ensures
            final(self).facts_view() == old(self).facts_view(),
            final(self).locals() == old(self).locals(),
            final(self).local_shapes() == old(self).local_shapes(),
            old(self).wf() ==> final(self).wf(),
            match r {
                Ok(assigned) => {
                    let n = target.fields@.len() as int;
                    let leaf_record = target.records@[n - 1];
                    let leaf = target.fields@[n - 1]@;
                    let leaf_slot = target.slots@[n - 1];
                    let tail = seq![field_set(leaf_record, leaf, leaf_slot, assigned)] + write_backs(target, n - 1)
                        + root_write_back(target);
                    if op == HirAssignOp::Assign {
                        assigned == value && final(self).next_register() == old(self).next_register()
                            && final(self).code() == old(self).code() + tail
                    } else {
                        let current = Register(old(self).next_register() as u32);
                        &&& assigned == Register((old(self).next_register() + 1) as u32)
                        &&& final(self).next_register() == old(self).next_register() + 2
                        &&& final(self).code() == old(self).code().push(field_get(current, leaf_record, leaf, leaf_slot)).push(
                            compound_instr(op, assigned, current, value, false)->0,
                        ) + tail
                    }
                },
                Err(e) => e == CompileError::RegisterOverflow && op != HirAssignOp::Assign
                    && old(self).next_register() + 2 > u32::MAX,
            },
    {
        let ghost t = target;
        let n = target.fields.len();
        let leaf_record = target.records[n - 1];
        let leaf = target.fields[n - 1].clone();
        let leaf_slot = target.slots[n - 1];
        let assigned = if op == HirAssignOp::Assign {
            value
        } else {
            let current = self.alloc_register()?;
            match leaf_slot {
                Some(slot) => self.emit(Instruction::GetRecordSlot { dst: current, record: leaf_record, field: leaf.clone(), slot }),
                None => self.emit(Instruction::GetRecordField { dst: current, record: leaf_record, field: leaf.clone() }),
            }
            let dst = self.alloc_register()?;
            match hir_compound_instruction(op, dst, current, value, false) {
                Some(instruction) => self.emit(instruction),
                None => {},
            }
            dst
        };
        let ghost before_tail = self.code();
        let ghost registers_used = self.next_register();
        proof {
            if op == HirAssignOp::Assign {
                assert(before_tail == old(self).code());
            } else {
                assert(before_tail == old(self).code().push(field_get(Register(old(self).next_register() as u32), leaf_record, leaf@, leaf_slot)).push(
                    compound_instr(op, assigned, Register(old(self).next_register() as u32), value, false)->0,
                ));
            }
        }
        match leaf_slot {
            Some(slot) => self.emit(Instruction::SetRecordSlot { record: leaf_record, field: leaf, slot, src: assigned }),
            None => self.emit(Instruction::SetRecordField { record: leaf_record, field: leaf, src: assigned }),
        }
        let mut index: usize = n - 1;
        proof {
            lemma_write_backs_len(t, (n - 1) as int);
            assert(write_backs(t, (n - 1) as int).subrange(0, 0) =~= Seq::<InstrModel>::empty());
            assert(self.code() =~= before_tail + seq![field_set(t.records@[n - 1], t.fields@[n - 1]@, t.slots@[n - 1], assigned)]
                + write_backs(t, (n - 1) as int).subrange(0, 0));
        }
        while index > 0
            invariant
                t == target,
                n == target.fields@.len(),
                target.records@.len() == n,
                target.slots@.len() == n,
                index <= n - 1,
                write_backs(t, (n - 1) as int).len() == n - 1,
                self.facts_view() == old(self).facts_view(),
                self.locals() == old(self).locals(),
                self.local_shapes() == old(self).local_shapes(),
                self.next_register() == registers_used,
                old(self).wf() ==> self.wf(),
                self.code() == before_tail + seq![field_set(target.records@[n - 1], target.fields@[n - 1]@, target.slots@[n - 1], assigned)]
                    + write_backs(t, (n - 1) as int).subrange(0, (n - 1 - index) as int),
            decreases index,
        {
            index = index - 1;
            let field = target.fields[index].clone();
            let slot = target.slots[index];
            let ghost c1 = self.code();
            match slot {
                Some(s) => self.emit(
                    Instruction::SetRecordSlot { record: target.records[index], field, slot: s, src: target.records[index + 1] },
                ),
                None => self.emit(Instruction::SetRecordField { record: target.records[index], field, src: target.records[index + 1] }),
            }
            proof {
                lemma_write_backs_index(t, (n - 1) as int, (n - 2 - index) as int);
                assert(write_backs(t, (n - 1) as int).subrange(0, (n - 1 - index) as int) =~= write_backs(t, (n - 1) as int).subrange(0, (n - 2 - index) as int).push(
                    field_set(t.records@[index as int], t.fields@[index as int]@, t.slots@[index as int], t.records@[index + 1]),
                ));
                assert(self.code() =~= before_tail + seq![field_set(target.records@[n - 1], target.fields@[n - 1]@, target.slots@[n - 1], assigned)]
                    + write_backs(t, (n - 1) as int).subrange(0, (n - 1 - index) as int));
            }
        }
        proof {
            assert(write_backs(t, (n - 1) as int).subrange(0, (n - 1) as int) =~= write_backs(t, (n - 1) as int)) by {
                lemma_write_backs_len(t, (n - 1) as int);
            }
        }
        let ghost c2 = self.code();
        match target.indexed_root {
            Some(PreparedIndexedRoot::Dynamic { collection, index }) => {
                self.emit(Instruction::SetIndex { base: collection, index, src: target.records[0] });
            },
            Some(PreparedIndexedRoot::String { collection, key }) => {
                self.emit(Instruction::SetStringKeyIndex { base: collection, key, src: target.records[0] });
            },
            None => {},
        }
        proof {
            assert(self.code() =~= c2 + root_write_back(t));
            let tail = seq![field_set(t.records@[n - 1], t.fields@[n - 1]@, t.slots@[n - 1], assigned)]
                + write_backs(t, (n - 1) as int) + root_write_back(t);
            assert(c2 == before_tail + seq![field_set(t.records@[n - 1], t.fields@[n - 1]@, t.slots@[n - 1], assigned)]
                + write_backs(t, (n - 1) as int));
            assert(self.code() =~= before_tail + tail);
        }
        Ok(assigned)
    }
}

proof fn lemma_write_backs_len(t: PreparedFieldAssignment, count: int)
    requires
        count >= 0,
    ensures
        write_backs(t, count).len() == count,
    decreases count,
{
    if count > 0 {
        lemma_write_backs_len(t, count - 1);
    }
}

/// The write-back at position `k` is the one of record `count - 1 - k`.
proof fn lemma_write_backs_index(t: PreparedFieldAssignment, count: int, k: int)
    requires
        0 <= k < count,
    ensures
        write_backs(t, count).len() == count,
        write_backs(t, count)[k] == field_set(
            t.records@[count - 1 - k],
            t.fields@[count - 1 - k]@,
            t.slots@[count - 1 - k],
            t.records@[count - k],
        ),
    decreases count,
{
    lemma_write_backs_len(t, count);
    if k > 0 {
        lemma_write_backs_index(t, count - 1, k - 1);
    }
}

} // verus!
