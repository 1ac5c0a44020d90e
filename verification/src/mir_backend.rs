use vstd::prelude::*;

use crate::compiler::{
    instrs_model, map_entries_model, ConstModel, Constant, InstrModel, Instruction, Register, TypeIdModel,
    TypeIdRef, VariantIdModel, VariantIdRef,
};
use crate::mir::{table_get, MirFunction, MirFunctionAnalyses, MirFunctionId};

verus! {

/// A constant a MIR operand carries.
#[derive(Clone, Copy, Debug, PartialEq, Eq, Structural)]
pub enum MirImmediate {
    Unit,
    Bool(bool),
    Char(char),
    Int(i64),
}

/// A value a MIR statement reads: a local, a temporary, or a constant.
#[derive(Clone, Copy, Debug, PartialEq, Eq, Structural)]
pub enum MirOperand {
    Local(u32),
    Temp(u32),
    Immediate(MirImmediate),
}

/// A value a MIR statement builds from operands.
#[derive(Clone, Debug, PartialEq, Eq)]
pub enum MirAggregate {
    Tuple(Vec<MirOperand>),
    Array(Vec<MirOperand>),
    MapLiteral(Vec<(String, MirOperand)>),
    SetFromArray { source: MirOperand },
    /// A record of a declared type, its fields named by field id.
    Record { type_id: u64, fields: Vec<(u32, MirOperand)> },
    /// A record of a type known only by name.
    DynamicRecord { record_type: String, fields: Vec<(String, MirOperand)> },
    /// A variant of a declared enum, its fields named by field id.
    Enum { type_id: u64, variant: u32, fields: Vec<(u32, MirOperand)> },
    /// A variant known only by its owner's name and its own.
    DynamicVariant { owner_name: String, variant_name: String, fields: Vec<(String, MirOperand)> },
    /// A closure over a nested function, with the values it captures.
    Closure { function: MirFunctionId, captures: Vec<MirOperand> },
}

/// Where a MIR statement writes: a local or a temporary.
#[derive(Clone, Copy, Debug, PartialEq, Eq, Structural)]
pub enum MirPlace {
    Local(u32),
    Temp(u32),
}

/// A unary operator on values whose type is known.
#[derive(Clone, Copy, Debug, PartialEq, Eq, Structural)]
pub enum MirUnaryOp {
    NotBool,
    Negate,
}

/// A unary operator on values of any type.
#[derive(Clone, Copy, Debug, PartialEq, Eq, Structural)]
pub enum MirDynamicUnaryOp {
    Negate,
    Not,
}

/// A binary operator on values of any type.
#[derive(Clone, Copy, Debug, PartialEq, Eq, Structural)]
pub enum MirDynamicBinaryOp {
    Add,
    Subtract,
    Multiply,
    Divide,
    Remainder,
    Equal,
    NotEqual,
    Less,
    LessEqual,
    Greater,
    GreaterEqual,
}

/// Whether two values are, or are not, the same object.
#[derive(Clone, Copy, Debug, PartialEq, Eq, Structural)]
pub enum MirIdentityOp {
    Equal,
    NotEqual,
}

/// What a MIR statement computes.
#[derive(Clone, Debug, PartialEq, Eq)]
pub enum MirStatementKind {
    Unary { operation: MirUnaryOp, operand: MirOperand },
    DynamicUnary { operation: MirDynamicUnaryOp, operand: MirOperand },
    DynamicBinary { operation: MirDynamicBinaryOp, left: MirOperand, right: MirOperand },
    IdentityCompare { operation: MirIdentityOp, left: MirOperand, right: MirOperand },
    TupleField { tuple: MirOperand, index: u32 },
    Allocate(MirAggregate),
    MakeRange { start: MirOperand, end: MirOperand, inclusive: bool },
}

/// A MIR statement as the backend lowers it: where its result goes, when
/// it has one, and what it computes.
#[derive(Clone, Debug, PartialEq, Eq)]
pub struct MirStatementAction {
    pub destination: Option<MirPlace>,
    pub kind: MirStatementKind,
}

/// What the program declares that aggregates name: each type's runtime
/// name, each field's name and each variant's name, by id.
#[derive(Clone, Debug, PartialEq, Eq)]
pub struct MirTargets {
    pub types: Vec<(u64, String)>,
    pub fields: Vec<(u32, String)>,
    pub variants: Vec<(u32, String)>,
}

/// Why a MIR function cannot be lowered to bytecode.
#[derive(Clone, Copy, Debug, PartialEq, Eq)]
pub enum MirBackendError {
    MissingMirFunction(MirFunctionId),
    MissingDestination,
    MissingTarget(&'static str),
    RegisterOverflow,
}

/// The name of the first entry of a table with a 64-bit key.
pub open spec fn name_of64(entries: Seq<(u64, String)>, key: u64) -> Option<Seq<char>>
    decreases entries.len(),
{
    if entries.len() == 0 {
        None
    } else if entries[0].0 == key {
        Some(entries[0].1@)
    } else {
        name_of64(entries.drop_first(), key)
    }
}

/// The name of the first entry of a table with the given key.
pub open spec fn name_of(entries: Seq<(u32, String)>, key: u32) -> Option<Seq<char>>
    decreases entries.len(),
{
    if entries.len() == 0 {
        None
    } else if entries[0].0 == key {
        Some(entries[0].1@)
    } else {
        name_of(entries.drop_first(), key)
    }
}

/// The constant an immediate loads.
pub open spec fn immediate_const(v: MirImmediate) -> ConstModel {
    match v {
        MirImmediate::Unit => ConstModel::Unit,
        MirImmediate::Bool(b) => ConstModel::Bool(b),
        MirImmediate::Char(c) => ConstModel::Char(c),
        MirImmediate::Int(i) => ConstModel::Int(i),
    }
}

/// How many of the operands are constants.
pub open spec fn immediates_in(ops: Seq<MirOperand>) -> nat
    decreases ops.len(),
{
    if ops.len() == 0 {
        0
    } else {
        immediates_in(ops.drop_last()) + if ops.last() is Immediate {
            1nat
        } else {
            0nat
        }
    }
}

/// The register an operand is read from: a local's or temporary's own
/// register, or the fresh register `next` a constant is loaded into.
pub open spec fn operand_register(
    locals: Seq<(u32, Register)>,
    temps: Seq<(u32, Register)>,
    op: MirOperand,
    next: nat,
) -> Register {
    match op {
        MirOperand::Local(l) => table_get(locals, l)->0,
        MirOperand::Temp(t) => table_get(temps, t)->0,
        MirOperand::Immediate(_) => Register(next as u32),
    }
}

/// The registers operands are read from, in order, constants being loaded
/// into fresh registers from `next` on.
pub open spec fn operand_registers(
    locals: Seq<(u32, Register)>,
    temps: Seq<(u32, Register)>,
    ops: Seq<MirOperand>,
    next: nat,
) -> Seq<Register>
    decreases ops.len(),
{
    if ops.len() == 0 {
        Seq::empty()
    } else {
        let front = ops.drop_last();
        operand_registers(locals, temps, front, next).push(
            operand_register(locals, temps, ops.last(), next + immediates_in(front)),
        )
    }
}

/// The loads of the operands' constants, in order, into fresh registers
/// from `next` on.
pub open spec fn immediate_loads(ops: Seq<MirOperand>, next: nat) -> Seq<InstrModel>
    decreases ops.len(),
{
    if ops.len() == 0 {
        Seq::empty()
    } else {
        let front = ops.drop_last();
        immediate_loads(front, next) + match ops.last() {
            MirOperand::Immediate(v) => seq![
                InstrModel::LoadConst(Register((next + immediates_in(front)) as u32), immediate_const(v)),
            ],
            _ => Seq::empty(),
        }
    }
}

/// The operands of a list of named values.
pub open spec fn named_operands<K>(entries: Seq<(K, MirOperand)>) -> Seq<MirOperand> {
    Seq::new(entries.len(), |i: int| entries[i].1)
}

/// Names paired with registers.
pub open spec fn named_registers(names: Seq<Seq<char>>, regs: Seq<Register>) -> Seq<(Seq<char>, Register)> {
    Seq::new(names.len(), |i: int| (names[i], regs[i]))
}

/// The names of string-named values.
pub open spec fn given_names(entries: Seq<(String, MirOperand)>) -> Seq<Seq<char>> {
    Seq::new(entries.len(), |i: int| entries[i].0@)
}

/// Every field id of the list is declared.
pub open spec fn fields_declared(targets: MirTargets, entries: Seq<(u32, MirOperand)>) -> bool {
    forall|i: int| 0 <= i < entries.len() ==> (#[trigger] name_of(targets.fields@, entries[i].0)) is Some
}

/// The declared names of the listed field ids.
pub open spec fn declared_names(targets: MirTargets, entries: Seq<(u32, MirOperand)>) -> Seq<Seq<char>> {
    Seq::new(entries.len(), |i: int| name_of(targets.fields@, entries[i].0)->0)
}

/// Lowers the MIR of one function to bytecode: the registers of its locals
/// and temporaries, the closures' functions lowered so far, and the code.
pub struct FunctionBackend {
    targets: MirTargets,
    locals: Vec<(u32, Register)>,
    temps: Vec<(u32, Register)>,
    nested: Vec<(MirFunctionId, u32)>,
    code: Vec<Instruction>,
    next_register: u16,
}

impl FunctionBackend {
    pub closed spec fn targets_view(&self) -> MirTargets {
        self.targets
    }

    /// Each local's register, by local id.
    pub closed spec fn locals_view(&self) -> Seq<(u32, Register)> {
        self.locals@
    }

    /// Each temporary's register, by temporary id.
    pub closed spec fn temps_view(&self) -> Seq<(u32, Register)> {
        self.temps@
    }

    /// The index of each nested function lowered so far, by function id.
    pub closed spec fn nested_view(&self) -> Seq<(MirFunctionId, u32)> {
        self.nested@
    }

    /// The code emitted so far.
    pub closed spec fn code(&self) -> Seq<InstrModel> {
        instrs_model(self.code@)
    }

    /// The number of the next register to hand out.
    pub closed spec fn next_register(&self) -> nat {
        self.next_register as nat
    }

    /// The register an operand is read from, given the next free register.
    pub open spec fn operand_register_of(&self, op: MirOperand) -> Register {
        operand_register(self.locals_view(), self.temps_view(), op, self.next_register())
    }

    /// Every local and temporary the operand reads has a register.
    pub open spec fn operand_mapped(&self, op: MirOperand) -> bool {
        match op {
            MirOperand::Local(l) => table_get(self.locals_view(), l) is Some,
            MirOperand::Temp(t) => table_get(self.temps_view(), t) is Some,
            MirOperand::Immediate(_) => true,
        }
    }

    /// Every operand of the list is mapped.
    pub open spec fn operands_mapped(&self, ops: Seq<MirOperand>) -> bool {
        forall|i: int| 0 <= i < ops.len() ==> self.operand_mapped(#[trigger] ops[i])
    }

    /// Every operand of the aggregate is mapped.
    pub open spec fn aggregate_mapped(&self, a: MirAggregate) -> bool {
        self.operands_mapped(aggregate_operands(a))
    }

    /// Gives each local, then each temporary, the next register, in order;
    /// fails when the registers run out or the function has no analyses.
    pub fn new(
        targets: MirTargets,
        analyses: &Vec<(MirFunctionId, MirFunctionAnalyses)>,
        function_id: MirFunctionId,
        function: &MirFunction,
    ) -> (r: Result<Self, MirBackendError>)
        ensures
            match r {
                Ok(b) => {
                    let nl = function.locals@.len();
                    let nt = function.temps@.len();
                    &&& nl + nt <= u16::MAX
                    &&& table_get(analyses@, function_id) is Some
                    &&& b.targets_view() == targets
                    &&& b.locals_view() == Seq::new(nl, |i: int| (function.locals@[i], Register(i as u32)))
                    &&& b.temps_view() == Seq::new(nt, |i: int| (function.temps@[i], Register((nl + i) as u32)))
                    &&& b.nested_view() == Seq::<(MirFunctionId, u32)>::empty()
                    &&& b.code() == Seq::<InstrModel>::empty()
                    &&& b.next_register() == nl + nt
                    &&& forall|i: int, j: int|
                        0 <= i < j < nl + nt ==> #[trigger] value_register(b, i) != #[trigger] value_register(b, j)
                },
                Err(e) => {
                    &&& (e == MirBackendError::RegisterOverflow <==> function.locals@.len() + function.temps@.len()
                        > u16::MAX)
                    &&& (e == MirBackendError::MissingMirFunction(function_id) <==> function.locals@.len()
                        + function.temps@.len() <= u16::MAX && table_get(analyses@, function_id) is None)
                },
            },
    {
        let mut next_register: u16 = 0;
        let mut locals: Vec<(u32, Register)> = Vec::new();
        let mut i: usize = 0;
        while i < function.locals.len()
            invariant
                i <= function.locals@.len(),
                next_register == i,
                locals@ == Seq::new(i as nat, |k: int| (function.locals@[k], Register(k as u32))),
            decreases function.locals.len() - i,
        {
            locals.push((function.locals[i], Register(next_register as u32)));
            if next_register == u16::MAX {
                return Err(MirBackendError::RegisterOverflow);
            }
            next_register = next_register + 1;
            i = i + 1;
            proof {
                assert(locals@ =~= Seq::new(i as nat, |k: int| (function.locals@[k], Register(k as u32))));
            }
        }
        let nl = next_register;
        let mut temps: Vec<(u32, Register)> = Vec::new();
        let mut j: usize = 0;
        while j < function.temps.len()
            invariant
                nl == function.locals@.len(),
                j <= function.temps@.len(),
                next_register == nl + j,
                temps@ == Seq::new(j as nat, |k: int| (function.temps@[k], Register((nl + k) as u32))),
            decreases function.temps.len() - j,
        {
            temps.push((function.temps[j], Register(next_register as u32)));
            if next_register == u16::MAX {
                return Err(MirBackendError::RegisterOverflow);
            }
            next_register = next_register + 1;
            j = j + 1;
            proof {
                assert(temps@ =~= Seq::new(j as nat, |k: int| (function.temps@[k], Register((nl + k) as u32))));
            }
        }
        if !has_analyses(analyses, function_id) {
            return Err(MirBackendError::MissingMirFunction(function_id));
        }
        let b = FunctionBackend { targets, locals, temps, nested: Vec::new(), code: Vec::new(), next_register };
        proof {
            assert(b.code() =~= Seq::<InstrModel>::empty());
        }
        Ok(b)
    }

    /// Records the index a nested function was given, for the closures built
    /// over it.
    pub fn record_nested_function(&mut self, function: MirFunctionId, index: u32)
        ensures
            final(self).nested_view() == old(self).nested_view().push((function, index)),
            final(self).targets_view() == old(self).targets_view(),
            final(self).locals_view() == old(self).locals_view(),
            final(self).temps_view() == old(self).temps_view(),
            final(self).code() == old(self).code(),
            final(self).next_register() == old(self).next_register(),
    {
        self.nested.push((function, index));
    }

    /// The code emitted so far.
    pub fn code_instructions(&self) -> (r: &Vec<Instruction>)
        ensures
            instrs_model(r@) == self.code(),
    {
        &self.code
    }

    /// A fresh register; fails on the last register number.
    fn alloc_register(&mut self) -> (r: Result<Register, MirBackendError>)
        ensures
            final(self).targets_view() == old(self).targets_view(),
            final(self).locals_view() == old(self).locals_view(),
            final(self).temps_view() == old(self).temps_view(),
            final(self).nested_view() == old(self).nested_view(),
            final(self).code() == old(self).code(),
            match r {
                Ok(reg) => old(self).next_register() < u16::MAX && reg == Register(old(self).next_register() as u32)
                    && final(self).next_register() == old(self).next_register() + 1,
                Err(e) => e == MirBackendError::RegisterOverflow && old(self).next_register() == u16::MAX,
            },
    {
        if self.next_register == u16::MAX {
            return Err(MirBackendError::RegisterOverflow);
        }
        let register = Register(self.next_register as u32);
        self.next_register = self.next_register + 1;
        Ok(register)
    }

    fn emit(&mut self, instruction: Instruction)
        ensures
            final(self).targets_view() == old(self).targets_view(),
            final(self).locals_view() == old(self).locals_view(),
            final(self).temps_view() == old(self).temps_view(),
            final(self).nested_view() == old(self).nested_view(),
            final(self).code() == old(self).code().push(instruction@),
            final(self).next_register() == old(self).next_register(),
    {
        self.code.push(instruction);
        proof {
            assert(instrs_model(self.code@) =~= instrs_model(old(self).code@).push(instruction@));
        }
    }

    /// The register an operand is read from: a local's or temporary's own,
    /// or a fresh one a constant is loaded into.
    pub fn operand(&mut self, operand: &MirOperand) -> (r: Result<Register, MirBackendError>)
        requires
            old(self).operand_mapped(*operand),
        ensures
            final(self).targets_view() == old(self).targets_view(),
            final(self).locals_view() == old(self).locals_view(),
            final(self).temps_view() == old(self).temps_view(),
            final(self).nested_view() == old(self).nested_view(),
            match r {
                Ok(reg) => {
                    &&& reg == old(self).operand_register_of(*operand)
                    &&& final(self).code() == old(self).code() + one_loads(*operand, old(self).next_register())
                    &&& final(self).next_register() == old(self).next_register() + if operand is Immediate {
                        1nat
                    } else {
                        0nat
                    }
                },
                Err(e) => e == MirBackendError::RegisterOverflow && operand is Immediate && old(self).next_register()
                    == u16::MAX,
            },
            operand is Immediate && old(self).next_register() < u16::MAX ==> r is Ok,
    {
        match operand {
            MirOperand::Local(local) => {
                let r = lookup_register(&self.locals, *local);
                proof {
                    assert(old(self).code() + one_loads(*operand, old(self).next_register()) =~= old(self).code());
                }
                Ok(r.unwrap())
            },
            MirOperand::Temp(temp) => {
                let r = lookup_register(&self.temps, *temp);
                proof {
                    assert(old(self).code() + one_loads(*operand, old(self).next_register()) =~= old(self).code());
                }
                Ok(r.unwrap())
            },
            MirOperand::Immediate(value) => {
                let register = self.alloc_register()?;
                let constant = match value {
                    MirImmediate::Unit => Constant::Unit,
                    MirImmediate::Bool(b) => Constant::Bool(*b),
                    MirImmediate::Char(c) => Constant::Char(*c),
                    MirImmediate::Int(i) => Constant::Int(*i),
                };
                self.emit(Instruction::LoadConst { dst: register, constant });
                proof {
                    assert(old(self).code() + one_loads(*operand, old(self).next_register()) =~= self.code());
                }
                Ok(register)
            },
        }
    }

    /// The registers of operands, in order.
    pub fn operands(&mut self, operands: &Vec<MirOperand>) -> (r: Result<Vec<Register>, MirBackendError>)
        requires
            old(self).operands_mapped(operands@),
        ensures
            final(self).targets_view() == old(self).targets_view(),
            final(self).locals_view() == old(self).locals_view(),
            final(self).temps_view() == old(self).temps_view(),
            final(self).nested_view() == old(self).nested_view(),
            match r {
                Ok(regs) => {
                    &&& old(self).next_register() + immediates_in(operands@) <= u16::MAX
                    &&& regs@ == operand_registers(
                        old(self).locals_view(),
                        old(self).temps_view(),
                        operands@,
                        old(self).next_register(),
                    )
                    &&& final(self).code() == old(self).code() + immediate_loads(operands@, old(self).next_register())
                    &&& final(self).next_register() == old(self).next_register() + immediates_in(operands@)
                },
                Err(e) => e == MirBackendError::RegisterOverflow && old(self).next_register() + immediates_in(
                    operands@,
                ) > u16::MAX,
            },
    {
        let mut regs: Vec<Register> = Vec::new();
        let mut i: usize = 0;
        while i < operands.len()
            invariant
                i <= operands@.len(),
                self.targets_view() == old(self).targets_view(),
                self.locals_view() == old(self).locals_view(),
                self.temps_view() == old(self).temps_view(),
                self.nested_view() == old(self).nested_view(),
                old(self).operands_mapped(operands@),
                old(self).next_register() + immediates_in(operands@.subrange(0, i as int)) <= u16::MAX,
                regs@ == operand_registers(
                    old(self).locals_view(),
                    old(self).temps_view(),
                    operands@.subrange(0, i as int),
                    old(self).next_register(),
                ),
                self.code() == old(self).code() + immediate_loads(operands@.subrange(0, i as int), old(self).next_register()),
                self.next_register() == old(self).next_register() + immediates_in(operands@.subrange(0, i as int)),
            decreases operands.len() - i,
        {
            let ghost front = operands@.subrange(0, i as int);
            let ghost next = operands@.subrange(0, i + 1);
            proof {
                assert(next.drop_last() =~= front);
                assert(next.last() == operands@[i as int]);
                assert(old(self).operand_mapped(operands@[i as int]));
                lemma_immediates_le(operands@, i as int + 1);
            }
            let ghost before = self.code();
            let reg = match self.operand(&operands[i]) {
                Ok(reg) => reg,
                Err(e) => {
                    proof {
                        lemma_immediates_le(operands@, operands@.len() as int);
                        assert(operands@.subrange(0, operands@.len() as int) =~= operands@);
                    }
                    return Err(e);
                },
            };
            regs.push(reg);
            i = i + 1;
            proof {
                assert(immediate_loads(next, old(self).next_register()) == immediate_loads(
                    front,
                    old(self).next_register(),
                ) + one_loads(operands@[i - 1], old(self).next_register() + immediates_in(front)));
                assert(self.code() =~= old(self).code() + immediate_loads(next, old(self).next_register()));
            }
        }
        proof {
            assert(operands@.subrange(0, operands@.len() as int) =~= operands@);
        }
        Ok(regs)
    }

    /// The registers of fields named by field id, in order, each with the
    /// field's declared name; fails on an undeclared field or when the
    /// registers run out.
    fn declared_fields(&mut self, fields: &Vec<(u32, MirOperand)>) -> (r: Result<Vec<(String, Register)>, MirBackendError>)
        requires
            old(self).operands_mapped(named_operands(fields@)),
        ensures
            final(self).targets_view() == old(self).targets_view(),
            final(self).locals_view() == old(self).locals_view(),
            final(self).temps_view() == old(self).temps_view(),
            final(self).nested_view() == old(self).nested_view(),
            match r {
                Ok(v) => {
                    let ops = named_operands(fields@);
                    &&& fields_declared(old(self).targets_view(), fields@)
                    &&& old(self).next_register() + immediates_in(ops) <= u16::MAX
                    &&& entries_view(v@) == named_registers(
                        declared_names(old(self).targets_view(), fields@),
                        operand_registers(old(self).locals_view(), old(self).temps_view(), ops, old(self).next_register()),
                    )
                    &&& final(self).code() == old(self).code() + immediate_loads(ops, old(self).next_register())
                    &&& final(self).next_register() == old(self).next_register() + immediates_in(ops)
                },
                Err(e) => e == MirBackendError::MissingTarget("field") && !fields_declared(old(self).targets_view(), fields@)
                    || e == MirBackendError::RegisterOverflow && old(self).next_register() + immediates_in(
                    named_operands(fields@),
                ) > u16::MAX,
            },
    {
        let ghost ops = named_operands(fields@);
        let ghost n0 = old(self).next_register();
        let ghost regs_all = operand_registers(old(self).locals_view(), old(self).temps_view(), ops, n0);
        let mut out: Vec<(String, Register)> = Vec::new();
        let mut i: usize = 0;
        while i < fields.len()
            invariant
                i <= fields@.len(),
                ops == named_operands(fields@),
                ops.len() == fields@.len(),
                n0 == old(self).next_register(),
                self.targets_view() == old(self).targets_view(),
                self.locals_view() == old(self).locals_view(),
                self.temps_view() == old(self).temps_view(),
                self.nested_view() == old(self).nested_view(),
                old(self).operands_mapped(ops),
                forall|k: int| 0 <= k < i ==> (#[trigger] name_of(old(self).targets_view().fields@, fields@[k].0)) is Some,
                n0 + immediates_in(ops.subrange(0, i as int)) <= u16::MAX,
                out@.len() == i,
                forall|k: int|
                    0 <= k < i ==> (#[trigger] out@[k]).0@ == name_of(old(self).targets_view().fields@, fields@[k].0)->0,
                Seq::new(i as nat, |k: int| out@[k].1) == operand_registers(
                    old(self).locals_view(),
                    old(self).temps_view(),
                    ops.subrange(0, i as int),
                    n0,
                ),
                self.code() == old(self).code() + immediate_loads(ops.subrange(0, i as int), n0),
                self.next_register() == n0 + immediates_in(ops.subrange(0, i as int)),
            decreases fields.len() - i,
        {
            let ghost front = ops.subrange(0, i as int);
            let ghost next = ops.subrange(0, i + 1);
            proof {
                assert(next.drop_last() =~= front);
                assert(next.last() == ops[i as int]);
                assert(old(self).operand_mapped(ops[i as int]));
                lemma_immediates_le(ops, i as int + 1);
                reveal_strlit("field");
            }
            let name = match target_name(&self.targets.fields, fields[i].0) {
                Some(name) => name,
                None => {
                    proof {
                        assert(name_of(old(self).targets_view().fields@, fields@[i as int].0) is None);
                    }
                    return Err(MirBackendError::MissingTarget("field"));
                },
            };
            let ghost before = self.code();
            let reg = match self.operand(&fields[i].1) {
                Ok(reg) => reg,
                Err(e) => {
                    proof {
                        lemma_immediates_le(ops, ops.len() as int);
                        assert(ops.subrange(0, ops.len() as int) =~= ops);
                    }
                    return Err(e);
                },
            };
            let ghost prev_regs = Seq::new(i as nat, |k: int| out@[k].1);
            out.push((name, reg));
            i = i + 1;
            proof {
                assert(immediate_loads(next, n0) == immediate_loads(front, n0) + one_loads(
                    ops[i - 1],
                    n0 + immediates_in(front),
                ));
                assert(self.code() =~= old(self).code() + immediate_loads(next, n0));
                assert(Seq::new(i as nat, |k: int| out@[k].1) =~= prev_regs.push(reg));
            }
        }
        proof {
            assert(ops.subrange(0, ops.len() as int) =~= ops);
            assert(entries_view(out@) =~= named_registers(declared_names(old(self).targets_view(), fields@), regs_all));
        }
        Ok(out)
    }

    /// The registers of fields given by name, in order, each with its name.
    fn given_fields(&mut self, fields: &Vec<(String, MirOperand)>) -> (r: Result<Vec<(String, Register)>, MirBackendError>)
        requires
            old(self).operands_mapped(named_operands(fields@)),
        ensures
            final(self).targets_view() == old(self).targets_view(),
            final(self).locals_view() == old(self).locals_view(),
            final(self).temps_view() == old(self).temps_view(),
            final(self).nested_view() == old(self).nested_view(),
            match r {
                Ok(v) => {
                    let ops = named_operands(fields@);
                    &&& old(self).next_register() + immediates_in(ops) <= u16::MAX
                    &&& entries_view(v@) == named_registers(
                        given_names(fields@),
                        operand_registers(old(self).locals_view(), old(self).temps_view(), ops, old(self).next_register()),
                    )
                    &&& final(self).code() == old(self).code() + immediate_loads(ops, old(self).next_register())
                    &&& final(self).next_register() == old(self).next_register() + immediates_in(ops)
                },
                Err(e) => e == MirBackendError::RegisterOverflow && old(self).next_register() + immediates_in(
                    named_operands(fields@),
                ) > u16::MAX,
            },
    {
        let mut ops: Vec<MirOperand> = Vec::new();
        let mut i: usize = 0;
        while i < fields.len()
            invariant
                i <= fields@.len(),
                ops@ == named_operands(fields@).subrange(0, i as int),
            decreases fields.len() - i,
        {
            ops.push(fields[i].1);
            i = i + 1;
            proof {
                assert(ops@ =~= named_operands(fields@).subrange(0, i as int));
            }
        }
        proof {
            assert(ops@ =~= named_operands(fields@));
        }
        let regs = self.operands(&ops)?;
        proof {
            lemma_operand_registers_len(old(self).locals_view(), old(self).temps_view(), ops@, old(self).next_register());
        }
        let mut out: Vec<(String, Register)> = Vec::new();
        let mut j: usize = 0;
        while j < fields.len()
            invariant
                j <= fields@.len(),
                regs@.len() == fields@.len(),
                out@.len() == j,
                forall|k: int| 0 <= k < j ==> (#[trigger] out@[k]).0@ == fields@[k].0@ && out@[k].1 == regs@[k],
            decreases fields.len() - j,
        {
            out.push((fields[j].0.clone(), regs[j]));
            j = j + 1;
        }
        proof {
            lemma_operand_registers_len(old(self).locals_view(), old(self).temps_view(), ops@, old(self).next_register());
            assert(entries_view(out@) =~= named_registers(given_names(fields@), regs@));
        }
        Ok(out)
    }

    /// Lowers a statement: reads its operands in order (loading each
    /// constant into a fresh register), then emits the instruction that
    /// computes its result into its destination's register.
    pub fn statement(&mut self, statement: &MirStatementAction) -> (r: Result<(), MirBackendError>)
        requires
            statement.destination matches Some(p) ==> place_mapped(old(self), p),
            old(self).operands_mapped(statement_operands(statement.kind)),
        ensures
            final(self).targets_view() == old(self).targets_view(),
            final(self).locals_view() == old(self).locals_view(),
            final(self).temps_view() == old(self).temps_view(),
            final(self).nested_view() == old(self).nested_view(),
            r is Ok <==> {
                &&& statement.destination is Some
                &&& (statement.kind matches MirStatementKind::Allocate(a) ==> aggregate_resolves(
                    old(self).targets_view(),
                    old(self).nested_view(),
                    a,
                ))
                &&& old(self).next_register() + immediates_in(statement_operands(statement.kind)) <= u16::MAX
            },
            r is Ok ==> {
                &&& final(self).code() == (old(self).code() + immediate_loads(
                    statement_operands(statement.kind),
                    old(self).next_register(),
                )).push(statement_instr(old(self), place_register(old(self), statement.destination->0), statement.kind))
                &&& final(self).next_register() == old(self).next_register() + immediates_in(
                    statement_operands(statement.kind),
                )
            },
            r matches Err(e) ==> match e {
                MirBackendError::MissingDestination => statement.destination is None,
                MirBackendError::RegisterOverflow => old(self).next_register() + immediates_in(
                    statement_operands(statement.kind),
                ) > u16::MAX,
                _ => statement.kind matches MirStatementKind::Allocate(a) && aggregate_error(old(self), a, e),
            },
    {
        let dst = match statement.destination {
            Some(place) => Some(self.place(place)),
            None => None,
        };
        let ghost ops = statement_operands(statement.kind);
        let ghost n0 = old(self).next_register();
        let instruction = match &statement.kind {
            MirStatementKind::Allocate(aggregate) => {
                let dst = match dst {
                    Some(d) => d,
                    None => return Err(MirBackendError::MissingDestination),
                };
                return self.allocate(dst, aggregate);
            },
            MirStatementKind::Unary { operation, operand } => {
                let src = self.operand(operand)?;
                proof {
                    lemma_single_operand(*operand, n0, old(self).locals_view(), old(self).temps_view());
                }
                let dst = match dst {
                    Some(d) => d,
                    None => return Err(MirBackendError::MissingDestination),
                };
                match operation {
                    MirUnaryOp::NotBool => Instruction::Not { dst, src },
                    MirUnaryOp::Negate => Instruction::Negate { dst, src },
                }
            },
            MirStatementKind::DynamicUnary { operation, operand } => {
                let src = self.operand(operand)?;
                proof {
                    lemma_single_operand(*operand, n0, old(self).locals_view(), old(self).temps_view());
                }
                let dst = match dst {
                    Some(d) => d,
                    None => return Err(MirBackendError::MissingDestination),
                };
                match operation {
                    MirDynamicUnaryOp::Negate => Instruction::Negate { dst, src },
                    MirDynamicUnaryOp::Not => Instruction::Not { dst, src },
                }
            },
            MirStatementKind::TupleField { tuple, index } => {
                let value = self.operand(tuple)?;
                proof {
                    lemma_single_operand(*tuple, n0, old(self).locals_view(), old(self).temps_view());
                }
                let dst = match dst {
                    Some(d) => d,
                    None => return Err(MirBackendError::MissingDestination),
                };
                Instruction::GetTupleField { dst, value, index: *index as usize }
            },
            MirStatementKind::DynamicBinary { operation, left, right } => {
                let (lhs, rhs) = self.operand_pair(left, right)?;
                let dst = match dst {
                    Some(d) => d,
                    None => return Err(MirBackendError::MissingDestination),
                };
                match operation {
                    MirDynamicBinaryOp::Add => Instruction::Add { dst, lhs, rhs },
                    MirDynamicBinaryOp::Subtract => Instruction::Sub { dst, lhs, rhs },
                    MirDynamicBinaryOp::Multiply => Instruction::Mul { dst, lhs, rhs },
                    MirDynamicBinaryOp::Divide => Instruction::Div { dst, lhs, rhs },
                    MirDynamicBinaryOp::Remainder => Instruction::Rem { dst, lhs, rhs },
                    MirDynamicBinaryOp::Equal => Instruction::Equal { dst, lhs, rhs },
                    MirDynamicBinaryOp::NotEqual => Instruction::NotEqual { dst, lhs, rhs },
                    MirDynamicBinaryOp::Less => Instruction::Less { dst, lhs, rhs },
                    MirDynamicBinaryOp::LessEqual => Instruction::LessEqual { dst, lhs, rhs },
                    MirDynamicBinaryOp::Greater => Instruction::Greater { dst, lhs, rhs },
                    MirDynamicBinaryOp::GreaterEqual => Instruction::GreaterEqual { dst, lhs, rhs },
                }
            },
            MirStatementKind::IdentityCompare { operation, left, right } => {
                let (lhs, rhs) = self.operand_pair(left, right)?;
                let dst = match dst {
                    Some(d) => d,
                    None => return Err(MirBackendError::MissingDestination),
                };
                match operation {
                    MirIdentityOp::Equal => Instruction::IdentityEqual { dst, lhs, rhs },
                    MirIdentityOp::NotEqual => Instruction::IdentityNotEqual { dst, lhs, rhs },
                }
            },
            MirStatementKind::MakeRange { start, end, inclusive } => {
                let (start, end) = self.operand_pair(start, end)?;
                let dst = match dst {
                    Some(d) => d,
                    None => return Err(MirBackendError::MissingDestination),
                };
                Instruction::MakeRange { dst, start, end, inclusive: *inclusive }
            },
        };
        self.emit(instruction);
        Ok(())
    }

    /// The registers of two operands, read in order.
    fn operand_pair(&mut self, left: &MirOperand, right: &MirOperand) -> (r: Result<(Register, Register), MirBackendError>)
        requires
            old(self).operand_mapped(*left),
            old(self).operand_mapped(*right),
        ensures
            final(self).targets_view() == old(self).targets_view(),
            final(self).locals_view() == old(self).locals_view(),
            final(self).temps_view() == old(self).temps_view(),
            final(self).nested_view() == old(self).nested_view(),
            match r {
                Ok((a, b)) => {
                    let ops = seq![*left, *right];
                    let regs = operand_registers(old(self).locals_view(), old(self).temps_view(), ops, old(self).next_register());
                    &&& a == regs[0] && b == regs[1]
                    &&& old(self).next_register() + immediates_in(ops) <= u16::MAX
                    &&& final(self).code() == old(self).code() + immediate_loads(ops, old(self).next_register())
                    &&& final(self).next_register() == old(self).next_register() + immediates_in(ops)
                },
                Err(e) => e == MirBackendError::RegisterOverflow && old(self).next_register() + immediates_in(
                    seq![*left, *right],
                ) > u16::MAX,
            },
    {
        let ghost n0 = old(self).next_register();
        let ghost ops = seq![*left, *right];
        proof {
            lemma_single_operand(*left, n0, old(self).locals_view(), old(self).temps_view());
            assert(ops.drop_last() =~= seq![*left]);
        }
        let a = match self.operand(left) {
            Ok(a) => a,
            Err(e) => {
                return Err(e);
            },
        };
        let ghost n1 = self.next_register();
        let b = match self.operand(right) {
            Ok(b) => b,
            Err(e) => {
                return Err(e);
            },
        };
        proof {
            assert(immediate_loads(ops, n0) =~= one_loads(*left, n0) + one_loads(*right, n1));
        }
        Ok((a, b))
    }

    fn place(&self, place: MirPlace) -> (r: Register)
        requires
            place_mapped(self, place),
        ensures
            r == place_register(self, place),
    {
        match place {
            MirPlace::Local(l) => lookup_register(&self.locals, l).unwrap(),
            MirPlace::Temp(t) => lookup_register(&self.temps, t).unwrap(),
        }
    }

    /// Builds an aggregate into `dst`: reads its operands in order (loading
    /// each constant into a fresh register), resolves the declared names it
    /// uses, and emits the instruction that builds it.
    pub fn allocate(&mut self, dst: Register, aggregate: &MirAggregate) -> (r: Result<(), MirBackendError>)
        requires
            old(self).aggregate_mapped(*aggregate),
        ensures
            final(self).targets_view() == old(self).targets_view(),
            final(self).locals_view() == old(self).locals_view(),
            final(self).temps_view() == old(self).temps_view(),
            final(self).nested_view() == old(self).nested_view(),
            r is Ok <==> aggregate_resolves(old(self).targets_view(), old(self).nested_view(), *aggregate)
                && old(self).next_register() + immediates_in(aggregate_operands(*aggregate)) <= u16::MAX,
            r is Ok ==> {
                &&& final(self).code() == (old(self).code() + immediate_loads(
                    aggregate_operands(*aggregate),
                    old(self).next_register(),
                )).push(aggregate_instr(old(self), dst, *aggregate))
                &&& final(self).next_register() == old(self).next_register() + immediates_in(
                    aggregate_operands(*aggregate),
                )
            },
            r matches Err(e) ==> aggregate_error(old(self), *aggregate, e),
    {
        proof {
            reveal_strlit("type");
            reveal_strlit("field");
            reveal_strlit("variant");
        }
        let ghost ops = aggregate_operands(*aggregate);
        let kind = match aggregate {
            MirAggregate::Tuple(values) => Instruction::MakeTuple { dst, elements: self.operands(values)? },
            MirAggregate::Array(values) => Instruction::MakeArray { dst, elements: self.operands(values)? },
            MirAggregate::MapLiteral(entries) => Instruction::MakeMap { dst, entries: self.given_fields(entries)? },
            MirAggregate::SetFromArray { source } => {
                let src = self.operand(source)?;
                proof {
                    assert(ops.drop_last() =~= Seq::<MirOperand>::empty());
                    assert(immediate_loads(Seq::<MirOperand>::empty(), old(self).next_register()) =~= Seq::<
                        InstrModel,
                    >::empty());
                    assert(immediates_in(Seq::<MirOperand>::empty()) == 0);
                    assert(immediate_loads(ops, old(self).next_register()) =~= one_loads(
                        *source,
                        old(self).next_register(),
                    ));
                }
                Instruction::MakeSetFromArray { dst, src }
            },
            MirAggregate::Record { type_id, fields } => {
                let record_type = match type_name64(&self.targets.types, *type_id) {
                    Some(name) => name,
                    None => return Err(MirBackendError::MissingTarget("type")),
                };
                let fields = self.declared_fields(fields)?;
                Instruction::MakeRecord { dst, record_type, type_id: TypeIdRef::Declared(*type_id), fields }
            },
            MirAggregate::DynamicRecord { record_type, fields } => {
                let fields = self.given_fields(fields)?;
                Instruction::MakeRecord {
                    dst,
                    record_type: record_type.clone(),
                    type_id: TypeIdRef::Anonymous(record_type.clone()),
                    fields,
                }
            },
            MirAggregate::Enum { type_id, variant, fields } => {
                let enum_name = match type_name64(&self.targets.types, *type_id) {
                    Some(name) => name,
                    None => return Err(MirBackendError::MissingTarget("type")),
                };
                let variant_name = match target_name(&self.targets.variants, *variant) {
                    Some(name) => name,
                    None => return Err(MirBackendError::MissingTarget("variant")),
                };
                let fields = self.declared_fields(fields)?;
                Instruction::MakeEnum {
                    dst,
                    enum_name,
                    type_id: TypeIdRef::Declared(*type_id),
                    variant: variant_name,
                    variant_id: VariantIdRef::Declared(*variant),
                    fields,
                }
            },
            MirAggregate::DynamicVariant { owner_name, variant_name, fields } => {
                let fields = self.given_fields(fields)?;
                Instruction::MakeEnum {
                    dst,
                    enum_name: owner_name.clone(),
                    type_id: TypeIdRef::Anonymous(owner_name.clone()),
                    variant: variant_name.clone(),
                    variant_id: VariantIdRef::Anonymous(owner_name.clone(), variant_name.clone()),
                    fields,
                }
            },
            MirAggregate::Closure { function, captures } => {
                let index = match nested_index(&self.nested, *function) {
                    Some(index) => index,
                    None => return Err(MirBackendError::MissingMirFunction(*function)),
                };
                Instruction::MakeClosure { dst, function: index, captures: self.operands(captures)? }
            },
        };
        proof {
            lemma_operand_registers_len(old(self).locals_view(), old(self).temps_view(), ops, old(self).next_register());
        }
        self.emit(kind);
        Ok(())
    }
}

/// The load of one operand's constant into register `at`, when it is one.
pub open spec fn one_loads(op: MirOperand, at: nat) -> Seq<InstrModel> {
    match op {
        MirOperand::Immediate(v) => seq![InstrModel::LoadConst(Register(at as u32), immediate_const(v))],
        _ => Seq::empty(),
    }
}

/// Fewer constants stand in a prefix than in the whole.
proof fn lemma_immediates_le(ops: Seq<MirOperand>, n: int)
    requires
        0 <= n <= ops.len(),
    ensures
        forall|k: int| 0 <= k <= n ==> immediates_in(#[trigger] ops.subrange(0, k)) <= immediates_in(ops.subrange(0, n)),
    decreases n,
{
    if n > 0 {
        lemma_immediates_le(ops, n - 1);
        assert(ops.subrange(0, n).drop_last() =~= ops.subrange(0, n - 1));
    }
}


/// Name-register pairs as plain values.
pub open spec fn entries_view(v: Seq<(String, Register)>) -> Seq<(Seq<char>, Register)> {
    map_entries_model(v)
}

/// There is one register per operand.
proof fn lemma_operand_registers_len(
    locals: Seq<(u32, Register)>,
    temps: Seq<(u32, Register)>,
    ops: Seq<MirOperand>,
    next: nat,
)
    ensures
        operand_registers(locals, temps, ops, next).len() == ops.len(),
    decreases ops.len(),
{
    if ops.len() > 0 {
        lemma_operand_registers_len(locals, temps, ops.drop_last(), next);
    }
}

/// Every declared name and nested function the aggregate uses is known.
pub open spec fn aggregate_resolves(targets: MirTargets, nested: Seq<(MirFunctionId, u32)>, a: MirAggregate) -> bool {
    match a {
        MirAggregate::Record { type_id, fields } => name_of64(targets.types@, type_id) is Some && fields_declared(
            targets,
            fields@,
        ),
        MirAggregate::Enum { type_id, variant, fields } => name_of64(targets.types@, type_id) is Some && name_of(
            targets.variants@,
            variant,
        ) is Some && fields_declared(targets, fields@),
        MirAggregate::Closure { function, .. } => table_get(nested, function) is Some,
        _ => true,
    }
}

/// The instruction that builds the aggregate, from the registers its
/// operands are read from.
pub open spec fn aggregate_instr(b: &FunctionBackend, dst: Register, a: MirAggregate) -> InstrModel {
    let targets = b.targets_view();
    let regs = operand_registers(b.locals_view(), b.temps_view(), aggregate_operands(a), b.next_register());
    match a {
        MirAggregate::Tuple(_) => InstrModel::MakeTuple(dst, regs),
        MirAggregate::Array(_) => InstrModel::MakeArray(dst, regs),
        MirAggregate::MapLiteral(entries) => InstrModel::MakeMap(dst, named_registers(given_names(entries@), regs)),
        MirAggregate::SetFromArray { .. } => InstrModel::MakeSetFromArray(dst, regs[0]),
        MirAggregate::Record { type_id, fields } => InstrModel::MakeRecord(
            dst,
            name_of64(targets.types@, type_id)->0,
            TypeIdModel::Declared(type_id),
            named_registers(declared_names(targets, fields@), regs),
        ),
        MirAggregate::DynamicRecord { record_type, fields } => InstrModel::MakeRecord(
            dst,
            record_type@,
            TypeIdModel::Anonymous(record_type@),
            named_registers(given_names(fields@), regs),
        ),
        MirAggregate::Enum { type_id, variant, fields } => InstrModel::MakeEnum(
            dst,
            name_of64(targets.types@, type_id)->0,
            TypeIdModel::Declared(type_id),
            name_of(targets.variants@, variant)->0,
            VariantIdModel::Declared(variant),
            named_registers(declared_names(targets, fields@), regs),
        ),
        MirAggregate::DynamicVariant { owner_name, variant_name, fields } => InstrModel::MakeEnum(
            dst,
            owner_name@,
            TypeIdModel::Anonymous(owner_name@),
            variant_name@,
            VariantIdModel::Anonymous(owner_name@, variant_name@),
            named_registers(given_names(fields@), regs),
        ),
        MirAggregate::Closure { function, .. } => InstrModel::MakeClosure(
            dst,
            table_get(b.nested_view(), function)->0,
            regs,
        ),
    }
}

/// When building the aggregate fails with `e`: a missing type is reported
/// before anything else of a record or variant, a missing variant next,
/// then a missing field; a closure over a function not lowered yet names
/// it; and the registers run out only when its constants need more of them
/// than are left.
pub open spec fn aggregate_error(b: &FunctionBackend, a: MirAggregate, e: MirBackendError) -> bool {
    let targets = b.targets_view();
    let fits = b.next_register() + immediates_in(aggregate_operands(a)) <= u16::MAX;
    match e {
        MirBackendError::MissingDestination => false,
        MirBackendError::RegisterOverflow => !fits,
        MirBackendError::MissingMirFunction(f) => a matches MirAggregate::Closure { function, .. } && f == function
            && table_get(b.nested_view(), function) is None,
        MirBackendError::MissingTarget(k) => match a {
            MirAggregate::Record { type_id, fields } => {
                &&& (k == "type" <==> name_of64(targets.types@, type_id) is None)
                &&& (k == "type" || k == "field")
                &&& (k == "field" ==> !fields_declared(targets, fields@))
            },
            MirAggregate::Enum { type_id, variant, fields } => {
                &&& (k == "type" <==> name_of64(targets.types@, type_id) is None)
                &&& (k == "variant" <==> name_of64(targets.types@, type_id) is Some && name_of(
                    targets.variants@,
                    variant,
                ) is None)
                &&& (k == "type" || k == "variant" || k == "field")
                &&& (k == "field" ==> !fields_declared(targets, fields@))
            },
            _ => false,
        },
    }
}

fn target_name(table: &Vec<(u32, String)>, key: u32) -> (r: Option<String>)
    ensures
        match r {
            Some(n) => name_of(table@, key) == Some(n@),
            None => name_of(table@, key) is None,
        },
{
    let mut i: usize = 0;
    proof {
        assert(table@.subrange(0, table@.len() as int) =~= table@);
    }
    while i < table.len()
        invariant
            i <= table@.len(),
            name_of(table@, key) == name_of(table@.subrange(i as int, table@.len() as int), key),
        decreases table.len() - i,
    {
        let ghost rest = table@.subrange(i as int, table@.len() as int);
        proof {
            assert(rest.drop_first() =~= table@.subrange(i + 1, table@.len() as int));
        }
        if table[i].0 == key {
            return Some(table[i].1.clone());
        }
        i = i + 1;
    }
    None
}

fn type_name64(table: &Vec<(u64, String)>, key: u64) -> (r: Option<String>)
    ensures
        match r {
            Some(n) => name_of64(table@, key) == Some(n@),
            None => name_of64(table@, key) is None,
        },
{
    let mut i: usize = 0;
    proof {
        assert(table@.subrange(0, table@.len() as int) =~= table@);
    }
    while i < table.len()
        invariant
            i <= table@.len(),
            name_of64(table@, key) == name_of64(table@.subrange(i as int, table@.len() as int), key),
        decreases table.len() - i,
    {
        let ghost rest = table@.subrange(i as int, table@.len() as int);
        proof {
            assert(rest.drop_first() =~= table@.subrange(i + 1, table@.len() as int));
        }
        if table[i].0 == key {
            return Some(table[i].1.clone());
        }
        i = i + 1;
    }
    None
}

fn nested_index(table: &Vec<(MirFunctionId, u32)>, key: MirFunctionId) -> (r: Option<u32>)
    ensures
        r == table_get(table@, key),
{
    let mut i: usize = 0;
    proof {
        assert(table@.subrange(0, table@.len() as int) =~= table@);
    }
    while i < table.len()
        invariant
            i <= table@.len(),
            table_get(table@, key) == table_get(table@.subrange(i as int, table@.len() as int), key),
        decreases table.len() - i,
    {
        let ghost rest = table@.subrange(i as int, table@.len() as int);
        proof {
            assert(rest.drop_first() =~= table@.subrange(i + 1, table@.len() as int));
        }
        if table[i].0 == key {
            return Some(table[i].1);
        }
        i = i + 1;
    }
    None
}

/// The operands a statement reads, in the order it reads them.
pub open spec fn statement_operands(k: MirStatementKind) -> Seq<MirOperand> {
    match k {
        MirStatementKind::Unary { operand, .. } => seq![operand],
        MirStatementKind::DynamicUnary { operand, .. } => seq![operand],
        MirStatementKind::DynamicBinary { left, right, .. } => seq![left, right],
        MirStatementKind::IdentityCompare { left, right, .. } => seq![left, right],
        MirStatementKind::TupleField { tuple, .. } => seq![tuple],
        MirStatementKind::Allocate(a) => aggregate_operands(a),
        MirStatementKind::MakeRange { start, end, .. } => seq![start, end],
    }
}

/// The instruction of a dynamic binary operator.
pub open spec fn dynamic_binary_instr(op: MirDynamicBinaryOp, dst: Register, lhs: Register, rhs: Register) -> InstrModel {
    match op {
        MirDynamicBinaryOp::Add => InstrModel::Add(dst, lhs, rhs),
        MirDynamicBinaryOp::Subtract => InstrModel::Sub(dst, lhs, rhs),
        MirDynamicBinaryOp::Multiply => InstrModel::Mul(dst, lhs, rhs),
        MirDynamicBinaryOp::Divide => InstrModel::Div(dst, lhs, rhs),
        MirDynamicBinaryOp::Remainder => InstrModel::Rem(dst, lhs, rhs),
        MirDynamicBinaryOp::Equal => InstrModel::Equal(dst, lhs, rhs),
        MirDynamicBinaryOp::NotEqual => InstrModel::NotEqual(dst, lhs, rhs),
        MirDynamicBinaryOp::Less => InstrModel::Less(dst, lhs, rhs),
        MirDynamicBinaryOp::LessEqual => InstrModel::LessEqual(dst, lhs, rhs),
        MirDynamicBinaryOp::Greater => InstrModel::Greater(dst, lhs, rhs),
        MirDynamicBinaryOp::GreaterEqual => InstrModel::GreaterEqual(dst, lhs, rhs),
    }
}

/// A boolean as an integer: one for true, zero for false.
pub open spec fn truth_value(b: bool) -> int {
    if b {
        1
    } else {
        0
    }
}

/// What a dynamic binary operator of the MIR computes from two integers
/// (a comparison gives one or zero).
pub open spec fn mir_binary_meaning(op: MirDynamicBinaryOp, x: int, y: int) -> int {
    match op {
        MirDynamicBinaryOp::Add => x + y,
        MirDynamicBinaryOp::Subtract => x - y,
        MirDynamicBinaryOp::Multiply => x * y,
        MirDynamicBinaryOp::Divide => x / y,
        MirDynamicBinaryOp::Remainder => x % y,
        MirDynamicBinaryOp::Equal => truth_value(x == y),
        MirDynamicBinaryOp::NotEqual => truth_value(x != y),
        MirDynamicBinaryOp::Less => truth_value(x < y),
        MirDynamicBinaryOp::LessEqual => truth_value(x <= y),
        MirDynamicBinaryOp::Greater => truth_value(x > y),
        MirDynamicBinaryOp::GreaterEqual => truth_value(x >= y),
    }
}

/// What a two-operand instruction computes from the integers in its two
/// source registers, with its destination and sources; `None` for another
/// instruction.
pub open spec fn instr_binary_meaning(i: InstrModel, x: int, y: int) -> Option<(int, Register, Register, Register)> {
    match i {
        InstrModel::Add(d, a, b) => Some((x + y, d, a, b)),
        InstrModel::Sub(d, a, b) => Some((x - y, d, a, b)),
        InstrModel::Mul(d, a, b) => Some((x * y, d, a, b)),
        InstrModel::Div(d, a, b) => Some((x / y, d, a, b)),
        InstrModel::Rem(d, a, b) => Some((x % y, d, a, b)),
        InstrModel::Equal(d, a, b) => Some((truth_value(x == y), d, a, b)),
        InstrModel::NotEqual(d, a, b) => Some((truth_value(x != y), d, a, b)),
        InstrModel::Less(d, a, b) => Some((truth_value(x < y), d, a, b)),
        InstrModel::LessEqual(d, a, b) => Some((truth_value(x <= y), d, a, b)),
        InstrModel::Greater(d, a, b) => Some((truth_value(x > y), d, a, b)),
        InstrModel::GreaterEqual(d, a, b) => Some((truth_value(x >= y), d, a, b)),
        _ => None,
    }
}

/// A dynamic binary statement is lowered to an instruction that computes
/// what the MIR operator computes, for any two operand values, reading the
/// left and then the right operand's register and writing the destination.
pub proof fn law_dynamic_binary_keeps_its_meaning(
    op: MirDynamicBinaryOp,
    dst: Register,
    lhs: Register,
    rhs: Register,
    x: int,
    y: int,
)
    ensures
        instr_binary_meaning(dynamic_binary_instr(op, dst, lhs, rhs), x, y) == Some(
            (mir_binary_meaning(op, x, y), dst, lhs, rhs),
        ),
{
}

/// The instruction a statement ends with, into `dst`, from the registers its
/// operands are read from.
pub open spec fn statement_instr(b: &FunctionBackend, dst: Register, k: MirStatementKind) -> InstrModel {
    let regs = operand_registers(b.locals_view(), b.temps_view(), statement_operands(k), b.next_register());
    match k {
        MirStatementKind::Unary { operation, .. } => match operation {
            MirUnaryOp::NotBool => InstrModel::Not(dst, regs[0]),
            MirUnaryOp::Negate => InstrModel::Negate(dst, regs[0]),
        },
        MirStatementKind::DynamicUnary { operation, .. } => match operation {
            MirDynamicUnaryOp::Negate => InstrModel::Negate(dst, regs[0]),
            MirDynamicUnaryOp::Not => InstrModel::Not(dst, regs[0]),
        },
        MirStatementKind::DynamicBinary { operation, .. } => dynamic_binary_instr(operation, dst, regs[0], regs[1]),
        MirStatementKind::IdentityCompare { operation, .. } => match operation {
            MirIdentityOp::Equal => InstrModel::IdentityEqual(dst, regs[0], regs[1]),
            MirIdentityOp::NotEqual => InstrModel::IdentityNotEqual(dst, regs[0], regs[1]),
        },
        MirStatementKind::TupleField { index, .. } => InstrModel::GetTupleField(dst, regs[0], index as usize),
        MirStatementKind::Allocate(a) => aggregate_instr(b, dst, a),
        MirStatementKind::MakeRange { inclusive, .. } => InstrModel::MakeRange(dst, regs[0], regs[1], inclusive),
    }
}

/// The register of the `i`-th value of a function: its locals in order,
/// then its temporaries.
pub open spec fn value_register(b: FunctionBackend, i: int) -> Register {
    if i < b.locals_view().len() {
        b.locals_view()[i].1
    } else {
        b.temps_view()[i - b.locals_view().len()].1
    }
}

/// The register of a place.
pub open spec fn place_register(b: &FunctionBackend, p: MirPlace) -> Register {
    match p {
        MirPlace::Local(l) => table_get(b.locals_view(), l)->0,
        MirPlace::Temp(t) => table_get(b.temps_view(), t)->0,
    }
}

/// The place has a register.
pub open spec fn place_mapped(b: &FunctionBackend, p: MirPlace) -> bool {
    match p {
        MirPlace::Local(l) => table_get(b.locals_view(), l) is Some,
        MirPlace::Temp(t) => table_get(b.temps_view(), t) is Some,
    }
}

/// A single operand's constants, loads and register.
proof fn lemma_single_operand(op: MirOperand, n: nat, locals: Seq<(u32, Register)>, temps: Seq<(u32, Register)>)
    ensures
        immediates_in(seq![op]) == if op is Immediate {
            1nat
        } else {
            0nat
        },
        immediate_loads(seq![op], n) == one_loads(op, n),
        operand_registers(locals, temps, seq![op], n) == seq![operand_register(locals, temps, op, n)],
{
    assert(seq![op].drop_last() =~= Seq::<MirOperand>::empty());
    assert(immediate_loads(Seq::<MirOperand>::empty(), n) =~= Seq::<InstrModel>::empty());
    assert(immediate_loads(seq![op], n) =~= one_loads(op, n));
    assert(operand_registers(locals, temps, Seq::<MirOperand>::empty(), n) =~= Seq::<Register>::empty());
    assert(immediates_in(Seq::<MirOperand>::empty()) == 0);
    assert(operand_registers(locals, temps, seq![op], n) =~= seq![operand_register(locals, temps, op, n)]);
}

/// The operands an aggregate reads, in the order it reads them.
pub open spec fn aggregate_operands(a: MirAggregate) -> Seq<MirOperand> {
    match a {
        MirAggregate::Tuple(v) => v@,
        MirAggregate::Array(v) => v@,
        MirAggregate::MapLiteral(entries) => named_operands(entries@),
        MirAggregate::SetFromArray { source } => seq![source],
        MirAggregate::Record { fields, .. } => named_operands(fields@),
        MirAggregate::DynamicRecord { fields, .. } => named_operands(fields@),
        MirAggregate::Enum { fields, .. } => named_operands(fields@),
        MirAggregate::DynamicVariant { fields, .. } => named_operands(fields@),
        MirAggregate::Closure { captures, .. } => captures@,
    }
}

fn lookup_register(table: &Vec<(u32, Register)>, key: u32) -> (r: Option<Register>)
    ensures
        r == table_get(table@, key),
{
    let mut i: usize = 0;
    proof {
        assert(table@.subrange(0, table@.len() as int) =~= table@);
    }
    while i < table.len()
        invariant
            i <= table@.len(),
            table_get(table@, key) == table_get(table@.subrange(i as int, table@.len() as int), key),
        decreases table.len() - i,
    {
        let ghost rest = table@.subrange(i as int, table@.len() as int);
        proof {
            assert(rest.drop_first() =~= table@.subrange(i + 1, table@.len() as int));
        }
        if table[i].0 == key {
            return Some(table[i].1);
        }
        i = i + 1;
    }
    proof {
        assert(table@.subrange(i as int, table@.len() as int).len() == 0);
    }
    None
}

fn has_analyses(analyses: &Vec<(MirFunctionId, MirFunctionAnalyses)>, key: MirFunctionId) -> (r: bool)
    ensures
        r == table_get(analyses@, key) is Some,
{
    let mut i: usize = 0;
    proof {
        assert(analyses@.subrange(0, analyses@.len() as int) =~= analyses@);
    }
    while i < analyses.len()
        invariant
            i <= analyses@.len(),
            table_get(analyses@, key) == table_get(analyses@.subrange(i as int, analyses@.len() as int), key),
        decreases analyses.len() - i,
    {
        let ghost rest = analyses@.subrange(i as int, analyses@.len() as int);
        proof {
            assert(rest.drop_first() =~= analyses@.subrange(i + 1, analyses@.len() as int));
        }
        if analyses[i].0 == key {
            return true;
        }
        i = i + 1;
    }
    false
}

} // verus!
