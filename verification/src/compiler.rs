use vstd::prelude::*;

use crate::field_slots::{enum_field, resolved_record_field, FieldInfoModel, ScriptFieldSlots};
use crate::host_paths::{dynamic_host_path_part, dynamic_part_spec, DynamicHostPathPart};
use crate::options::CompilerOptions;
use crate::patterns::{enum_variant_path, enum_variant_path_spec};
use crate::record_shapes::{opt_fact_model, opt_shape_model, shape_from_type, RecordModel, RecordShape, ShapeModel, ValueShape};
use crate::script_types::{opt_fact_view, string_views, ScriptTypeFact};
use crate::text::str_eq;
use crate::value_types::RuntimeTypeFact;

verus! {

/// A virtual register of the bytecode.
#[derive(Clone, Copy, Debug, PartialEq, Eq, Structural)]
pub struct Register(pub u32);

/// A constant operand.
#[derive(Debug, PartialEq, Eq)]
pub enum Constant {
    Unit,
    Bool(bool),
    Char(char),
    Int(i64),
    Str(String),
}

/// A piece of a string being formatted: fixed text, or a register's value.
#[derive(Clone, Debug, PartialEq, Eq)]
pub enum FormatPart {
    Text(String),
    Value(Register),
}

pub enum FormatPartModel {
    Text(Seq<char>),
    Value(Register),
}

pub open spec fn format_parts_model(s: Seq<FormatPart>) -> Seq<FormatPartModel> {
    Seq::new(
        s.len(),
        |i: int|
            match s[i] {
                FormatPart::Text(t) => FormatPartModel::Text(t@),
                FormatPart::Value(r) => FormatPartModel::Value(r),
            },
    )
}

/// The type id an instruction carries: one the program declares, or the one
/// the anonymous package gives a type by its name (computed when the code is
/// linked).
#[derive(Clone, Debug, PartialEq, Eq)]
pub enum TypeIdRef {
    Declared(u64),
    Anonymous(String),
}

/// The variant id an instruction carries: one the program declares, or the
/// one the anonymous package gives a variant by its owner's name and its own.
#[derive(Clone, Debug, PartialEq, Eq)]
pub enum VariantIdRef {
    Declared(u32),
    Anonymous(String, String),
}

pub enum TypeIdModel {
    Declared(u64),
    Anonymous(Seq<char>),
}

pub enum VariantIdModel {
    Declared(u32),
    Anonymous(Seq<char>, Seq<char>),
}

impl View for TypeIdRef {
    type V = TypeIdModel;

    open spec fn view(&self) -> TypeIdModel {
        match self {
            TypeIdRef::Declared(id) => TypeIdModel::Declared(*id),
            TypeIdRef::Anonymous(name) => TypeIdModel::Anonymous(name@),
        }
    }
}

impl View for VariantIdRef {
    type V = VariantIdModel;

    open spec fn view(&self) -> VariantIdModel {
        match self {
            VariantIdRef::Declared(id) => VariantIdModel::Declared(*id),
            VariantIdRef::Anonymous(owner, variant) => VariantIdModel::Anonymous(owner@, variant@),
        }
    }
}

/// The constant a jump carries before it is patched.
pub const PENDING_TARGET: usize = 0xffff_ffffusize;

/// How an `i64` register is compared with an immediate.
#[derive(Clone, Copy, Debug, PartialEq, Eq, Structural)]
pub enum I64CompareOp {
    Equal,
    NotEqual,
    Less,
    LessEqual,
    Greater,
    GreaterEqual,
}

/// A bytecode instruction as the compiler emits it, before linking.
#[derive(Debug, PartialEq, Eq)]
pub enum Instruction {
    LoadConst { dst: Register, constant: Constant },
    LoadGlobal { dst: Register, global: String, slot: Option<usize> },
    Move { dst: Register, src: Register },
    Truthy { dst: Register, src: Register },
    Not { dst: Register, src: Register },
    Negate { dst: Register, src: Register },
    Add { dst: Register, lhs: Register, rhs: Register },
    Sub { dst: Register, lhs: Register, rhs: Register },
    Mul { dst: Register, lhs: Register, rhs: Register },
    Div { dst: Register, lhs: Register, rhs: Register },
    Rem { dst: Register, lhs: Register, rhs: Register },
    Less { dst: Register, lhs: Register, rhs: Register },
    LessEqual { dst: Register, lhs: Register, rhs: Register },
    Greater { dst: Register, lhs: Register, rhs: Register },
    GreaterEqual { dst: Register, lhs: Register, rhs: Register },
    Equal { dst: Register, lhs: Register, rhs: Register },
    NotEqual { dst: Register, lhs: Register, rhs: Register },
    IdentityEqual { dst: Register, lhs: Register, rhs: Register },
    IdentityNotEqual { dst: Register, lhs: Register, rhs: Register },
    MakeRange { dst: Register, start: Register, end: Register, inclusive: bool },
    MakeTuple { dst: Register, elements: Vec<Register> },
    MakeArray { dst: Register, elements: Vec<Register> },
    MakeMap { dst: Register, entries: Vec<(String, Register)> },
    MakeSetFromArray { dst: Register, src: Register },
    MakeRecord { dst: Register, record_type: String, type_id: TypeIdRef, fields: Vec<(String, Register)> },
    MakeEnum {
        dst: Register,
        enum_name: String,
        type_id: TypeIdRef,
        variant: String,
        variant_id: VariantIdRef,
        fields: Vec<(String, Register)>,
    },
    MakeClosure { dst: Register, function: u32, captures: Vec<Register> },
    FormatString { dst: Register, parts: Vec<FormatPart> },
    EnumTagEqual { dst: Register, value: Register, enum_name: String, variant: String },
    GetEnumSlot { dst: Register, value: Register, field: String, slot: usize },
    GetEnumField { dst: Register, value: Register, field: String },
    GetTupleField { dst: Register, value: Register, index: usize },
    Jump { target: usize },
    JumpIfFalse { condition: Register, target: usize },
    /// Starts iterating over a value.
    IterInit { dst: Register, iterable: Register },
    /// Puts the iterator's next item in `dst`; jumps to `target` when there is none.
    IterNext { dst: Register, iterator: Register, target: usize },
    /// Puts the range's next number in `dst` and advances `cursor` (up to
    /// `end`, included when `inclusive`; `done` marks an inclusive range
    /// that reached its end); jumps to `target` when there is none.
    RangeNext { dst: Register, cursor: Register, end: Register, done: Register, inclusive: bool, target: usize },
    Return { src: Register },
    I64Add { dst: Register, lhs: Register, rhs: Register },
    I64Sub { dst: Register, lhs: Register, rhs: Register },
    I64Mul { dst: Register, lhs: Register, rhs: Register },
    I64AddImm { dst: Register, lhs: Register, imm: i64 },
    I64SubImm { dst: Register, lhs: Register, imm: i64 },
    I64MulImm { dst: Register, lhs: Register, imm: i64 },
    I64RemImm { dst: Register, lhs: Register, imm: i64 },
    I64CmpImm { dst: Register, op: I64CompareOp, lhs: Register, imm: i64 },
    GetRecordSlot { dst: Register, record: Register, field: String, slot: usize },
    GetRecordField { dst: Register, record: Register, field: String },
    SetRecordSlot { record: Register, field: String, slot: usize, src: Register },
    SetRecordField { record: Register, field: String, src: Register },
    GetIndex { dst: Register, base: Register, index: Register },
    GetStringKeyIndex { dst: Register, base: Register, key: String },
    SetIndex { base: Register, index: Register, src: Register },
    SetStringKeyIndex { base: Register, key: String, src: Register },
    TupleArityEqual { dst: Register, value: Register, arity: usize },
    GuardTupleArity { value: Register, arity: usize },
}

/// The mathematical value of an instruction: strings by their characters.
pub enum InstrModel {
    LoadConst(Register, ConstModel),
    LoadGlobal(Register, Seq<char>, Option<usize>),
    Move(Register, Register),
    Truthy(Register, Register),
    Not(Register, Register),
    Negate(Register, Register),
    Add(Register, Register, Register),
    Sub(Register, Register, Register),
    Mul(Register, Register, Register),
    Div(Register, Register, Register),
    Rem(Register, Register, Register),
    Less(Register, Register, Register),
    LessEqual(Register, Register, Register),
    Greater(Register, Register, Register),
    GreaterEqual(Register, Register, Register),
    Equal(Register, Register, Register),
    NotEqual(Register, Register, Register),
    IdentityEqual(Register, Register, Register),
    IdentityNotEqual(Register, Register, Register),
    MakeRange(Register, Register, Register, bool),
    MakeTuple(Register, Seq<Register>),
    MakeArray(Register, Seq<Register>),
    MakeMap(Register, Seq<(Seq<char>, Register)>),
    MakeSetFromArray(Register, Register),
    MakeRecord(Register, Seq<char>, TypeIdModel, Seq<(Seq<char>, Register)>),
    MakeEnum(Register, Seq<char>, TypeIdModel, Seq<char>, VariantIdModel, Seq<(Seq<char>, Register)>),
    MakeClosure(Register, u32, Seq<Register>),
    FormatString(Register, Seq<FormatPartModel>),
    EnumTagEqual(Register, Register, Seq<char>, Seq<char>),
    GetEnumSlot(Register, Register, Seq<char>, usize),
    GetEnumField(Register, Register, Seq<char>),
    GetTupleField(Register, Register, usize),
    Jump(usize),
    JumpIfFalse(Register, usize),
    IterInit(Register, Register),
    IterNext(Register, Register, usize),
    RangeNext(Register, Register, Register, Register, bool, usize),
    Return(Register),
    I64Add(Register, Register, Register),
    I64Sub(Register, Register, Register),
    I64Mul(Register, Register, Register),
    I64AddImm(Register, Register, i64),
    I64SubImm(Register, Register, i64),
    I64MulImm(Register, Register, i64),
    I64RemImm(Register, Register, i64),
    I64CmpImm(Register, I64CompareOp, Register, i64),
    GetRecordSlot(Register, Register, Seq<char>, usize),
    GetRecordField(Register, Register, Seq<char>),
    SetRecordSlot(Register, Seq<char>, usize, Register),
    SetRecordField(Register, Seq<char>, Register),
    GetIndex(Register, Register, Register),
    GetStringKeyIndex(Register, Register, Seq<char>),
    SetIndex(Register, Register, Register),
    SetStringKeyIndex(Register, Seq<char>, Register),
    TupleArityEqual(Register, Register, usize),
    GuardTupleArity(Register, usize),
}

pub enum ConstModel {
    Unit,
    Bool(bool),
    Char(char),
    Int(i64),
    Str(Seq<char>),
}

impl View for Constant {
    type V = ConstModel;

    open spec fn view(&self) -> ConstModel {
        match self {
            Constant::Unit => ConstModel::Unit,
            Constant::Bool(b) => ConstModel::Bool(*b),
            Constant::Char(c) => ConstModel::Char(*c),
            Constant::Int(i) => ConstModel::Int(*i),
            Constant::Str(s) => ConstModel::Str(s@),
        }
    }
}

impl View for Instruction {
    type V = InstrModel;

    open spec fn view(&self) -> InstrModel {
        match self {
            Instruction::LoadConst { dst, constant } => InstrModel::LoadConst(*dst, constant@),
            Instruction::LoadGlobal { dst, global, slot } => InstrModel::LoadGlobal(*dst, global@, *slot),
            Instruction::Move { dst, src } => InstrModel::Move(*dst, *src),
            Instruction::Truthy { dst, src } => InstrModel::Truthy(*dst, *src),
            Instruction::Not { dst, src } => InstrModel::Not(*dst, *src),
            Instruction::Negate { dst, src } => InstrModel::Negate(*dst, *src),
            Instruction::Add { dst, lhs, rhs } => InstrModel::Add(*dst, *lhs, *rhs),
            Instruction::Sub { dst, lhs, rhs } => InstrModel::Sub(*dst, *lhs, *rhs),
            Instruction::Mul { dst, lhs, rhs } => InstrModel::Mul(*dst, *lhs, *rhs),
            Instruction::Div { dst, lhs, rhs } => InstrModel::Div(*dst, *lhs, *rhs),
            Instruction::Rem { dst, lhs, rhs } => InstrModel::Rem(*dst, *lhs, *rhs),
            Instruction::Less { dst, lhs, rhs } => InstrModel::Less(*dst, *lhs, *rhs),
            Instruction::LessEqual { dst, lhs, rhs } => InstrModel::LessEqual(*dst, *lhs, *rhs),
            Instruction::Greater { dst, lhs, rhs } => InstrModel::Greater(*dst, *lhs, *rhs),
            Instruction::GreaterEqual { dst, lhs, rhs } => InstrModel::GreaterEqual(*dst, *lhs, *rhs),
            Instruction::Equal { dst, lhs, rhs } => InstrModel::Equal(*dst, *lhs, *rhs),
            Instruction::NotEqual { dst, lhs, rhs } => InstrModel::NotEqual(*dst, *lhs, *rhs),
            Instruction::IdentityEqual { dst, lhs, rhs } => InstrModel::IdentityEqual(*dst, *lhs, *rhs),
            Instruction::IdentityNotEqual { dst, lhs, rhs } => InstrModel::IdentityNotEqual(*dst, *lhs, *rhs),
            Instruction::MakeRange { dst, start, end, inclusive } => InstrModel::MakeRange(
                *dst,
                *start,
                *end,
                *inclusive,
            ),
            Instruction::MakeTuple { dst, elements } => InstrModel::MakeTuple(*dst, elements@),
            Instruction::MakeArray { dst, elements } => InstrModel::MakeArray(*dst, elements@),
            Instruction::MakeMap { dst, entries } => InstrModel::MakeMap(*dst, map_entries_model(entries@)),
            Instruction::MakeSetFromArray { dst, src } => InstrModel::MakeSetFromArray(*dst, *src),
            Instruction::MakeRecord { dst, record_type, type_id, fields } => InstrModel::MakeRecord(
                *dst,
                record_type@,
                type_id@,
                map_entries_model(fields@),
            ),
            Instruction::MakeEnum { dst, enum_name, type_id, variant, variant_id, fields } => InstrModel::MakeEnum(
                *dst,
                enum_name@,
                type_id@,
                variant@,
                variant_id@,
                map_entries_model(fields@),
            ),
            Instruction::MakeClosure { dst, function, captures } => InstrModel::MakeClosure(*dst, *function, captures@),
            Instruction::FormatString { dst, parts } => InstrModel::FormatString(*dst, format_parts_model(parts@)),
            Instruction::EnumTagEqual { dst, value, enum_name, variant } => InstrModel::EnumTagEqual(
                *dst,
                *value,
                enum_name@,
                variant@,
            ),
            Instruction::GetEnumSlot { dst, value, field, slot } => InstrModel::GetEnumSlot(
                *dst,
                *value,
                field@,
                *slot,
            ),
            Instruction::GetEnumField { dst, value, field } => InstrModel::GetEnumField(*dst, *value, field@),
            Instruction::GetTupleField { dst, value, index } => InstrModel::GetTupleField(*dst, *value, *index),
            Instruction::Jump { target } => InstrModel::Jump(*target),
            Instruction::JumpIfFalse { condition, target } => InstrModel::JumpIfFalse(*condition, *target),
            Instruction::IterInit { dst, iterable } => InstrModel::IterInit(*dst, *iterable),
            Instruction::IterNext { dst, iterator, target } => InstrModel::IterNext(*dst, *iterator, *target),
            Instruction::RangeNext { dst, cursor, end, done, inclusive, target } => InstrModel::RangeNext(
                *dst,
                *cursor,
                *end,
                *done,
                *inclusive,
                *target,
            ),
            Instruction::Return { src } => InstrModel::Return(*src),
            Instruction::I64Add { dst, lhs, rhs } => InstrModel::I64Add(*dst, *lhs, *rhs),
            Instruction::I64Sub { dst, lhs, rhs } => InstrModel::I64Sub(*dst, *lhs, *rhs),
            Instruction::I64Mul { dst, lhs, rhs } => InstrModel::I64Mul(*dst, *lhs, *rhs),
            Instruction::I64AddImm { dst, lhs, imm } => InstrModel::I64AddImm(*dst, *lhs, *imm),
            Instruction::I64SubImm { dst, lhs, imm } => InstrModel::I64SubImm(*dst, *lhs, *imm),
            Instruction::I64MulImm { dst, lhs, imm } => InstrModel::I64MulImm(*dst, *lhs, *imm),
            Instruction::I64RemImm { dst, lhs, imm } => InstrModel::I64RemImm(*dst, *lhs, *imm),
            Instruction::I64CmpImm { dst, op, lhs, imm } => InstrModel::I64CmpImm(*dst, *op, *lhs, *imm),
            Instruction::GetRecordSlot { dst, record, field, slot } => InstrModel::GetRecordSlot(
                *dst,
                *record,
                field@,
                *slot,
            ),
            Instruction::GetRecordField { dst, record, field } => InstrModel::GetRecordField(*dst, *record, field@),
            Instruction::SetRecordSlot { record, field, slot, src } => InstrModel::SetRecordSlot(
                *record,
                field@,
                *slot,
                *src,
            ),
            Instruction::SetRecordField { record, field, src } => InstrModel::SetRecordField(*record, field@, *src),
            Instruction::GetIndex { dst, base, index } => InstrModel::GetIndex(*dst, *base, *index),
            Instruction::GetStringKeyIndex { dst, base, key } => InstrModel::GetStringKeyIndex(*dst, *base, key@),
            Instruction::SetIndex { base, index, src } => InstrModel::SetIndex(*base, *index, *src),
            Instruction::SetStringKeyIndex { base, key, src } => InstrModel::SetStringKeyIndex(*base, key@, *src),
            Instruction::TupleArityEqual { dst, value, arity } => InstrModel::TupleArityEqual(*dst, *value, *arity),
            Instruction::GuardTupleArity { value, arity } => InstrModel::GuardTupleArity(*value, *arity),
        }
    }
}

/// Why a compilation step failed.
#[derive(Debug, PartialEq, Eq)]
pub enum CompileError {
    /// A construct the compiler does not lower.
    UnsupportedSyntax(&'static str),
    /// Every register number has been used.
    RegisterOverflow,
    /// A patch named an instruction that is not a jump.
    InvalidJump,
}

/// What the compiler knows of the program it compiles.
#[derive(Debug)]
pub struct CompilerFacts {
    pub options: CompilerOptions,
    /// The type name of each declaration, by declaration number.
    pub type_symbols: Vec<(u32, String)>,
    /// The slot of each global, by name.
    pub global_slots: Vec<(String, usize)>,
    pub script_field_slots: ScriptFieldSlots,
    /// The declaration each pattern path resolves to.
    pub pattern_declarations: Vec<(Vec<String>, u32)>,
}

/// A compiler of one code object: the facts it reads, the code it emits and
/// the registers it has handed out.
#[derive(Debug)]
pub struct Compiler {
    facts: CompilerFacts,
    code: Vec<Instruction>,
    next_register: u32,
    locals: Vec<(String, Register, Option<ValueShape>)>,
}

/// Map entries by the characters of their names.
pub open spec fn map_entries_model(s: Seq<(String, Register)>) -> Seq<(Seq<char>, Register)> {
    Seq::new(s.len(), |i: int| (s[i].0@, s[i].1))
}

pub open spec fn instrs_model(s: Seq<Instruction>) -> Seq<InstrModel> {
    Seq::new(s.len(), |i: int| s[i]@)
}

/// The first declaration number mapped to a type name, when there is one.
pub open spec fn type_symbol_of(symbols: Seq<(u32, String)>, declaration: u32) -> Option<Seq<char>> {
    if exists|i: int| 0 <= i < symbols.len() && (#[trigger] symbols[i]).0 == declaration {
        Some(symbols[first_symbol_index(symbols, declaration)].1@)
    } else {
        None
    }
}

pub open spec fn first_symbol_index(symbols: Seq<(u32, String)>, declaration: u32) -> int {
    choose|i: int|
        0 <= i < symbols.len() && (#[trigger] symbols[i]).0 == declaration && forall|j: int|
            0 <= j < i ==> (#[trigger] symbols[j]).0 != declaration
}

pub open spec fn declared_type_names(symbols: Seq<(u32, String)>) -> Set<Seq<char>> {
    Set::new(|n: Seq<char>| exists|i: int| 0 <= i < symbols.len() && (#[trigger] symbols[i]).1@ == n)
}

/// The slot of the first global entry of that name.
pub open spec fn global_slot_of(slots: Seq<(String, usize)>, name: Seq<char>) -> Option<usize> {
    if exists|i: int| 0 <= i < slots.len() && (#[trigger] slots[i]).0@ == name {
        Some(
            slots[choose|i: int|
                0 <= i < slots.len() && (#[trigger] slots[i]).0@ == name && forall|j: int|
                    0 <= j < i ==> (#[trigger] slots[j]).0@ != name].1,
        )
    } else {
        None
    }
}

/// The declaration the first matching entry resolves a pattern path to.
pub open spec fn pattern_declaration_of(entries: Seq<(Vec<String>, u32)>, path: Seq<Seq<char>>) -> Option<u32> {
    if exists|i: int| 0 <= i < entries.len() && string_views((#[trigger] entries[i]).0@) == path {
        Some(
            entries[choose|i: int|
                0 <= i < entries.len() && string_views((#[trigger] entries[i]).0@) == path && forall|j: int|
                    0 <= j < i ==> string_views((#[trigger] entries[j]).0@) != path].1,
        )
    } else {
        None
    }
}

/// The type a pattern path names through its resolved declaration.
pub open spec fn pattern_type_symbol(facts: CompilerFacts, path: Seq<Seq<char>>) -> Option<Seq<char>> {
    match pattern_declaration_of(facts.pattern_declarations@, path) {
        Some(d) => type_symbol_of(facts.type_symbols@, d),
        None => None,
    }
}

/// The enum an enum-variant pattern path names: the resolved declaration's
/// type, or else the path without its last segment.
pub open spec fn pattern_enum_name(facts: CompilerFacts, path: Seq<Seq<char>>) -> Option<Seq<char>> {
    match enum_variant_path_spec(path) {
        Some((enum_path, _)) => match pattern_type_symbol(facts, path) {
            Some(t) => Some(t),
            None => Some(enum_path),
        },
        None => None,
    }
}

/// The field of an enum-variant pattern path's variant, looked up under the
/// resolved type.
pub open spec fn pattern_variant_field(facts: CompilerFacts, path: Seq<Seq<char>>, field: Seq<char>) -> Option<
    FieldInfoModel,
> {
    match (enum_variant_path_spec(path), pattern_type_symbol(facts, path)) {
        (Some((_, variant)), Some(owner)) => enum_field(facts.script_field_slots@, owner, variant, field),
        _ => None,
    }
}

impl Compiler {
    /// A compiler with no code emitted and no register used.
    pub fn new(facts: CompilerFacts) -> (r: Self)
        ensures
            r.code() == Seq::<InstrModel>::empty(),
            r.next_register() == 0,
            r.facts_view() == facts,
            r.wf(),
    {
        let r = Compiler { facts, code: Vec::new(), next_register: 0, locals: Vec::new() };
        assert(r.code() =~= Seq::<InstrModel>::empty());
        r
    }

    /// The facts the compiler reads.
    pub closed spec fn facts_view(&self) -> CompilerFacts {
        self.facts
    }

    /// The facts the compiler was made with.
    pub fn facts(&self) -> (r: &CompilerFacts)
        ensures
            *r == self.facts_view(),
    {
        &self.facts
    }

    /// Every bound local holds a register already handed out.
    pub closed spec fn wf(&self) -> bool {
        forall|i: int| 0 <= i < self.locals@.len() ==> (#[trigger] self.locals@[i]).1.0 < self.next_register
    }

    /// The code emitted so far.
    pub closed spec fn code(&self) -> Seq<InstrModel> {
        instrs_model(self.code@)
    }

    /// The number of the next register to hand out.
    pub closed spec fn next_register(&self) -> nat {
        self.next_register as nat
    }

    /// The register a local name is bound to, by its last binding.
    pub closed spec fn locals(&self) -> Seq<(Seq<char>, Register)> {
        Seq::new(self.locals@.len(), |i: int| (self.locals@[i].0@, self.locals@[i].1))
    }

    /// A bound local's register has already been handed out.
    pub proof fn lemma_local_register_below(&self, name: Seq<char>)
        requires
            self.wf(),
        ensures
            local_lookup(self.locals(), name) matches Some(reg) ==> reg.0 < self.next_register(),
    {
        lemma_local_lookup_member(self.locals(), name);
        if let Some(reg) = local_lookup(self.locals(), name) {
            let i = choose|i: int| 0 <= i < self.locals().len() && self.locals()[i].1 == reg;
            assert(self.locals@[i].1 == reg);
        }
    }

    /// The shape known for each local binding, in binding order.
    pub closed spec fn local_shapes(&self) -> Seq<(Seq<char>, Option<ShapeModel>)> {
        Seq::new(self.locals@.len(), |i: int| (self.locals@[i].0@, opt_shape_model(self.locals@[i].2)))
    }

    /// The emitted code, consumed.
    pub fn into_code(self) -> (r: Vec<Instruction>)
        ensures
            instrs_model(r@) == self.code(),
    {
        self.code
    }

    /// The register the latest binding of `name` holds.
    pub fn local_register(&self, name: &str) -> (r: Option<Register>)
        ensures
            r == local_lookup(self.locals(), name@),
            self.wf() ==> (r matches Some(reg) ==> reg.0 < self.next_register()),
    {
        let mut i: usize = self.locals.len();
        proof {
            assert(self.locals().subrange(0, i as int) =~= self.locals());
        }
        while i > 0
            invariant
                i <= self.locals@.len(),
                local_lookup(self.locals(), name@) == local_lookup(self.locals().subrange(0, i as int), name@),
            decreases i,
        {
            let ghost pre = self.locals().subrange(0, i as int);
            proof {
                assert(pre.drop_last() =~= self.locals().subrange(0, i - 1));
                assert(pre.last() == (self.locals@[i - 1].0@, self.locals@[i - 1].1));
            }
            if str_eq(self.locals[i - 1].0.as_str(), name) {
                proof {
                    if self.wf() {
                        assert(self.locals@[i - 1].1.0 < self.next_register);
                    }
                }
                return Some(self.locals[i - 1].1);
            }
            i = i - 1;
        }
        None
    }

    /// Binds `name` to `register`, shadowing earlier bindings of the name.
    pub fn bind_local(&mut self, name: String, register: Register)
        requires
            register.0 < old(self).next_register(),
        ensures
            old(self).wf() ==> final(self).wf(),
            final(self).locals() == old(self).locals().push((name@, register)),
            final(self).local_shapes() == old(self).local_shapes().push((name@, None)),
            final(self).code() == old(self).code(),
            final(self).next_register() == old(self).next_register(),
            final(self).facts_view() == old(self).facts_view(),
    {
        self.bind_local_with_shape(name, register, None);
    }

    /// Binds `name` to `register`, with the shape its value is known to have.
    pub fn bind_local_with_shape(&mut self, name: String, register: Register, shape: Option<ValueShape>)
        requires
            register.0 < old(self).next_register(),
        ensures
            old(self).wf() ==> final(self).wf(),
            final(self).locals() == old(self).locals().push((name@, register)),
            final(self).local_shapes() == old(self).local_shapes().push((name@, opt_shape_model(shape))),
            final(self).code() == old(self).code(),
            final(self).next_register() == old(self).next_register(),
            final(self).facts_view() == old(self).facts_view(),
    {
        let ghost name_view = name@;
        let ghost shape_view = opt_shape_model(shape);
        self.locals.push((name, register, shape));
        assert(self.locals() =~= old(self).locals().push((name_view, register)));
        assert(self.local_shapes() =~= old(self).local_shapes().push((name_view, shape_view)));
    }

    /// The shape known for the latest binding of `name`.
    pub fn local_value_shape(&self, name: &str) -> (r: Option<ValueShape>)
        ensures
            opt_shape_model(r) == local_shape_lookup(self.local_shapes(), name@),
    {
        let mut i: usize = self.locals.len();
        proof {
            assert(self.local_shapes().subrange(0, i as int) =~= self.local_shapes());
        }
        while i > 0
            invariant
                i <= self.locals@.len(),
                local_shape_lookup(self.local_shapes(), name@) == local_shape_lookup(
                    self.local_shapes().subrange(0, i as int),
                    name@,
                ),
            decreases i,
        {
            let ghost pre = self.local_shapes().subrange(0, i as int);
            proof {
                assert(pre.drop_last() =~= self.local_shapes().subrange(0, i - 1));
                assert(pre.last() == (self.locals@[i - 1].0@, opt_shape_model(self.locals@[i - 1].2)));
            }
            if str_eq(self.locals[i - 1].0.as_str(), name) {
                return match &self.locals[i - 1].2 {
                    Some(shape) => Some(shape.duplicate()),
                    None => None,
                };
            }
            i = i - 1;
        }
        None
    }

    /// The number of the next register to hand out.
    pub fn next_register_value(&self) -> (r: u32)
        ensures
            r == self.next_register(),
    {
        self.next_register
    }

    /// How many local bindings are in scope.
    pub fn local_count(&self) -> (r: usize)
        ensures
            r == self.locals().len(),
    {
        self.locals.len()
    }

    /// Each binding has one recorded shape.
    pub proof fn lemma_local_shapes_len(&self)
        ensures
            self.local_shapes().len() == self.locals().len(),
    {
    }

    /// Ends the bindings made after the first `count`.
    pub fn drop_locals_from(&mut self, count: usize)
        requires
            count <= old(self).locals().len(),
        ensures
            old(self).wf() ==> final(self).wf(),
            final(self).locals() == old(self).locals().subrange(0, count as int),
            final(self).local_shapes() == old(self).local_shapes().subrange(0, count as int),
            final(self).code() == old(self).code(),
            final(self).next_register() == old(self).next_register(),
            final(self).facts_view() == old(self).facts_view(),
    {
        self.locals.truncate(count);
        assert(self.locals() =~= old(self).locals().subrange(0, count as int));
        assert(self.local_shapes() =~= old(self).local_shapes().subrange(0, count as int));
    }

    /// The offset the next instruction will have.
    pub fn current_offset(&self) -> (r: usize)
        ensures
            r == self.code().len(),
    {
        self.code.len()
    }

    /// A fresh register; fails once every register number is used.
    pub fn alloc_register(&mut self) -> (r: Result<Register, CompileError>)
        ensures
            final(self).code() == old(self).code(),
            final(self).facts_view() == old(self).facts_view(),
            final(self).locals() == old(self).locals(),
            final(self).local_shapes() == old(self).local_shapes(),
            old(self).wf() ==> final(self).wf(),
            match r {
                Ok(reg) => reg.0 == old(self).next_register() && final(self).next_register() == old(self).next_register() + 1,
                Err(e) => e == CompileError::RegisterOverflow && old(self).next_register() == u32::MAX
                    && final(self).next_register() == old(self).next_register(),
            },
    {
        if self.next_register == u32::MAX {
            return Err(CompileError::RegisterOverflow);
        }
        let register = Register(self.next_register);
        self.next_register = self.next_register + 1;
        Ok(register)
    }

    /// Appends an instruction.
    pub fn emit(&mut self, instruction: Instruction)
        ensures
            final(self).code() == old(self).code().push(instruction@),
            final(self).next_register() == old(self).next_register(),
            final(self).facts_view() == old(self).facts_view(),
            final(self).locals() == old(self).locals(),
            final(self).local_shapes() == old(self).local_shapes(),
            old(self).wf() ==> final(self).wf(),
    {
        self.code.push(instruction);
        assert(self.code() =~= old(self).code().push(instruction@));
    }

    /// Appends a jump whose target is patched later; returns its offset.
    pub fn emit_jump(&mut self) -> (r: usize)
        ensures
            r == old(self).code().len(),
            final(self).code() == old(self).code().push(InstrModel::Jump(PENDING_TARGET)),
            final(self).next_register() == old(self).next_register(),
            final(self).facts_view() == old(self).facts_view(),
            final(self).locals() == old(self).locals(),
            final(self).local_shapes() == old(self).local_shapes(),
            old(self).wf() ==> final(self).wf(),
    {
        let offset = self.code.len();
        self.emit(Instruction::Jump { target: PENDING_TARGET });
        offset
    }

    /// Appends the step to an iterator's next item, whose jump when there is
    /// none is to be patched later; returns its offset.
    pub fn emit_iter_next(&mut self, iterator: Register, dst: Register) -> (r: usize)
        ensures
            r == old(self).code().len(),
            final(self).code() == old(self).code().push(InstrModel::IterNext(dst, iterator, PENDING_TARGET)),
            final(self).next_register() == old(self).next_register(),
            final(self).facts_view() == old(self).facts_view(),
            final(self).locals() == old(self).locals(),
            final(self).local_shapes() == old(self).local_shapes(),
            old(self).wf() ==> final(self).wf(),
    {
        let offset = self.code.len();
        self.emit(Instruction::IterNext { dst, iterator, target: PENDING_TARGET });
        offset
    }

    /// Appends the step to a range's next number, whose jump when there is
    /// none is to be patched later; returns its offset.
    pub fn emit_range_next(
        &mut self,
        cursor: Register,
        end: Register,
        done: Register,
        inclusive: bool,
        dst: Register,
    ) -> (r: usize)
        ensures
            r == old(self).code().len(),
            final(self).code() == old(self).code().push(
                InstrModel::RangeNext(dst, cursor, end, done, inclusive, PENDING_TARGET),
            ),
            final(self).next_register() == old(self).next_register(),
            final(self).facts_view() == old(self).facts_view(),
            final(self).locals() == old(self).locals(),
            final(self).local_shapes() == old(self).local_shapes(),
            old(self).wf() ==> final(self).wf(),
    {
        let offset = self.code.len();
        self.emit(Instruction::RangeNext { dst, cursor, end, done, inclusive, target: PENDING_TARGET });
        offset
    }

    /// Appends a jump taken when `condition` is false, to be patched later;
    /// returns its offset.
    pub fn emit_jump_if_false(&mut self, condition: Register) -> (r: usize)
        ensures
            r == old(self).code().len(),
            final(self).code() == old(self).code().push(InstrModel::JumpIfFalse(condition, PENDING_TARGET)),
            final(self).next_register() == old(self).next_register(),
            final(self).facts_view() == old(self).facts_view(),
            final(self).locals() == old(self).locals(),
            final(self).local_shapes() == old(self).local_shapes(),
            old(self).wf() ==> final(self).wf(),
    {
        let offset = self.code.len();
        self.emit(Instruction::JumpIfFalse { condition, target: PENDING_TARGET });
        offset
    }

    /// Points the jump at `offset` to `target`.
    pub fn patch_jump(&mut self, offset: usize, target: usize) -> (r: Result<(), CompileError>)
        ensures
            final(self).next_register() == old(self).next_register(),
            final(self).facts_view() == old(self).facts_view(),
            final(self).locals() == old(self).locals(),
            final(self).local_shapes() == old(self).local_shapes(),
            old(self).wf() ==> final(self).wf(),
            match r {
                Ok(()) => offset < old(self).code().len() && final(self).code() == old(self).code().update(
                    offset as int,
                    retarget(old(self).code()[offset as int], target),
                ) && is_jump(old(self).code()[offset as int]),
                Err(e) => e == CompileError::InvalidJump && final(self).code() == old(self).code() && !(offset
                    < old(self).code().len() && is_jump(old(self).code()[offset as int])),
            },
    {
        if offset >= self.code.len() {
            return Err(CompileError::InvalidJump);
        }
        let patched = match &self.code[offset] {
            Instruction::Jump { .. } => Instruction::Jump { target },
            Instruction::JumpIfFalse { condition, .. } => Instruction::JumpIfFalse { condition: *condition, target },
            Instruction::IterNext { dst, iterator, .. } => Instruction::IterNext { dst: *dst, iterator: *iterator, target },
            Instruction::RangeNext { dst, cursor, end, done, inclusive, .. } => Instruction::RangeNext {
                dst: *dst,
                cursor: *cursor,
                end: *end,
                done: *done,
                inclusive: *inclusive,
                target,
            },
            _ => return Err(CompileError::InvalidJump),
        };
        self.code.set(offset, patched);
        assert(self.code() =~= old(self).code().update(offset as int, retarget(old(self).code()[offset as int], target)));
        Ok(())
    }

    /// Loads a constant into `dst`.
    pub fn emit_constant_to(&mut self, dst: Register, constant: Constant)
        ensures
            final(self).code() == old(self).code().push(InstrModel::LoadConst(dst, constant@)),
            final(self).next_register() == old(self).next_register(),
            final(self).facts_view() == old(self).facts_view(),
            final(self).locals() == old(self).locals(),
            final(self).local_shapes() == old(self).local_shapes(),
            old(self).wf() ==> final(self).wf(),
    {
        self.emit(Instruction::LoadConst { dst, constant });
    }

    /// Loads a constant into a fresh register.
    pub fn emit_constant(&mut self, constant: Constant) -> (r: Result<Register, CompileError>)
        ensures
            final(self).facts_view() == old(self).facts_view(),
            final(self).locals() == old(self).locals(),
            final(self).local_shapes() == old(self).local_shapes(),
            old(self).wf() ==> final(self).wf(),
            match r {
                Ok(dst) => dst.0 == old(self).next_register() && final(self).next_register() == old(self).next_register() + 1
                    && final(self).code() == old(self).code().push(InstrModel::LoadConst(dst, constant@)),
                Err(e) => e == CompileError::RegisterOverflow && old(self).next_register() == u32::MAX
                    && final(self).code() == old(self).code() && final(self).next_register() == old(self).next_register(),
            },
    {
        let dst = self.alloc_register()?;
        self.emit_constant_to(dst, constant);
        Ok(dst)
    }

    /// Loads a boolean constant into `dst`.
    pub fn emit_bool_constant_to(&mut self, dst: Register, value: bool)
        ensures
            final(self).code() == old(self).code().push(InstrModel::LoadConst(dst, ConstModel::Bool(value))),
            final(self).next_register() == old(self).next_register(),
            final(self).facts_view() == old(self).facts_view(),
            final(self).locals() == old(self).locals(),
            final(self).local_shapes() == old(self).local_shapes(),
            old(self).wf() ==> final(self).wf(),
    {
        self.emit_constant_to(dst, Constant::Bool(value));
    }

    /// Converts the value in `src` to a boolean by its truthiness, into `dst`.
    pub fn emit_truthy_to_bool(&mut self, dst: Register, src: Register) -> (r: Result<(), CompileError>)
        ensures
            r is Ok,
            final(self).code() == old(self).code().push(InstrModel::Truthy(dst, src)),
            final(self).next_register() == old(self).next_register(),
            final(self).facts_view() == old(self).facts_view(),
            final(self).locals() == old(self).locals(),
            final(self).local_shapes() == old(self).local_shapes(),
            old(self).wf() ==> final(self).wf(),
    {
        self.emit(Instruction::Truthy { dst, src });
        Ok(())
    }

    /// Loads a global by name into `dst`, with its slot when the slot is known.
    pub fn emit_load_global(&mut self, dst: Register, global: String)
        ensures
            final(self).code() == old(self).code().push(
                InstrModel::LoadGlobal(dst, global@, global_slot_of(old(self).facts_view().global_slots@, global@)),
            ),
            final(self).next_register() == old(self).next_register(),
            final(self).facts_view() == old(self).facts_view(),
            final(self).locals() == old(self).locals(),
            final(self).local_shapes() == old(self).local_shapes(),
            old(self).wf() ==> final(self).wf(),
    {
        let slot = global_slot(&self.facts.global_slots, global.as_str());
        self.emit(Instruction::LoadGlobal { dst, global, slot });
    }

    /// Whether some declaration has this type name.
    pub fn is_declared_script_type(&self, name: &str) -> (r: bool)
        ensures
            r == declared_type_names(self.facts_view().type_symbols@).contains(name@),
    {
        let mut i: usize = 0;
        while i < self.facts.type_symbols.len()
            invariant
                i <= self.facts.type_symbols.len(),
                forall|k: int| 0 <= k < i ==> (#[trigger] self.facts.type_symbols@[k]).1@ != name@,
            decreases self.facts.type_symbols.len() - i,
        {
            if str_eq(self.facts.type_symbols[i].1.as_str(), name) {
                return true;
            }
            i = i + 1;
        }
        false
    }

    /// The type name a declaration number maps to.
    pub fn declaration_type_symbol(&self, declaration: u32) -> (r: Option<String>)
        ensures
            match r {
                Some(t) => type_symbol_of(self.facts_view().type_symbols@, declaration) == Some(t@),
                None => type_symbol_of(self.facts_view().type_symbols@, declaration) is None,
            },
    {
        type_symbol(&self.facts.type_symbols, declaration)
    }

    /// The type a pattern path resolves to through its declaration.
    pub fn type_symbol_for_pattern(&self, path: &[String]) -> (r: Option<String>)
        ensures
            match r {
                Some(t) => pattern_type_symbol(self.facts_view(), string_views(path@)) == Some(t@),
                None => pattern_type_symbol(self.facts_view(), string_views(path@)) is None,
            },
    {
        let declaration = match pattern_declaration(&self.facts.pattern_declarations, path) {
            Some(d) => d,
            None => return None,
        };
        type_symbol(&self.facts.type_symbols, declaration)
    }

    /// The slot of a field of the variant an enum pattern path names.
    pub fn enum_variant_field_slot_for_pattern(&self, path: &[String], field: &str) -> (r: Option<usize>)
        ensures
            match r {
                Some(slot) => pattern_variant_field(self.facts_view(), string_views(path@), field@) matches Some(info)
                    && info.slot == slot,
                None => pattern_variant_field(self.facts_view(), string_views(path@), field@) is None,
            },
    {
        let variant = match enum_variant_path(path) {
            Some((_, v)) => v,
            None => return None,
        };
        let enum_name = match self.type_symbol_for_pattern(path) {
            Some(t) => t,
            None => return None,
        };
        self.facts.script_field_slots.enum_variant(enum_name.as_str(), variant.as_str(), field)
    }

    /// The script type of a field of the variant an enum pattern path names.
    pub fn enum_variant_field_fact(&self, path: &[String], field: &str) -> (r: Option<ScriptTypeFact>)
        ensures
            opt_fact_view(r) == match pattern_variant_field(self.facts_view(), string_views(path@), field@) {
                Some(info) => info.fact,
                None => None,
            },
    {
        let variant = match enum_variant_path(path) {
            Some((_, v)) => v,
            None => return None,
        };
        let enum_name = match self.type_symbol_for_pattern(path) {
            Some(t) => t,
            None => return None,
        };
        self.facts.script_field_slots.enum_variant_field_fact(enum_name.as_str(), variant.as_str(), field)
    }

    /// The runtime type of a field of the variant an enum pattern path names.
    pub fn enum_variant_field_value_type(&self, path: &[String], field: &str) -> (r: Option<RuntimeTypeFact>)
        ensures
            opt_fact_model(r) == match pattern_variant_field(self.facts_view(), string_views(path@), field@) {
                Some(info) => info.value_type,
                None => None,
            },
    {
        let variant = match enum_variant_path(path) {
            Some((_, v)) => v,
            None => return None,
        };
        let enum_name = match self.type_symbol_for_pattern(path) {
            Some(t) => t,
            None => return None,
        };
        self.facts.script_field_slots.enum_variant_field_value_type(enum_name.as_str(), variant.as_str(), field)
    }

    /// Tests the variant tag of `scrutinee` against an enum pattern path;
    /// returns the offsets of the jumps taken when the tag differs.
    pub fn compile_variant_tag_pattern(&mut self, scrutinee: Register, path: &[String]) -> (r: Result<
        Vec<usize>,
        CompileError,
    >)
        ensures
            final(self).facts_view() == old(self).facts_view(),
            final(self).locals() == old(self).locals(),
            final(self).local_shapes() == old(self).local_shapes(),
            old(self).wf() ==> final(self).wf(),
            match r {
                Ok(jumps) => {
                    let condition = Register(old(self).next_register() as u32);
                    &&& pattern_enum_name(old(self).facts_view(), string_views(path@)) is Some
                    &&& final(self).next_register() == old(self).next_register() + 1
                    &&& jumps@.len() == 1 && jumps@[0] == old(self).code().len() + 1
                    &&& final(self).code() == old(self).code().push(
                        InstrModel::EnumTagEqual(
                            condition,
                            scrutinee,
                            pattern_enum_name(old(self).facts_view(), string_views(path@))->0,
                            enum_variant_path_spec(string_views(path@)).unwrap().1,
                        ),
                    ).push(InstrModel::JumpIfFalse(condition, PENDING_TARGET))
                },
                Err(e) => final(self).code() == old(self).code() && final(self).next_register() == old(
                    self,
                ).next_register() && (e == CompileError::UnsupportedSyntax("match pattern") && enum_variant_path_spec(
                    string_views(path@),
                ) is None || e == CompileError::RegisterOverflow && enum_variant_path_spec(string_views(path@)) is Some
                    && old(self).next_register() == u32::MAX),
            },
    {
        let (enum_path, variant) = match enum_variant_path(path) {
            Some(parts) => parts,
            None => return Err(CompileError::UnsupportedSyntax("match pattern")),
        };
        let enum_name = match self.type_symbol_for_pattern(path) {
            Some(t) => t,
            None => enum_path,
        };
        let ghost enum_model = enum_name@;
        let ghost variant_model = variant@;
        assert(pattern_enum_name(old(self).facts_view(), string_views(path@)) == Some(enum_model));
        assert(enum_variant_path_spec(string_views(path@)).unwrap().1 == variant_model);
        let condition = self.alloc_register()?;
        assert(condition == Register(old(self).next_register() as u32));
        self.emit(Instruction::EnumTagEqual { dst: condition, value: scrutinee, enum_name, variant });
        let jump = self.emit_jump_if_false(condition);
        let jumps = vec![jump];
        Ok(jumps)
    }

    /// Reads a field of an enum value matched by a pattern into a fresh
    /// register, by slot when the slot is known.
    pub fn emit_enum_pattern_field_read(&mut self, scrutinee: Register, path: &[String], field: String) -> (r:
        Result<Register, CompileError>)
        ensures
            final(self).facts_view() == old(self).facts_view(),
            final(self).locals() == old(self).locals(),
            final(self).local_shapes() == old(self).local_shapes(),
            old(self).wf() ==> final(self).wf(),
            match r {
                Ok(dst) => dst.0 == old(self).next_register() && final(self).next_register() == old(self).next_register()
                    + 1 && final(self).code() == old(self).code().push(
                    match pattern_variant_field(old(self).facts_view(), string_views(path@), field@) {
                        Some(info) => InstrModel::GetEnumSlot(dst, scrutinee, field@, info.slot as usize),
                        None => InstrModel::GetEnumField(dst, scrutinee, field@),
                    },
                ),
                Err(e) => e == CompileError::RegisterOverflow && old(self).next_register() == u32::MAX
                    && final(self).code() == old(self).code() && final(self).next_register() == old(self).next_register(),
            },
    {
        let dst = self.alloc_register()?;
        match self.enum_variant_field_slot_for_pattern(path, field.as_str()) {
            Some(slot) => self.emit(Instruction::GetEnumSlot { dst, value: scrutinee, field, slot }),
            None => self.emit(Instruction::GetEnumField { dst, value: scrutinee, field }),
        }
        Ok(dst)
    }

    /// Reads an element of a tuple value matched by a pattern into a fresh register.
    pub fn emit_tuple_pattern_field_read(&mut self, scrutinee: Register, index: usize) -> (r: Result<
        Register,
        CompileError,
    >)
        ensures
            final(self).facts_view() == old(self).facts_view(),
            final(self).locals() == old(self).locals(),
            final(self).local_shapes() == old(self).local_shapes(),
            old(self).wf() ==> final(self).wf(),
            match r {
                Ok(dst) => dst.0 == old(self).next_register() && final(self).next_register() == old(self).next_register()
                    + 1 && final(self).code() == old(self).code().push(InstrModel::GetTupleField(dst, scrutinee, index)),
                Err(e) => e == CompileError::RegisterOverflow && old(self).next_register() == u32::MAX
                    && final(self).code() == old(self).code() && final(self).next_register() == old(self).next_register(),
            },
    {
        let dst = self.alloc_register()?;
        self.emit(Instruction::GetTupleField { dst, value: scrutinee, index });
        Ok(dst)
    }

    /// How an index on a host value of `receiver_type` addresses: by position
    /// when the capability's key type is `i64`, by key otherwise.
    pub fn host_index_dynamic_kind(&self, receiver_type: Option<&str>) -> (r: DynamicHostPathPart)
        ensures
            r == match receiver_type {
                Some(t) => if self.facts_view().options@.host_index_capabilities.dom().contains(t@) {
                    match self.facts_view().options@.host_index_capabilities[t@].key_type {
                        Some(k) => dynamic_part_spec(k),
                        None => DynamicHostPathPart::Key,
                    }
                } else {
                    DynamicHostPathPart::Key
                },
                None => DynamicHostPathPart::Key,
            },
    {
        match receiver_type {
            Some(t) => match self.facts.options.host_index_capability(t) {
                Some(capability) => match &capability.key_type {
                    Some(k) => dynamic_host_path_part(k.as_str()),
                    None => DynamicHostPathPart::Key,
                },
                None => DynamicHostPathPart::Key,
            },
            None => DynamicHostPathPart::Key,
        }
    }

    /// The type of the values an index on a host value of `receiver_type` yields.
    pub fn host_index_value_type(&self, receiver_type: Option<&str>) -> (r: Option<String>)
        ensures
            match r {
                Some(v) => receiver_type matches Some(t) && self.facts_view().options@.host_index_capabilities.dom().contains(t@)
                    && self.facts_view().options@.host_index_capabilities[t@].value_type == Some(v@),
                None => !(receiver_type matches Some(t) && self.facts_view().options@.host_index_capabilities.dom().contains(t@)
                    && self.facts_view().options@.host_index_capabilities[t@].value_type is Some),
            },
    {
        match receiver_type {
            Some(t) => match self.facts.options.host_index_capability(t) {
                Some(capability) => match &capability.value_type {
                    Some(v) => Some(v.clone()),
                    None => None,
                },
                None => None,
            },
            None => None,
        }
    }

    /// The record shape of the record type `name` refers to: one field per
    /// field of the type, each holding the record shape of the field's script
    /// type, or else the shape of its runtime type, or else the unknown shape.
    pub fn record_shape_for_type(&self, name: &str) -> (r: Option<RecordShape>)
        ensures
            opt_record_model(r) == record_shape_spec(self.facts_view().script_field_slots, name@, Seq::empty()),
    {
        let visiting: Vec<String> = Vec::new();
        proof {
            assert(string_views(visiting@) =~= Seq::<Seq<char>>::empty());
        }
        self.record_shape_for_type_inner(name, &visiting)
    }

    /// As `record_shape_for_type`, but nothing for a type already being
    /// visited; the types of nested records are visited in turn.
    pub fn record_shape_for_type_inner(&self, name: &str, visiting: &Vec<String>) -> (r: Option<RecordShape>)
        ensures
            opt_record_model(r) == record_shape_spec(
                self.facts_view().script_field_slots,
                name@,
                string_views(visiting@),
            ),
        decreases unvisited(self.facts_view().script_field_slots.fact_paths(), string_views(visiting@)) + (if self.facts_view().script_field_slots.fact_paths().contains(name@) {
            0int
        } else {
            1int
        }),
    {
        let ghost s = self.facts.script_field_slots;
        let ghost m = s@;
        let ghost u = s.fact_paths();
        let mut k: usize = 0;
        while k < visiting.len()
            invariant
                k <= visiting.len(),
                forall|t: int| 0 <= t < k ==> (#[trigger] visiting@[t])@ != name@,
            decreases visiting.len() - k,
        {
            if str_eq(visiting[k].as_str(), name) {
                proof {
                    assert(string_views(visiting@)[k as int] == name@);
                }
                return None;
            }
            k = k + 1;
        }
        proof {
            assert(!string_views(visiting@).contains(name@)) by {
                if string_views(visiting@).contains(name@) {
                    let t = choose|t: int| 0 <= t < string_views(visiting@).len() && string_views(visiting@)[t] == name@;
                    assert(visiting@[t]@ == name@);
                }
            }
        }
        let mut extended: Vec<String> = Vec::new();
        let mut c: usize = 0;
        while c < visiting.len()
            invariant
                c <= visiting.len(),
                extended@.len() == c,
                forall|t: int| 0 <= t < c ==> (#[trigger] extended@[t])@ == visiting@[t]@,
            decreases visiting.len() - c,
        {
            extended.push(visiting[c].clone());
            c = c + 1;
        }
        extended.push(name.to_owned());
        proof {
            assert(string_views(extended@) =~= string_views(visiting@).push(name@)) by {
                assert forall|t: int| 0 <= t < extended@.len() implies string_views(extended@)[t]
                    == string_views(visiting@).push(name@)[t] by {
                    if t < visiting@.len() {
                        assert(extended@[t]@ == visiting@[t]@);
                    }
                }
            }
            lemma_unvisited_push(u, string_views(visiting@), name@);
        }
        let fields = self.facts.script_field_slots.record_fields(name);
        let ghost names = Seq::new(fields@.len(), |t: int| fields@[t].0@);
        proof {
            if let Some(owner) = crate::field_slots::resolve_record_type(m, name@) {
                assert forall|a: int, b: int| 0 <= a < b < names.len() implies crate::text::name_lt(
                    #[trigger] names[a],
                    #[trigger] names[b],
                ) by {
                    assert(crate::text::name_lt(fields@[a].0@, fields@[b].0@));
                }
                assert forall|a: int| 0 <= a < names.len() implies m.records.dom().contains((owner, #[trigger] names[a])) by {
                    assert(m.records.dom().contains((owner, fields@[a].0@)));
                }
                assert forall|g: Seq<char>| #[trigger] m.records.dom().contains((owner, g)) implies names.contains(g) by {
                    let a = choose|a: int| 0 <= a < fields@.len() && (#[trigger] fields@[a]).0@ == g;
                    assert(names[a] == g);
                }
                assert(field_names_listed(m, owner, names));
                lemma_sorted_field_names(m, owner, names);
            }
        }
        if fields.len() == 0 {
            return None;
        }
        let ghost owner = crate::field_slots::resolve_record_type(m, name@)->0;
        let mut pairs: Vec<(String, ValueShape)> = Vec::new();
        let mut i: usize = 0;
        proof {
            assert(crate::record_shapes::pairs_model(pairs@) =~= Seq::<(Seq<char>, ShapeModel)>::empty());
        }
        while i < fields.len()
            invariant
                s == self.facts.script_field_slots,
                m == s@,
                u == s.fact_paths(),
                crate::field_slots::resolve_record_type(m, name@) == Some(owner),
                !string_views(visiting@).contains(name@),
                string_views(extended@) == string_views(visiting@).push(name@),
                unvisited(u, string_views(extended@)) + 1 <= unvisited(u, string_views(visiting@)) + (if u.contains(name@) { 0int } else { 1int }),
                names == Seq::new(fields@.len(), |t: int| fields@[t].0@),
                sorted_field_names(m, owner) == names,
                i <= fields.len(),
                forall|t: int| 0 <= t < fields@.len() ==> m.records.dom().contains((owner, (#[trigger] fields@[t]).0@))
                    && opt_fact_view(fields@[t].1) == m.records[(owner, fields@[t].0@)].fact
                    && opt_fact_model(fields@[t].2) == m.records[(owner, fields@[t].0@)].value_type,
                crate::record_shapes::pairs_model(pairs@) == field_pairs_spec(s, owner, names, i as int, string_views(extended@)),
            decreases fields.len() - i,
        {
            let field = fields[i].0.clone();
            let ghost f = names[i as int];
            let ghost info = m.records[(owner, f)];
            let nested = match &fields[i].1 {
                Some(fact) => {
                    proof {
                        self.facts.script_field_slots.lemma_fact_path_listed(owner, fields@[i as int].0@);
                    }
                    match self.record_shape_for_type_inner(fact.type_path.as_str(), &extended) {
                        Some(rec) => Some(ValueShape::Record(rec)),
                        None => None,
                    }
                },
                None => None,
            };
            let value = match nested {
                Some(v) => v,
                None => match &fields[i].2 {
                    Some(t) => ValueShape::from_runtime_type(t.duplicate()),
                    None => ValueShape::Unknown,
                },
            };
            let ghost before = crate::record_shapes::pairs_model(pairs@);
            pairs.push((field, value));
            proof {
                assert(field_pairs_spec(s, owner, names, i + 1, string_views(extended@)) == field_pairs_spec(
                    s,
                    owner,
                    names,
                    i as int,
                    string_views(extended@),
                ).push((f, field_shape_spec(s, owner, f, string_views(extended@)))));
                assert(value@ == field_shape_spec(s, owner, f, string_views(extended@)));
                assert(crate::record_shapes::pairs_model(pairs@) =~= before.push((f, value@)));
            }
            i = i + 1;
        }
        let ghost pair_models = crate::record_shapes::pairs_model(pairs@);
        let rec = RecordShape::from_field_shapes_with_type(Some(name.to_owned()), pairs);
        Some(rec)
    }

    /// The runtime type of the field reached from the record type `root` by
    /// following `fields`: each field but the last must hold a known script type.
    pub fn schema_record_field_value_type(&self, root: Option<&str>, fields: &[String]) -> (r: Option<
        RuntimeTypeFact,
    >)
        ensures
            opt_fact_model(r) == schema_value_type(
                self.facts_view().script_field_slots@,
                match root {
                    Some(t) => Some(t@),
                    None => None,
                },
                string_views(fields@),
            ),
    {
        let ghost m = self.facts.script_field_slots@;
        let ghost names = string_views(fields@);
        let root_name = match root {
            Some(t) => t,
            None => return None,
        };
        if fields.len() == 0 {
            return None;
        }
        let last = fields.len() - 1;
        let mut current = root_name.to_owned();
        let mut i: usize = 0;
        proof {
            assert(names.drop_last().subrange(0, last as int) =~= names.drop_last());
        }
        while i < last
            invariant
                m == self.facts.script_field_slots@,
                root == Some(root_name),
                names == string_views(fields@),
                last == fields@.len() - 1,
                i <= last,
                walk_field_types(m, root_name@, names.drop_last()) == walk_field_types(
                    m,
                    current@,
                    names.drop_last().subrange(i as int, last as int),
                ),
            decreases last - i,
        {
            let ghost rest = names.drop_last().subrange(i as int, last as int);
            proof {
                assert(rest[0] == fields@[i as int]@);
                assert(rest.drop_first() =~= names.drop_last().subrange(i + 1, last as int));
            }
            match self.facts.script_field_slots.record_field_fact(current.as_str(), fields[i].as_str()) {
                Some(fact) => {
                    current = fact.type_path;
                },
                None => {
                    proof {
                        assert(walk_field_types(m, current@, rest) is None);
                        assert(walk_field_types(m, root_name@, names.drop_last()) is None);
                        assert(schema_value_type(m, Some(root_name@), names) is None);
                    }
                    return None;
                },
            }
            i = i + 1;
        }
        proof {
            assert(names.drop_last().subrange(last as int, last as int).len() == 0);
            assert(names.last() == fields@[last as int]@);
        }
        self.facts.script_field_slots.record_field_value_type(current.as_str(), fields[last].as_str())
    }

    /// The shape of what a built-in method returns.
    pub fn hir_method_result_shape(
        &self,
        receiver: ValueShape,
        method: &str,
        first: Option<ValueShape>,
        callback: Option<ValueShape>,
    ) -> (r: Option<ValueShape>)
        ensures
            crate::record_shapes::opt_shape_model(r) == crate::hir_shapes::method_shape_model(
                receiver@,
                method@,
                crate::record_shapes::opt_shape_model(first),
                crate::record_shapes::opt_shape_model(callback),
            ),
    {
        crate::hir_shapes::hir_method_shape(receiver, method, first, callback)
    }
}

/// The shape of the latest binding of `name`, when one is known.
pub open spec fn local_shape_lookup(shapes: Seq<(Seq<char>, Option<ShapeModel>)>, name: Seq<char>) -> Option<ShapeModel>
    decreases shapes.len(),
{
    if shapes.len() == 0 {
        None
    } else if shapes.last().0 == name {
        shapes.last().1
    } else {
        local_shape_lookup(shapes.drop_last(), name)
    }
}

/// The records of an optional record shape.
pub open spec fn opt_record_model(r: Option<RecordShape>) -> Option<RecordModel> {
    match r {
        Some(r) => Some(r@),
        None => None,
    }
}

/// `names` lists the fields of record type `owner` once each, in name order.
pub open spec fn field_names_listed(m: crate::field_slots::SlotsModel, owner: Seq<char>, names: Seq<Seq<char>>) -> bool {
    &&& crate::record_shapes::names_strictly_sorted(names)
    &&& forall|i: int| 0 <= i < names.len() ==> m.records.dom().contains((owner, #[trigger] names[i]))
    &&& forall|f: Seq<char>| #[trigger] m.records.dom().contains((owner, f)) ==> names.contains(f)
}

/// The names of the fields of record type `owner`, in name order.
pub open spec fn sorted_field_names(m: crate::field_slots::SlotsModel, owner: Seq<char>) -> Seq<Seq<char>> {
    choose|names: Seq<Seq<char>>| field_names_listed(m, owner, names)
}

pub proof fn lemma_sorted_field_names(m: crate::field_slots::SlotsModel, owner: Seq<char>, names: Seq<Seq<char>>)
    requires
        field_names_listed(m, owner, names),
    ensures
        sorted_field_names(m, owner) == names,
{
    let other = sorted_field_names(m, owner);
    assert(field_names_listed(m, owner, other));
    assert forall|i: int| 0 <= i < names.len() implies other.contains(#[trigger] names[i]) by {
        assert(m.records.dom().contains((owner, names[i])));
    }
    assert forall|j: int| 0 <= j < other.len() implies names.contains(#[trigger] other[j]) by {
        assert(m.records.dom().contains((owner, other[j])));
    }
    crate::record_shapes::lemma_sorted_same_elements(names, other);
}

/// The shape a field `f` of record type `owner` holds: the record shape of
/// its script type when one is made, or else the shape of its runtime type,
/// or else the unknown shape.
pub open spec fn field_shape_spec(
    s: crate::field_slots::ScriptFieldSlots,
    owner: Seq<char>,
    f: Seq<char>,
    visiting: Seq<Seq<char>>,
) -> ShapeModel
    decreases unvisited(s.fact_paths(), visiting), 1int,
{
    let info = s@.records[(owner, f)];
    let fallback = match info.value_type {
        Some(t) => shape_from_type(t),
        None => ShapeModel::Unknown,
    };
    match info.fact {
        Some(fa) => if s.fact_paths().contains(fa.type_path) {
            match record_shape_spec(s, fa.type_path, visiting) {
                Some(r) => ShapeModel::Record(r),
                None => fallback,
            }
        } else {
            fallback
        },
        None => fallback,
    }
}

/// The `(name, shape)` pairs of the first `n` of the `names` of `owner`'s fields.
pub open spec fn field_pairs_spec(
    s: crate::field_slots::ScriptFieldSlots,
    owner: Seq<char>,
    names: Seq<Seq<char>>,
    n: int,
    visiting: Seq<Seq<char>>,
) -> Seq<(Seq<char>, ShapeModel)>
    decreases unvisited(s.fact_paths(), visiting), 2int + n,
{
    if n <= 0 || n > names.len() {
        Seq::empty()
    } else {
        field_pairs_spec(s, owner, names, n - 1, visiting).push(
            (names[n - 1], field_shape_spec(s, owner, names[n - 1], visiting)),
        )
    }
}

/// The record shape made for the record type `name` refers to, with the
/// types in `visiting` being made already: none for a type being made, for
/// a name that refers to no record type, or for a type without fields.
pub open spec fn record_shape_spec(
    s: crate::field_slots::ScriptFieldSlots,
    name: Seq<char>,
    visiting: Seq<Seq<char>>,
) -> Option<RecordModel>
    decreases unvisited(s.fact_paths(), visiting) + (if s.fact_paths().contains(name) {
        0int
    } else {
        1int
    }), 0int,
{
    if visiting.contains(name) {
        None
    } else {
        match crate::field_slots::resolve_record_type(s@, name) {
            None => None,
            Some(owner) => {
                let names = sorted_field_names(s@, owner);
                if names.len() == 0 {
                    None
                } else {
                    proof {
                        lemma_unvisited_push(s.fact_paths(), visiting, name);
                    }
                    Some(
                        crate::record_shapes::built_record(
                            Some(name),
                            field_pairs_spec(s, owner, names, names.len() as int, visiting.push(name)),
                        ),
                    )
                }
            },
        }
    }
}

/// How many entries of `u` are not among `v`.
pub open spec fn unvisited<T>(u: Seq<T>, v: Seq<T>) -> nat
    decreases u.len(),
{
    if u.len() == 0 {
        0
    } else {
        unvisited(u.drop_last(), v) + (if v.contains(u.last()) {
            0nat
        } else {
            1nat
        })
    }
}

pub proof fn lemma_unvisited_push<T>(u: Seq<T>, v: Seq<T>, x: T)
    ensures
        unvisited(u, v.push(x)) <= unvisited(u, v),
        u.contains(x) && !v.contains(x) ==> unvisited(u, v.push(x)) < unvisited(u, v),
    decreases u.len(),
{
    if u.len() > 0 {
        lemma_unvisited_push(u.drop_last(), v, x);
        let y = u.last();
        if v.contains(y) {
            let k = choose|k: int| 0 <= k < v.len() && v[k] == y;
            assert(v.push(x)[k] == y);
        }
        if y == x {
            assert(v.push(x)[v.len() as int] == x);
        }
        if u.contains(x) && !v.contains(x) && y != x {
            let k = choose|k: int| 0 <= k < u.len() && u[k] == x;
            assert(u.drop_last()[k] == x);
        }
    }
}

/// The script type reached from `current` by following the fields `path`.
pub open spec fn walk_field_types(m: crate::field_slots::SlotsModel, current: Seq<char>, path: Seq<Seq<char>>) -> Option<
    Seq<char>,
>
    decreases path.len(),
{
    if path.len() == 0 {
        Some(current)
    } else {
        match resolved_record_field(m, current, path[0]) {
            Some(info) => match info.fact {
                Some(fact) => walk_field_types(m, fact.type_path, path.drop_first()),
                None => None,
            },
            None => None,
        }
    }
}

/// The runtime type of the last of `fields`, reached from the record type `root`.
pub open spec fn schema_value_type(
    m: crate::field_slots::SlotsModel,
    root: Option<Seq<char>>,
    fields: Seq<Seq<char>>,
) -> Option<crate::value_types::TypeModel> {
    match root {
        None => None,
        Some(root) => if fields.len() == 0 {
            None
        } else {
            match walk_field_types(m, root, fields.drop_last()) {
                Some(owner) => match resolved_record_field(m, owner, fields.last()) {
                    Some(info) => info.value_type,
                    None => None,
                },
                None => None,
            }
        },
    }
}

/// The register of the latest binding of `name`.
pub open spec fn local_lookup(locals: Seq<(Seq<char>, Register)>, name: Seq<char>) -> Option<Register>
    decreases locals.len(),
{
    if locals.len() == 0 {
        None
    } else if locals.last().0 == name {
        Some(locals.last().1)
    } else {
        local_lookup(locals.drop_last(), name)
    }
}

/// What a lookup finds is one of the bindings.
pub proof fn lemma_local_lookup_member(locals: Seq<(Seq<char>, Register)>, name: Seq<char>)
    ensures
        local_lookup(locals, name) matches Some(reg) ==> exists|i: int| 0 <= i < locals.len() && locals[i].1 == reg,
    decreases locals.len(),
{
    if locals.len() > 0 && locals.last().0 != name {
        lemma_local_lookup_member(locals.drop_last(), name);
        if let Some(reg) = local_lookup(locals, name) {
            let i = choose|i: int| 0 <= i < locals.drop_last().len() && locals.drop_last()[i].1 == reg;
            assert(locals[i].1 == reg);
        }
    } else if locals.len() > 0 {
        assert(locals[locals.len() - 1].1 == locals.last().1);
    }
}

/// A jump with a new target; any other instruction unchanged.
pub open spec fn retarget(i: InstrModel, target: usize) -> InstrModel {
    match i {
        InstrModel::Jump(_) => InstrModel::Jump(target),
        InstrModel::JumpIfFalse(c, _) => InstrModel::JumpIfFalse(c, target),
        InstrModel::IterNext(d, it, _) => InstrModel::IterNext(d, it, target),
        InstrModel::RangeNext(d, c, e, done, inc, _) => InstrModel::RangeNext(d, c, e, done, inc, target),
        other => other,
    }
}

pub open spec fn is_jump(i: InstrModel) -> bool {
    i is Jump || i is JumpIfFalse || i is IterNext || i is RangeNext
}

fn global_slot(slots: &Vec<(String, usize)>, name: &str) -> (r: Option<usize>)
    ensures
        r == global_slot_of(slots@, name@),
{
    let mut i: usize = 0;
    while i < slots.len()
        invariant
            i <= slots.len(),
            forall|k: int| 0 <= k < i ==> (#[trigger] slots@[k]).0@ != name@,
        decreases slots.len() - i,
    {
        if str_eq(slots[i].0.as_str(), name) {
            proof {
                let c = choose|c: int|
                    0 <= c < slots@.len() && (#[trigger] slots@[c]).0@ == name@ && forall|j: int|
                        0 <= j < c ==> (#[trigger] slots@[j]).0@ != name@;
                assert(0 <= i < slots@.len() && slots@[i as int].0@ == name@ && forall|j: int|
                    0 <= j < i ==> (#[trigger] slots@[j]).0@ != name@);
                if c < i {
                } else if c > i {
                    assert(slots@[i as int].0@ != name@);
                }
            }
            return Some(slots[i].1);
        }
        i = i + 1;
    }
    None
}

pub fn type_symbol(symbols: &Vec<(u32, String)>, declaration: u32) -> (r: Option<String>)
    ensures
        match r {
            Some(t) => type_symbol_of(symbols@, declaration) == Some(t@),
            None => type_symbol_of(symbols@, declaration) is None,
        },
{
    let mut i: usize = 0;
    while i < symbols.len()
        invariant
            i <= symbols.len(),
            forall|k: int| 0 <= k < i ==> (#[trigger] symbols@[k]).0 != declaration,
        decreases symbols.len() - i,
    {
        if symbols[i].0 == declaration {
            proof {
                let c = first_symbol_index(symbols@, declaration);
                assert(0 <= i < symbols@.len() && symbols@[i as int].0 == declaration && forall|j: int|
                    0 <= j < i ==> (#[trigger] symbols@[j]).0 != declaration);
                if c > i {
                    assert(symbols@[i as int].0 != declaration);
                }
            }
            return Some(symbols[i].1.clone());
        }
        i = i + 1;
    }
    None
}

fn same_path(a: &Vec<String>, b: &[String]) -> (r: bool)
    ensures
        r == (string_views(a@) == string_views(b@)),
{
    if a.len() != b.len() {
        proof {
            if string_views(a@) == string_views(b@) {
                assert(string_views(a@).len() == string_views(b@).len());
            }
        }
        return false;
    }
    let mut i: usize = 0;
    while i < a.len()
        invariant
            a@.len() == b@.len(),
            i <= a.len(),
            forall|k: int| 0 <= k < i ==> (#[trigger] a@[k])@ == b@[k]@,
        decreases a.len() - i,
    {
        if !str_eq(a[i].as_str(), b[i].as_str()) {
            proof {
                if string_views(a@) == string_views(b@) {
                    assert(string_views(a@)[i as int] == string_views(b@)[i as int]);
                }
            }
            return false;
        }
        i = i + 1;
    }
    assert(string_views(a@) =~= string_views(b@));
    true
}

fn pattern_declaration(entries: &Vec<(Vec<String>, u32)>, path: &[String]) -> (r: Option<u32>)
    ensures
        r == pattern_declaration_of(entries@, string_views(path@)),
{
    let mut i: usize = 0;
    while i < entries.len()
        invariant
            i <= entries.len(),
            forall|k: int| 0 <= k < i ==> string_views((#[trigger] entries@[k]).0@) != string_views(path@),
        decreases entries.len() - i,
    {
        if same_path(&entries[i].0, path) {
            proof {
                let p = string_views(path@);
                let c = choose|c: int|
                    0 <= c < entries@.len() && string_views((#[trigger] entries@[c]).0@) == p && forall|j: int|
                        0 <= j < c ==> string_views((#[trigger] entries@[j]).0@) != p;
                assert(0 <= i < entries@.len() && string_views(entries@[i as int].0@) == p && forall|j: int|
                    0 <= j < i ==> string_views((#[trigger] entries@[j]).0@) != p);
                if c > i {
                    assert(string_views(entries@[i as int].0@) != p);
                }
            }
            return Some(entries[i].1);
        }
        i = i + 1;
    }
    None
}

} // verus!
