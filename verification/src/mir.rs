use vstd::prelude::*;

verus! {

pub type MirFunctionId = u32;

pub type MirBlockId = u32;

pub type MirStatementId = u32;

pub type MirSafepointId = u32;

pub type MirBudgetPoint = u32;

pub type MirLiveValue = u32;

pub type MirDebugLocalId = u32;

/// Where a MIR statement or terminator came from in the source.
#[derive(Clone, Copy, Debug, PartialEq, Eq, Structural)]
pub struct MirSourceOrigin {
    pub start: u32,
    pub end: u32,
}

#[derive(Clone, Copy, Debug, PartialEq, Eq, Structural)]
pub struct MirStatement {
    pub id: MirStatementId,
    pub safepoint: Option<MirSafepointId>,
    pub origin: MirSourceOrigin,
}

/// How a block ends, with the blocks it can go on to.
#[derive(Clone, Debug, PartialEq, Eq)]
pub enum MirTerminatorKind {
    Jump(MirBlockId),
    Branch { then_block: MirBlockId, else_block: MirBlockId },
    Switch { cases: Vec<MirBlockId>, otherwise: MirBlockId },
    GuardBranch { passed: MirBlockId, slow: MirBlockId },
    TrySwitch { continuations: Vec<MirBlockId>, propagate: MirBlockId, invalid: MirBlockId, join: MirBlockId },
    IteratorNext { next: MirBlockId, done: MirBlockId },
    RangeNext { next: MirBlockId, done: MirBlockId },
    AwaitCall { resume: MirBlockId },
    Return,
    TryTypeMismatch,
    Unreachable,
}

#[derive(Clone, Debug, PartialEq, Eq)]
pub struct MirTerminator {
    pub kind: MirTerminatorKind,
    pub safepoint: Option<MirSafepointId>,
    pub origin: MirSourceOrigin,
}

#[derive(Clone, Debug, PartialEq, Eq)]
pub struct MirBasicBlock {
    pub id: MirBlockId,
    pub statements: Vec<MirStatementId>,
    pub terminator: Option<MirTerminator>,
}

/// A function of the mid-level IR: its blocks in order, its statements, and
/// the ids of its locals and of its temporaries, each in order.
#[derive(Clone, Debug, PartialEq, Eq)]
pub struct MirFunction {
    pub entry_block: MirBlockId,
    pub blocks: Vec<MirBasicBlock>,
    pub statements: Vec<MirStatement>,
    pub locals: Vec<u32>,
    pub temps: Vec<u32>,
}

/// The analyses of a function, each a table from an id to what is known there.
#[derive(Clone, Debug, PartialEq, Eq)]
pub struct MirFunctionAnalyses {
    pub budget_statement_before: Vec<(MirStatementId, MirBudgetPoint)>,
    pub budget_terminator_before: Vec<(MirBlockId, MirBudgetPoint)>,
    pub budget_edges: Vec<((MirBlockId, MirBlockId), MirBudgetPoint)>,
    pub statement_live_before: Vec<(MirStatementId, Vec<MirLiveValue>)>,
    pub statement_live_after: Vec<(MirStatementId, Vec<MirLiveValue>)>,
    pub block_live_in: Vec<(MirBlockId, Vec<MirLiveValue>)>,
    pub block_live_out: Vec<(MirBlockId, Vec<MirLiveValue>)>,
    pub debug_statement_before: Vec<(MirStatementId, Vec<MirDebugLocalId>)>,
    pub debug_block_entry: Vec<(MirBlockId, Vec<MirDebugLocalId>)>,
    pub safepoint_live_roots: Vec<(MirSafepointId, Vec<MirLiveValue>)>,
}

/// The value of the first entry of a table with the given key.
pub open spec fn table_get<V>(entries: Seq<(u32, V)>, key: u32) -> Option<V>
    decreases entries.len(),
{
    if entries.len() == 0 {
        None
    } else if entries[0].0 == key {
        Some(entries[0].1)
    } else {
        table_get(entries.drop_first(), key)
    }
}

/// The point of the first entry of an edge table for the edge `from -> to`.
pub open spec fn edge_get(entries: Seq<((u32, u32), u32)>, from: u32, to: u32) -> Option<u32>
    decreases entries.len(),
{
    if entries.len() == 0 {
        None
    } else if entries[0].0 == (from, to) {
        Some(entries[0].1)
    } else {
        edge_get(entries.drop_first(), from, to)
    }
}

/// The value the first entry with the given key holds.
pub fn table_lookup<V>(entries: &Vec<(u32, V)>, key: u32) -> (r: Option<&V>)
    ensures
        match r {
            Some(v) => table_get(entries@, key) == Some(*v),
            None => table_get(entries@, key) is None,
        },
{
    let mut i: usize = 0;
    proof {
        assert(entries@.subrange(0, entries@.len() as int) =~= entries@);
    }
    while i < entries.len()
        invariant
            i <= entries@.len(),
            table_get(entries@, key) == table_get(entries@.subrange(i as int, entries@.len() as int), key),
        decreases entries.len() - i,
    {
        let ghost rest = entries@.subrange(i as int, entries@.len() as int);
        proof {
            assert(rest.drop_first() =~= entries@.subrange(i + 1, entries@.len() as int));
            assert(rest[0] == entries@[i as int]);
        }
        if entries[i].0 == key {
            return Some(&entries[i].1);
        }
        i = i + 1;
    }
    None
}

/// The point the first entry for the edge `from -> to` holds.
pub fn edge_lookup(entries: &Vec<((u32, u32), u32)>, from: u32, to: u32) -> (r: Option<u32>)
    ensures
        r == edge_get(entries@, from, to),
{
    let mut i: usize = 0;
    proof {
        assert(entries@.subrange(0, entries@.len() as int) =~= entries@);
    }
    while i < entries.len()
        invariant
            i <= entries@.len(),
            edge_get(entries@, from, to) == edge_get(entries@.subrange(i as int, entries@.len() as int), from, to),
        decreases entries.len() - i,
    {
        let ghost rest = entries@.subrange(i as int, entries@.len() as int);
        proof {
            assert(rest.drop_first() =~= entries@.subrange(i + 1, entries@.len() as int));
            assert(rest[0] == entries@[i as int]);
        }
        if entries[i].0.0 == from && entries[i].0.1 == to {
            return Some(entries[i].1);
        }
        i = i + 1;
    }
    None
}

/// The first block with the given id.
#[verifier::opaque]
pub open spec fn block_of(f: MirFunction, id: MirBlockId) -> Option<MirBasicBlock> {
    if exists|i: int| 0 <= i < f.blocks@.len() && (#[trigger] f.blocks@[i]).id == id {
        let i = choose|i: int|
            0 <= i < f.blocks@.len() && (#[trigger] f.blocks@[i]).id == id && forall|j: int|
                0 <= j < i ==> (#[trigger] f.blocks@[j]).id != id;
        Some(f.blocks@[i])
    } else {
        None
    }
}

/// The first statement with the given id.
#[verifier::opaque]
pub open spec fn statement_of(f: MirFunction, id: MirStatementId) -> Option<MirStatement> {
    if exists|i: int| 0 <= i < f.statements@.len() && (#[trigger] f.statements@[i]).id == id {
        let i = choose|i: int|
            0 <= i < f.statements@.len() && (#[trigger] f.statements@[i]).id == id && forall|j: int|
                0 <= j < i ==> (#[trigger] f.statements@[j]).id != id;
        Some(f.statements@[i])
    } else {
        None
    }
}

proof fn lemma_first_block(s: Seq<MirBasicBlock>, id: MirBlockId, k: int)
    requires
        0 <= k < s.len(),
        s[k].id == id,
    ensures
        exists|i: int| 0 <= i < s.len() && (#[trigger] s[i]).id == id && forall|j: int| 0 <= j < i ==> (#[trigger] s[j]).id != id,
    decreases k,
{
    if exists|j: int| 0 <= j < k && (#[trigger] s[j]).id == id {
        let j = choose|j: int| 0 <= j < k && (#[trigger] s[j]).id == id;
        lemma_first_block(s, id, j);
    } else {
        assert(forall|j: int| 0 <= j < k ==> (#[trigger] s[j]).id != id);
    }
}

/// The block a block id finds is one of the function's blocks.
pub proof fn lemma_block_of_index(f: MirFunction, id: MirBlockId) -> (i: int)
    requires
        block_of(f, id) is Some,
    ensures
        0 <= i < f.blocks@.len(),
        f.blocks@[i] == block_of(f, id)->0,
{
    reveal(block_of);
    let k = choose|k: int| 0 <= k < f.blocks@.len() && (#[trigger] f.blocks@[k]).id == id;
    lemma_first_block(f.blocks@, id, k);
    choose|i: int|
        0 <= i < f.blocks@.len() && (#[trigger] f.blocks@[i]).id == id && forall|j: int|
            0 <= j < i ==> (#[trigger] f.blocks@[j]).id != id
}

impl MirFunction {
    /// The first block with the given id.
    pub fn block(&self, id: MirBlockId) -> (r: Option<&MirBasicBlock>)
        ensures
            match r {
                Some(b) => block_of(*self, id) == Some(*b),
                None => block_of(*self, id) is None,
            },
    {
        reveal(block_of);
        let mut i: usize = 0;
        while i < self.blocks.len()
            invariant
                i <= self.blocks@.len(),
                forall|j: int| 0 <= j < i ==> (#[trigger] self.blocks@[j]).id != id,
            decreases self.blocks.len() - i,
        {
            if self.blocks[i].id == id {
                proof {
                    reveal(block_of);
                    let k = choose|k: int|
                        0 <= k < self.blocks@.len() && (#[trigger] self.blocks@[k]).id == id && forall|j: int|
                            0 <= j < k ==> (#[trigger] self.blocks@[j]).id != id;
                    assert(k == i) by {
                        if k < i {
                            assert(self.blocks@[k].id != id);
                        }
                        if k > i {
                            assert(self.blocks@[i as int].id != id);
                        }
                    }
                }
                return Some(&self.blocks[i]);
            }
            i = i + 1;
        }
        None
    }

    /// The first statement with the given id.
    pub fn statement(&self, id: MirStatementId) -> (r: Option<&MirStatement>)
        ensures
            match r {
                Some(s) => statement_of(*self, id) == Some(*s),
                None => statement_of(*self, id) is None,
            },
    {
        reveal(statement_of);
        let mut i: usize = 0;
        while i < self.statements.len()
            invariant
                i <= self.statements@.len(),
                forall|j: int| 0 <= j < i ==> (#[trigger] self.statements@[j]).id != id,
            decreases self.statements.len() - i,
        {
            if self.statements[i].id == id {
                proof {
                    reveal(statement_of);
                    let k = choose|k: int|
                        0 <= k < self.statements@.len() && (#[trigger] self.statements@[k]).id == id && forall|j: int|
                            0 <= j < k ==> (#[trigger] self.statements@[j]).id != id;
                    assert(k == i) by {
                        if k < i {
                            assert(self.statements@[k].id != id);
                        }
                        if k > i {
                            assert(self.statements@[i as int].id != id);
                        }
                    }
                }
                return Some(&self.statements[i]);
            }
            i = i + 1;
        }
        None
    }
}

/// The blocks a terminator can go on to, in order.
pub open spec fn successors(kind: MirTerminatorKind) -> Seq<MirBlockId> {
    match kind {
        MirTerminatorKind::Jump(target) => seq![target],
        MirTerminatorKind::Branch { then_block, else_block } => seq![then_block, else_block],
        MirTerminatorKind::Switch { cases, otherwise } => cases@.push(otherwise),
        MirTerminatorKind::GuardBranch { passed, slow } => seq![passed, slow],
        MirTerminatorKind::TrySwitch { continuations, propagate, invalid, join } => continuations@ + seq![
            propagate,
            invalid,
            join,
        ],
        MirTerminatorKind::IteratorNext { next, done } => seq![next, done],
        MirTerminatorKind::RangeNext { next, done } => seq![next, done],
        MirTerminatorKind::AwaitCall { resume } => seq![resume],
        MirTerminatorKind::Return => Seq::empty(),
        MirTerminatorKind::TryTypeMismatch => Seq::empty(),
        MirTerminatorKind::Unreachable => Seq::empty(),
    }
}

/// Whether block `b` is named by the terminator as a place control may go.
pub open spec fn names_target(kind: MirTerminatorKind, b: MirBlockId) -> bool {
    match kind {
        MirTerminatorKind::Jump(target) => b == target,
        MirTerminatorKind::Branch { then_block, else_block } => b == then_block || b == else_block,
        MirTerminatorKind::Switch { cases, otherwise } => cases@.contains(b) || b == otherwise,
        MirTerminatorKind::GuardBranch { passed, slow } => b == passed || b == slow,
        MirTerminatorKind::TrySwitch { continuations, propagate, invalid, join } => continuations@.contains(b) || b
            == propagate || b == invalid || b == join,
        MirTerminatorKind::IteratorNext { next, done } => b == next || b == done,
        MirTerminatorKind::RangeNext { next, done } => b == next || b == done,
        MirTerminatorKind::AwaitCall { resume } => b == resume,
        MirTerminatorKind::Return => false,
        MirTerminatorKind::TryTypeMismatch => false,
        MirTerminatorKind::Unreachable => false,
    }
}

/// A terminator's successors are exactly the blocks it names: each block
/// field (every case of a switch, both the next and the done block of a
/// step) is among them, and nothing else is.
pub proof fn law_successors_are_the_named_blocks(kind: MirTerminatorKind)
    ensures
        forall|b: MirBlockId| #[trigger] successors(kind).contains(b) <==> names_target(kind, b),
{
    assert forall|b: MirBlockId| #[trigger] successors(kind).contains(b) <==> names_target(kind, b) by {
        match kind {
            MirTerminatorKind::Switch { cases, otherwise } => {
                if cases@.contains(b) {
                    let i = choose|i: int| 0 <= i < cases@.len() && cases@[i] == b;
                    assert(successors(kind)[i] == b);
                }
                if b == otherwise {
                    assert(successors(kind)[cases@.len() as int] == b);
                }
                if successors(kind).contains(b) {
                    let i = choose|i: int| 0 <= i < successors(kind).len() && successors(kind)[i] == b;
                    if i < cases@.len() {
                        assert(cases@[i] == b);
                    }
                }
            },
            MirTerminatorKind::TrySwitch { continuations, propagate, invalid, join } => {
                let n = continuations@.len() as int;
                if continuations@.contains(b) {
                    let i = choose|i: int| 0 <= i < n && continuations@[i] == b;
                    assert(successors(kind)[i] == b);
                }
                if b == propagate {
                    assert(successors(kind)[n] == b);
                }
                if b == invalid {
                    assert(successors(kind)[n + 1] == b);
                }
                if b == join {
                    assert(successors(kind)[n + 2] == b);
                }
                if successors(kind).contains(b) {
                    let i = choose|i: int| 0 <= i < successors(kind).len() && successors(kind)[i] == b;
                    if i < n {
                        assert(continuations@[i] == b);
                    }
                }
            },
            MirTerminatorKind::Jump(t) => {
                if b == t {
                    assert(successors(kind)[0] == b);
                }
            },
            MirTerminatorKind::Branch { then_block, else_block } => {
                if b == then_block {
                    assert(successors(kind)[0] == b);
                }
                if b == else_block {
                    assert(successors(kind)[1] == b);
                }
            },
            MirTerminatorKind::GuardBranch { passed, slow } => {
                if b == passed {
                    assert(successors(kind)[0] == b);
                }
                if b == slow {
                    assert(successors(kind)[1] == b);
                }
            },
            MirTerminatorKind::IteratorNext { next, done } => {
                if b == next {
                    assert(successors(kind)[0] == b);
                }
                if b == done {
                    assert(successors(kind)[1] == b);
                }
            },
            MirTerminatorKind::RangeNext { next, done } => {
                if b == next {
                    assert(successors(kind)[0] == b);
                }
                if b == done {
                    assert(successors(kind)[1] == b);
                }
            },
            MirTerminatorKind::AwaitCall { resume } => {
                if b == resume {
                    assert(successors(kind)[0] == b);
                }
            },
            _ => {},
        }
    }
}

/// A copy of a list of ids.
pub fn copy_ids(blocks: &Vec<u32>) -> (r: Vec<u32>)
    ensures
        r@ == blocks@,
{
    let mut r: Vec<u32> = Vec::new();
    let mut i: usize = 0;
    while i < blocks.len()
        invariant
            i <= blocks@.len(),
            r@ == blocks@.subrange(0, i as int),
        decreases blocks.len() - i,
    {
        r.push(blocks[i]);
        i = i + 1;
        proof {
            assert(r@ =~= blocks@.subrange(0, i as int));
        }
    }
    proof {
        assert(blocks@.subrange(0, blocks@.len() as int) =~= blocks@);
    }
    r
}

/// The blocks a terminator can go on to, in order.
pub fn mir_successors(kind: &MirTerminatorKind) -> (r: Vec<MirBlockId>)
    ensures
        r@ == successors(*kind),
{
    match kind {
        MirTerminatorKind::Jump(target) => vec![*target],
        MirTerminatorKind::Branch { then_block, else_block } => vec![*then_block, *else_block],
        MirTerminatorKind::Switch { cases, otherwise } => {
            let mut r = copy_ids(cases);
            r.push(*otherwise);
            r
        },
        MirTerminatorKind::GuardBranch { passed, slow } => vec![*passed, *slow],
        MirTerminatorKind::TrySwitch { continuations, propagate, invalid, join } => {
            let mut r = copy_ids(continuations);
            r.push(*propagate);
            r.push(*invalid);
            r.push(*join);
            proof {
                assert(r@ =~= continuations@ + seq![*propagate, *invalid, *join]);
            }
            r
        },
        MirTerminatorKind::IteratorNext { next, done } => vec![*next, *done],
        MirTerminatorKind::RangeNext { next, done } => vec![*next, *done],
        MirTerminatorKind::AwaitCall { resume } => vec![*resume],
        MirTerminatorKind::Return => Vec::new(),
        MirTerminatorKind::TryTypeMismatch => Vec::new(),
        MirTerminatorKind::Unreachable => Vec::new(),
    }
}

} // verus!
