use vstd::prelude::*;

use crate::mir::{
    block_of, copy_ids, edge_get, edge_lookup, mir_successors, statement_of, successors, table_get, table_lookup,
    MirBasicBlock, MirBlockId, MirBudgetPoint, MirFunction, MirFunctionAnalyses, MirFunctionId, MirLiveValue,
    MirSafepointId, MirSourceOrigin, MirStatementId, MirTerminator, MirTerminatorKind,
};

verus! {

/// Where a budget point is charged.
#[derive(Clone, Copy, Debug, PartialEq, Eq, Structural)]
pub enum MirBudgetSite {
    StatementBefore(MirStatementId),
    TerminatorBefore(MirBlockId),
    Edge { from: MirBlockId, to: MirBlockId },
}

#[derive(Clone, Copy, Debug, PartialEq, Eq, Structural)]
pub struct SelectedBudgetCoverage {
    pub site: MirBudgetSite,
    pub point: MirBudgetPoint,
}

#[derive(Clone, Debug, PartialEq, Eq)]
pub struct SelectedSafepointCoverage {
    pub safepoint: MirSafepointId,
    pub live_roots: Vec<MirLiveValue>,
}

#[derive(Clone, Copy, Debug, PartialEq, Eq, Structural)]
pub struct SelectedExitCoverage {
    pub target: MirBlockId,
    pub budget: Option<MirBudgetPoint>,
}

#[derive(Clone, Copy, Debug, PartialEq, Eq, Structural)]
pub enum SelectedSourcePointKind {
    Statement(MirStatementId),
    Terminator(MirBlockId),
}

#[derive(Clone, Copy, Debug, PartialEq, Eq, Structural)]
pub struct SelectedSourcePoint {
    pub kind: SelectedSourcePointKind,
    pub origin: MirSourceOrigin,
}

#[derive(Clone, Debug, PartialEq, Eq)]
pub struct SelectedStatementLiveness {
    pub statement: MirStatementId,
    pub live_before: Vec<MirLiveValue>,
    pub live_after: Vec<MirLiveValue>,
    pub debug_before: Vec<u32>,
}

/// What lowering a block covers: its statements and terminator, the budget
/// points, safepoints, exits and source points met in order, and the
/// liveness facts the lowering relies on.
#[derive(Clone, Debug, PartialEq, Eq)]
pub struct SelectedCoverage {
    pub function: MirFunctionId,
    pub block: MirBlockId,
    pub statements: Vec<MirStatementId>,
    pub terminator: MirBlockId,
    pub budget: Vec<SelectedBudgetCoverage>,
    pub safepoints: Vec<SelectedSafepointCoverage>,
    pub exits: Vec<SelectedExitCoverage>,
    pub source_points: Vec<SelectedSourcePoint>,
    pub live_in: Vec<MirLiveValue>,
    pub live_out: Vec<MirLiveValue>,
    pub debug_at_entry: Vec<u32>,
    pub statement_liveness: Vec<SelectedStatementLiveness>,
}

/// Why a selection plan does not cover a function's MIR.
#[derive(Debug, PartialEq, Eq)]
pub enum SelectionError {
    MissingAnalysis(MirFunctionId),
    MissingFunctionPlan(MirFunctionId),
    UnexpectedFunctionPlan(MirFunctionId),
    FunctionMismatch { expected: MirFunctionId, actual: MirFunctionId },
    UnitCountOverflow(MirFunctionId),
    UnitCoverageCountMismatch(MirFunctionId),
    MissingBlockEntry { function: MirFunctionId, block: MirBlockId },
    InvalidBlockEntry { function: MirFunctionId, block: MirBlockId },
    MissingBlock { function: MirFunctionId, block: MirBlockId },
    DuplicateBlock { function: MirFunctionId, block: MirBlockId },
    UnitBlockMismatch { function: MirFunctionId, unit: MirBlockId, coverage: MirBlockId },
    StatementCoverageMismatch { function: MirFunctionId, block: MirBlockId },
    TerminatorCoverageMismatch { function: MirFunctionId, block: MirBlockId },
    BudgetCoverageMismatch { function: MirFunctionId, block: MirBlockId },
    SafepointCoverageMismatch { function: MirFunctionId, block: MirBlockId },
    ExitCoverageMismatch { function: MirFunctionId, block: MirBlockId },
    SourceCoverageMismatch { function: MirFunctionId, block: MirBlockId },
    LivenessCoverageMismatch { function: MirFunctionId, block: MirBlockId },
    MissingAnalysisFact { function: MirFunctionId, block: MirBlockId, fact: &'static str },
}

/// The function an error is about.
pub open spec fn error_function(e: SelectionError) -> MirFunctionId {
    match e {
        SelectionError::MissingAnalysis(f) => f,
        SelectionError::MissingFunctionPlan(f) => f,
        SelectionError::UnexpectedFunctionPlan(f) => f,
        SelectionError::FunctionMismatch { expected, .. } => expected,
        SelectionError::UnitCountOverflow(f) => f,
        SelectionError::UnitCoverageCountMismatch(f) => f,
        SelectionError::MissingBlockEntry { function, .. } => function,
        SelectionError::InvalidBlockEntry { function, .. } => function,
        SelectionError::MissingBlock { function, .. } => function,
        SelectionError::DuplicateBlock { function, .. } => function,
        SelectionError::UnitBlockMismatch { function, .. } => function,
        SelectionError::StatementCoverageMismatch { function, .. } => function,
        SelectionError::TerminatorCoverageMismatch { function, .. } => function,
        SelectionError::BudgetCoverageMismatch { function, .. } => function,
        SelectionError::SafepointCoverageMismatch { function, .. } => function,
        SelectionError::ExitCoverageMismatch { function, .. } => function,
        SelectionError::SourceCoverageMismatch { function, .. } => function,
        SelectionError::LivenessCoverageMismatch { function, .. } => function,
        SelectionError::MissingAnalysisFact { function, .. } => function,
    }
}

impl SelectionError {
    /// The function the error is about: for a mismatch, the one expected.
    pub fn function(&self) -> (r: Option<MirFunctionId>)
        ensures
            r == Some(error_function(*self)),
    {
        match self {
            SelectionError::MissingAnalysis(f) => Some(*f),
            SelectionError::MissingFunctionPlan(f) => Some(*f),
            SelectionError::UnexpectedFunctionPlan(f) => Some(*f),
            SelectionError::FunctionMismatch { expected, .. } => Some(*expected),
            SelectionError::UnitCountOverflow(f) => Some(*f),
            SelectionError::UnitCoverageCountMismatch(f) => Some(*f),
            SelectionError::MissingBlockEntry { function, .. } => Some(*function),
            SelectionError::InvalidBlockEntry { function, .. } => Some(*function),
            SelectionError::MissingBlock { function, .. } => Some(*function),
            SelectionError::DuplicateBlock { function, .. } => Some(*function),
            SelectionError::UnitBlockMismatch { function, .. } => Some(*function),
            SelectionError::StatementCoverageMismatch { function, .. } => Some(*function),
            SelectionError::TerminatorCoverageMismatch { function, .. } => Some(*function),
            SelectionError::BudgetCoverageMismatch { function, .. } => Some(*function),
            SelectionError::SafepointCoverageMismatch { function, .. } => Some(*function),
            SelectionError::ExitCoverageMismatch { function, .. } => Some(*function),
            SelectionError::SourceCoverageMismatch { function, .. } => Some(*function),
            SelectionError::LivenessCoverageMismatch { function, .. } => Some(*function),
            SelectionError::MissingAnalysisFact { function, .. } => Some(*function),
        }
    }
}

pub struct SafepointModel {
    pub safepoint: MirSafepointId,
    pub live_roots: Seq<MirLiveValue>,
}

pub struct LivenessModel {
    pub statement: MirStatementId,
    pub live_before: Seq<MirLiveValue>,
    pub live_after: Seq<MirLiveValue>,
    pub debug_before: Seq<u32>,
}

/// The mathematical value of a block's coverage.
pub struct CoverageModel {
    pub function: MirFunctionId,
    pub block: MirBlockId,
    pub statements: Seq<MirStatementId>,
    pub terminator: MirBlockId,
    pub budget: Seq<SelectedBudgetCoverage>,
    pub safepoints: Seq<SafepointModel>,
    pub exits: Seq<SelectedExitCoverage>,
    pub source_points: Seq<SelectedSourcePoint>,
    pub live_in: Seq<MirLiveValue>,
    pub live_out: Seq<MirLiveValue>,
    pub debug_at_entry: Seq<u32>,
    pub statement_liveness: Seq<LivenessModel>,
}

impl View for SelectedSafepointCoverage {
    type V = SafepointModel;

    open spec fn view(&self) -> SafepointModel {
        SafepointModel { safepoint: self.safepoint, live_roots: self.live_roots@ }
    }
}

impl View for SelectedStatementLiveness {
    type V = LivenessModel;

    open spec fn view(&self) -> LivenessModel {
        LivenessModel {
            statement: self.statement,
            live_before: self.live_before@,
            live_after: self.live_after@,
            debug_before: self.debug_before@,
        }
    }
}

pub open spec fn safepoints_model(s: Seq<SelectedSafepointCoverage>) -> Seq<SafepointModel> {
    Seq::new(s.len(), |i: int| s[i]@)
}

pub open spec fn liveness_model(s: Seq<SelectedStatementLiveness>) -> Seq<LivenessModel> {
    Seq::new(s.len(), |i: int| s[i]@)
}

impl View for SelectedCoverage {
    type V = CoverageModel;

    open spec fn view(&self) -> CoverageModel {
        CoverageModel {
            function: self.function,
            block: self.block,
            statements: self.statements@,
            terminator: self.terminator,
            budget: self.budget@,
            safepoints: safepoints_model(self.safepoints@),
            exits: self.exits@,
            source_points: self.source_points@,
            live_in: self.live_in@,
            live_out: self.live_out@,
            debug_at_entry: self.debug_at_entry@,
            statement_liveness: liveness_model(self.statement_liveness@),
        }
    }
}

/// The ids a table entry holds, or none.
pub open spec fn opt_ids(v: Option<Vec<u32>>) -> Seq<u32> {
    match v {
        Some(v) => v@,
        None => Seq::empty(),
    }
}

/// The first fact missing for a statement of block `b`, if any.
pub open spec fn statement_error(
    f: MirFunction,
    a: MirFunctionAnalyses,
    fid: MirFunctionId,
    b: MirBlockId,
    s: MirStatementId,
) -> Option<SelectionError> {
    match statement_of(f, s) {
        None => Some(SelectionError::StatementCoverageMismatch { function: fid, block: b }),
        Some(st) => if (st.safepoint matches Some(sp) && table_get(a.safepoint_live_roots@, sp) is None) {
            Some(SelectionError::MissingAnalysisFact { function: fid, block: b, fact: "safepoint live roots" })
        } else if table_get(a.statement_live_before@, s) is None {
            Some(SelectionError::MissingAnalysisFact { function: fid, block: b, fact: "statement live-before" })
        } else if table_get(a.statement_live_after@, s) is None {
            Some(SelectionError::MissingAnalysisFact { function: fid, block: b, fact: "statement live-after" })
        } else {
            None
        },
    }
}

/// The first fact missing for the statements, in order, if any.
pub open spec fn statements_error(
    f: MirFunction,
    a: MirFunctionAnalyses,
    fid: MirFunctionId,
    b: MirBlockId,
    stmts: Seq<MirStatementId>,
) -> Option<SelectionError>
    decreases stmts.len(),
{
    if stmts.len() == 0 {
        None
    } else {
        match statements_error(f, a, fid, b, stmts.drop_last()) {
            Some(e) => Some(e),
            None => statement_error(f, a, fid, b, stmts.last()),
        }
    }
}

/// The budget points charged before the statements, in order.
pub open spec fn statements_budget(a: MirFunctionAnalyses, stmts: Seq<MirStatementId>) -> Seq<SelectedBudgetCoverage>
    decreases stmts.len(),
{
    if stmts.len() == 0 {
        Seq::empty()
    } else {
        let rest = statements_budget(a, stmts.drop_last());
        match table_get(a.budget_statement_before@, stmts.last()) {
            Some(p) => rest.push(SelectedBudgetCoverage { site: MirBudgetSite::StatementBefore(stmts.last()), point: p }),
            None => rest,
        }
    }
}

/// The safepoints of the statements, in order, with their live roots.
pub open spec fn statements_safepoints(f: MirFunction, a: MirFunctionAnalyses, stmts: Seq<MirStatementId>) -> Seq<
    SafepointModel,
>
    decreases stmts.len(),
{
    if stmts.len() == 0 {
        Seq::empty()
    } else {
        let rest = statements_safepoints(f, a, stmts.drop_last());
        match statement_of(f, stmts.last()) {
            Some(st) => match st.safepoint {
                Some(sp) => rest.push(
                    SafepointModel { safepoint: sp, live_roots: opt_ids(table_get(a.safepoint_live_roots@, sp)) },
                ),
                None => rest,
            },
            None => rest,
        }
    }
}

/// The source point of each statement.
pub open spec fn statements_sources(f: MirFunction, stmts: Seq<MirStatementId>) -> Seq<SelectedSourcePoint> {
    Seq::new(
        stmts.len(),
        |i: int|
            SelectedSourcePoint {
                kind: SelectedSourcePointKind::Statement(stmts[i]),
                origin: statement_of(f, stmts[i])->0.origin,
            },
    )
}

/// The liveness facts of each statement.
pub open spec fn statements_liveness(a: MirFunctionAnalyses, stmts: Seq<MirStatementId>) -> Seq<LivenessModel> {
    Seq::new(
        stmts.len(),
        |i: int|
            LivenessModel {
                statement: stmts[i],
                live_before: opt_ids(table_get(a.statement_live_before@, stmts[i])),
                live_after: opt_ids(table_get(a.statement_live_after@, stmts[i])),
                debug_before: opt_ids(table_get(a.debug_statement_before@, stmts[i])),
            },
    )
}

/// The budget point charged before the terminator of block `b`, if any.
pub open spec fn terminator_budget(a: MirFunctionAnalyses, b: MirBlockId) -> Seq<SelectedBudgetCoverage> {
    match table_get(a.budget_terminator_before@, b) {
        Some(p) => seq![SelectedBudgetCoverage { site: MirBudgetSite::TerminatorBefore(b), point: p }],
        None => Seq::empty(),
    }
}

/// The budget points charged on the edges from `b` to the targets, in order.
pub open spec fn edge_budget(a: MirFunctionAnalyses, b: MirBlockId, targets: Seq<MirBlockId>) -> Seq<
    SelectedBudgetCoverage,
>
    decreases targets.len(),
{
    if targets.len() == 0 {
        Seq::empty()
    } else {
        let rest = edge_budget(a, b, targets.drop_last());
        match edge_get(a.budget_edges@, b, targets.last()) {
            Some(p) => rest.push(
                SelectedBudgetCoverage { site: MirBudgetSite::Edge { from: b, to: targets.last() }, point: p },
            ),
            None => rest,
        }
    }
}

/// The exits from `b` to the targets, each with its edge's budget point.
pub open spec fn exits_of(a: MirFunctionAnalyses, b: MirBlockId, targets: Seq<MirBlockId>) -> Seq<SelectedExitCoverage> {
    Seq::new(
        targets.len(),
        |i: int| SelectedExitCoverage { target: targets[i], budget: edge_get(a.budget_edges@, b, targets[i]) },
    )
}

/// The coverage of block `b` whose statements are `stmts` and whose
/// terminator is `t`, when no fact is missing.
pub open spec fn block_coverage(
    f: MirFunction,
    a: MirFunctionAnalyses,
    fid: MirFunctionId,
    b: MirBlockId,
    stmts: Seq<MirStatementId>,
    t: MirTerminator,
) -> CoverageModel {
    CoverageModel {
        function: fid,
        block: b,
        statements: stmts,
        terminator: b,
        budget: statements_budget(a, stmts) + terminator_budget(a, b) + edge_budget(a, b, successors(t.kind)),
        safepoints: statements_safepoints(f, a, stmts) + terminator_safepoint(a, t),
        exits: exits_of(a, b, successors(t.kind)),
        source_points: statements_sources(f, stmts).push(
            SelectedSourcePoint { kind: SelectedSourcePointKind::Terminator(b), origin: t.origin },
        ),
        live_in: opt_ids(table_get(a.block_live_in@, b)),
        live_out: opt_ids(table_get(a.block_live_out@, b)),
        debug_at_entry: opt_ids(table_get(a.debug_block_entry@, b)),
        statement_liveness: statements_liveness(a, stmts),
    }
}

/// The terminator's safepoint with its live roots, if it has one.
pub open spec fn terminator_safepoint(a: MirFunctionAnalyses, t: MirTerminator) -> Seq<SafepointModel> {
    match t.safepoint {
        Some(sp) => seq![SafepointModel { safepoint: sp, live_roots: opt_ids(table_get(a.safepoint_live_roots@, sp)) }],
        None => Seq::empty(),
    }
}

/// The first fact missing for the terminator and the block itself, if any.
pub open spec fn block_fact_error(a: MirFunctionAnalyses, fid: MirFunctionId, b: MirBlockId, t: MirTerminator) -> Option<
    SelectionError,
> {
    if (t.safepoint matches Some(sp) && table_get(a.safepoint_live_roots@, sp) is None) {
        Some(SelectionError::MissingAnalysisFact { function: fid, block: b, fact: "safepoint live roots" })
    } else if table_get(a.block_live_in@, b) is None {
        Some(SelectionError::MissingAnalysisFact { function: fid, block: b, fact: "block live-in" })
    } else if table_get(a.block_live_out@, b) is None {
        Some(SelectionError::MissingAnalysisFact { function: fid, block: b, fact: "block live-out" })
    } else {
        None
    }
}

/// The coverage of block `b`, or the first fact found missing.
#[verifier::opaque]
pub open spec fn selected_coverage(
    f: MirFunction,
    a: MirFunctionAnalyses,
    fid: MirFunctionId,
    b: MirBlockId,
) -> Result<CoverageModel, SelectionError> {
    match block_of(f, b) {
        None => Err(SelectionError::MissingBlock { function: fid, block: b }),
        Some(block) => match block.terminator {
            None => Err(SelectionError::TerminatorCoverageMismatch { function: fid, block: b }),
            Some(t) => match statements_error(f, a, fid, b, block.statements@) {
                Some(e) => Err(e),
                None => match block_fact_error(a, fid, b, t) {
                    Some(e) => Err(e),
                    None => Ok(block_coverage(f, a, fid, b, block.statements@, t)),
                },
            },
        },
    }
}

/// A missing fact met at some statement is the first one met in the block.
pub proof fn lemma_statements_error_prefix(
    f: MirFunction,
    a: MirFunctionAnalyses,
    fid: MirFunctionId,
    b: MirBlockId,
    stmts: Seq<MirStatementId>,
    n: int,
)
    requires
        0 <= n <= stmts.len(),
        statements_error(f, a, fid, b, stmts.subrange(0, n)) is Some,
    ensures
        statements_error(f, a, fid, b, stmts) == statements_error(f, a, fid, b, stmts.subrange(0, n)),
    decreases stmts.len(),
{
    if n < stmts.len() {
        assert(stmts.drop_last().subrange(0, n) =~= stmts.subrange(0, n));
        lemma_statements_error_prefix(f, a, fid, b, stmts.drop_last(), n);
    } else {
        assert(stmts.subrange(0, n) =~= stmts);
    }
}

/// How `selected_coverage` unfolds for a block that has a terminator.
pub proof fn lemma_selected_coverage(
    f: MirFunction,
    a: MirFunctionAnalyses,
    fid: MirFunctionId,
    b: MirBlockId,
    block: MirBasicBlock,
    t: MirTerminator,
)
    requires
        block_of(f, b) == Some(block),
        block.terminator == Some(t),
    ensures
        selected_coverage(f, a, fid, b) == match statements_error(f, a, fid, b, block.statements@) {
            Some(e) => Err(e),
            None => match block_fact_error(a, fid, b, t) {
                Some(e) => Err(e),
                None => Ok(block_coverage(f, a, fid, b, block.statements@, t)),
            },
        },
{
    reveal(selected_coverage);
}

/// The ids a table entry holds, copied, or the missing-fact error.
pub fn analysis_set(
    function: MirFunctionId,
    block: MirBlockId,
    values: Option<&Vec<u32>>,
    fact: &'static str,
) -> (r: Result<Vec<u32>, SelectionError>)
    ensures
        match values {
            Some(v) => r matches Ok(s) && s@ == v@,
            None => r == Err::<Vec<u32>, SelectionError>(
                SelectionError::MissingAnalysisFact { function, block, fact },
            ),
        },
{
    match values {
        Some(v) => Ok(copy_ids(v)),
        None => Err(SelectionError::MissingAnalysisFact { function, block, fact }),
    }
}

/// The ids a table entry holds, copied, or none.
fn ids_or_empty(values: Option<&Vec<u32>>) -> (r: Vec<u32>)
    ensures
        r@ == match values {
            Some(v) => v@,
            None => Seq::<u32>::empty(),
        },
{
    match values {
        Some(v) => copy_ids(v),
        None => Vec::new(),
    }
}

/// A safepoint with its live roots, or the missing-fact error.
pub fn safepoint_coverage(
    function: MirFunctionId,
    block: MirBlockId,
    analyses: &MirFunctionAnalyses,
    safepoint: MirSafepointId,
) -> (r: Result<SelectedSafepointCoverage, SelectionError>)
    ensures
        match table_get(analyses.safepoint_live_roots@, safepoint) {
            Some(v) => r matches Ok(s) && s@ == (SafepointModel { safepoint, live_roots: v@ }),
            None => r == Err::<SelectedSafepointCoverage, SelectionError>(
                SelectionError::MissingAnalysisFact { function, block, fact: "safepoint live roots" },
            ),
        },
{
    let live_roots = analysis_set(
        function,
        block,
        table_lookup(&analyses.safepoint_live_roots, safepoint),
        "safepoint live roots",
    )?;
    Ok(SelectedSafepointCoverage { safepoint, live_roots })
}

/// What one statement adds to its block's coverage.
struct StatementCoverage {
    budget: Option<SelectedBudgetCoverage>,
    safepoint: Option<SelectedSafepointCoverage>,
    source: SelectedSourcePoint,
    liveness: SelectedStatementLiveness,
}

/// The budget point charged before a statement, as coverage.
pub open spec fn statement_budget_entry(a: MirFunctionAnalyses, s: MirStatementId) -> Option<SelectedBudgetCoverage> {
    match table_get(a.budget_statement_before@, s) {
        Some(p) => Some(SelectedBudgetCoverage { site: MirBudgetSite::StatementBefore(s), point: p }),
        None => None,
    }
}


pub proof fn lemma_statement_step(
    f: MirFunction,
    a: MirFunctionAnalyses,
    fid: MirFunctionId,
    b: MirBlockId,
    prev: Seq<MirStatementId>,
    s: MirStatementId,
)
    ensures
        statements_sources(f, prev.push(s)) == statements_sources(f, prev).push(
            SelectedSourcePoint { kind: SelectedSourcePointKind::Statement(s), origin: statement_of(f, s)->0.origin },
        ),
        statements_liveness(a, prev.push(s)) == statements_liveness(a, prev).push(
            LivenessModel {
                statement: s,
                live_before: opt_ids(table_get(a.statement_live_before@, s)),
                live_after: opt_ids(table_get(a.statement_live_after@, s)),
                debug_before: opt_ids(table_get(a.debug_statement_before@, s)),
            },
        ),
        statements_error(f, a, fid, b, prev.push(s)) == match statements_error(f, a, fid, b, prev) {
            Some(e) => Some(e),
            None => statement_error(f, a, fid, b, s),
        },
        statements_budget(a, prev.push(s)) == match statement_budget_entry(a, s) {
            Some(e) => statements_budget(a, prev).push(e),
            None => statements_budget(a, prev),
        },
        statements_safepoints(f, a, prev.push(s)) == match statement_of(f, s) {
            Some(st) => match st.safepoint {
                Some(sp) => statements_safepoints(f, a, prev).push(
                    SafepointModel { safepoint: sp, live_roots: opt_ids(table_get(a.safepoint_live_roots@, sp)) },
                ),
                None => statements_safepoints(f, a, prev),
            },
            None => statements_safepoints(f, a, prev),
        },
{
    assert(prev.push(s).drop_last() =~= prev);
    assert(statements_sources(f, prev.push(s)) =~= statements_sources(f, prev).push(
        SelectedSourcePoint { kind: SelectedSourcePointKind::Statement(s), origin: statement_of(f, s)->0.origin },
    ));
    assert(statements_liveness(a, prev.push(s)) =~= statements_liveness(a, prev).push(
        LivenessModel {
            statement: s,
            live_before: opt_ids(table_get(a.statement_live_before@, s)),
            live_after: opt_ids(table_get(a.statement_live_after@, s)),
            debug_before: opt_ids(table_get(a.debug_statement_before@, s)),
        },
    ));
}

fn statement_coverage(
    function_id: MirFunctionId,
    function: &MirFunction,
    analyses: &MirFunctionAnalyses,
    block_id: MirBlockId,
    statement_id: MirStatementId,
) -> (r: Result<StatementCoverage, SelectionError>)
    ensures
        match r {
            Err(e) => statement_error(*function, *analyses, function_id, block_id, statement_id) == Some(e),
            Ok(sc) => {
                &&& statement_error(*function, *analyses, function_id, block_id, statement_id) is None
                &&& sc.budget == statement_budget_entry(*analyses, statement_id)
                &&& match statement_of(*function, statement_id)->0.safepoint {
                    Some(sp) => sc.safepoint matches Some(c) && c@ == (SafepointModel {
                        safepoint: sp,
                        live_roots: opt_ids(table_get(analyses.safepoint_live_roots@, sp)),
                    }),
                    None => sc.safepoint is None,
                }
                &&& sc.source == (SelectedSourcePoint {
                    kind: SelectedSourcePointKind::Statement(statement_id),
                    origin: statement_of(*function, statement_id)->0.origin,
                })
                &&& sc.liveness@ == (LivenessModel {
                    statement: statement_id,
                    live_before: opt_ids(table_get(analyses.statement_live_before@, statement_id)),
                    live_after: opt_ids(table_get(analyses.statement_live_after@, statement_id)),
                    debug_before: opt_ids(table_get(analyses.debug_statement_before@, statement_id)),
                })
            },
        },
{
    let statement = match function.statement(statement_id) {
        Some(s) => s,
        None => return Err(SelectionError::StatementCoverageMismatch { function: function_id, block: block_id }),
    };
    let budget = match table_lookup(&analyses.budget_statement_before, statement_id) {
        Some(point) => Some(SelectedBudgetCoverage { site: MirBudgetSite::StatementBefore(statement_id), point: *point }),
        None => None,
    };
    let safepoint = match statement.safepoint {
        Some(safepoint) => Some(safepoint_coverage(function_id, block_id, analyses, safepoint)?),
        None => None,
    };
    let source = SelectedSourcePoint { kind: SelectedSourcePointKind::Statement(statement_id), origin: statement.origin };
    let live_before = analysis_set(
        function_id,
        block_id,
        table_lookup(&analyses.statement_live_before, statement_id),
        "statement live-before",
    )?;
    let live_after = analysis_set(
        function_id,
        block_id,
        table_lookup(&analyses.statement_live_after, statement_id),
        "statement live-after",
    )?;
    let debug_before = ids_or_empty(table_lookup(&analyses.debug_statement_before, statement_id));
    let liveness = SelectedStatementLiveness { statement: statement_id, live_before, live_after, debug_before };
    Ok(StatementCoverage { budget, safepoint, source, liveness })
}

/// The coverage of one block: each statement in order with the budget point
/// charged before it, its safepoint and its liveness, then the terminator,
/// the exits with their edge budget points, and the block's liveness.
pub fn select_coverage(
    function_id: MirFunctionId,
    function: &MirFunction,
    analyses: &MirFunctionAnalyses,
    block_id: MirBlockId,
) -> (r: Result<SelectedCoverage, SelectionError>)
    ensures
        match r {
            Ok(c) => selected_coverage(*function, *analyses, function_id, block_id) == Ok::<
                CoverageModel,
                SelectionError,
            >(c@),
            Err(e) => selected_coverage(*function, *analyses, function_id, block_id) == Err::<
                CoverageModel,
                SelectionError,
            >(e),
        },
{
    let ghost f = *function;
    let ghost a = *analyses;
    let block = match function.block(block_id) {
        Some(b) => b,
        None => {
            proof {
                reveal(selected_coverage);
            }
            return Err(SelectionError::MissingBlock { function: function_id, block: block_id });
        },
    };
    let terminator = match &block.terminator {
        Some(t) => t,
        None => {
            proof {
                reveal(selected_coverage);
            }
            return Err(SelectionError::TerminatorCoverageMismatch { function: function_id, block: block_id });
        },
    };
    let ghost stmts = block.statements@;
    proof {
        lemma_selected_coverage(f, a, function_id, block_id, *block, *terminator);
    }
    let mut budget: Vec<SelectedBudgetCoverage> = Vec::new();
    let mut safepoints: Vec<SelectedSafepointCoverage> = Vec::new();
    let mut source_points: Vec<SelectedSourcePoint> = Vec::new();
    let mut statement_liveness: Vec<SelectedStatementLiveness> = Vec::new();
    let mut i: usize = 0;
    proof {
        assert(stmts.subrange(0, 0) =~= Seq::<u32>::empty());
        assert(statements_sources(f, Seq::empty()) =~= Seq::<SelectedSourcePoint>::empty());
        assert(statements_liveness(a, Seq::empty()) =~= Seq::<LivenessModel>::empty());
        assert(safepoints_model(safepoints@) =~= Seq::<SafepointModel>::empty());
        assert(liveness_model(statement_liveness@) =~= Seq::<LivenessModel>::empty());
    }
    while i < block.statements.len()
        invariant
            f == *function,
            a == *analyses,
            stmts == block.statements@,
            selected_coverage(f, a, function_id, block_id) == match statements_error(f, a, function_id, block_id, stmts) {
                Some(e) => Err(e),
                None => match block_fact_error(a, function_id, block_id, *terminator) {
                    Some(e) => Err(e),
                    None => Ok(block_coverage(f, a, function_id, block_id, stmts, *terminator)),
                },
            },
            i <= stmts.len(),
            statements_error(f, a, function_id, block_id, stmts.subrange(0, i as int)) is None,
            budget@ == statements_budget(a, stmts.subrange(0, i as int)),
            safepoints_model(safepoints@) == statements_safepoints(f, a, stmts.subrange(0, i as int)),
            source_points@ == statements_sources(f, stmts.subrange(0, i as int)),
            liveness_model(statement_liveness@) == statements_liveness(a, stmts.subrange(0, i as int)),
        ensures
            i == stmts.len(),
        decreases stmts.len() - i,
    {
        let statement_id = block.statements[i];
        let ghost prev = stmts.subrange(0, i as int);
        proof {
            assert(stmts.subrange(0, i + 1) =~= prev.push(statement_id));
            lemma_statement_step(f, a, function_id, block_id, prev, statement_id);
        }
        let sc = match statement_coverage(function_id, function, analyses, block_id, statement_id) {
            Ok(sc) => sc,
            Err(e) => {
                proof {
                    lemma_statements_error_prefix(f, a, function_id, block_id, stmts, i + 1);
                }
                return Err(e);
            },
        };
        let StatementCoverage { budget: entry_budget, safepoint, source, liveness } = sc;
        match entry_budget {
            Some(entry) => budget.push(entry),
            None => {},
        }
        let ghost sp_before = safepoints@;
        match safepoint {
            Some(covered) => {
                safepoints.push(covered);
                proof {
                    assert(safepoints_model(safepoints@) =~= safepoints_model(sp_before).push(covered@));
                }
            },
            None => {},
        }
        source_points.push(source);
        let ghost lv_before = statement_liveness@;
        statement_liveness.push(liveness);
        proof {
            assert(liveness_model(statement_liveness@) =~= liveness_model(lv_before).push(liveness@));
        }
        i = i + 1;
    }
    proof {
        assert(stmts.subrange(0, stmts.len() as int) =~= stmts);
    }
    match table_lookup(&analyses.budget_terminator_before, block_id) {
        Some(point) => {
            budget.push(SelectedBudgetCoverage { site: MirBudgetSite::TerminatorBefore(block_id), point: *point });
        },
        None => {},
    }
    proof {
        assert(budget@ =~= statements_budget(a, stmts) + terminator_budget(a, block_id));
    }
    let ghost sp_before = safepoints@;
    match terminator.safepoint {
        Some(safepoint) => {
            let covered = safepoint_coverage(function_id, block_id, analyses, safepoint)?;
            safepoints.push(covered);
            proof {
                assert(safepoints_model(safepoints@) =~= safepoints_model(sp_before).push(covered@));
            }
        },
        None => {},
    }
    proof {
        assert(safepoints_model(safepoints@) =~= statements_safepoints(f, a, stmts) + terminator_safepoint(
            a,
            *terminator,
        ));
    }
    source_points.push(
        SelectedSourcePoint { kind: SelectedSourcePointKind::Terminator(block_id), origin: terminator.origin },
    );
    let (exits, edge_entries) = select_exits(analyses, block_id, &terminator.kind);
    let ghost base_budget = budget@;
    let mut edge_entries = edge_entries;
    budget.append(&mut edge_entries);
    let live_in = analysis_set(
        function_id,
        block_id,
        table_lookup(&analyses.block_live_in, block_id),
        "block live-in",
    )?;
    let live_out = analysis_set(
        function_id,
        block_id,
        table_lookup(&analyses.block_live_out, block_id),
        "block live-out",
    )?;
    let debug_at_entry = ids_or_empty(table_lookup(&analyses.debug_block_entry, block_id));
    let statements = copy_ids(&block.statements);
    let c = SelectedCoverage {
        function: function_id,
        block: block_id,
        statements,
        terminator: block_id,
        budget,
        safepoints,
        exits,
        source_points,
        live_in,
        live_out,
        debug_at_entry,
        statement_liveness,
    };
    proof {
        assert(c@ == block_coverage(f, a, function_id, block_id, stmts, *terminator));
    }
    Ok(c)
}

/// The exits of a terminator, each with its edge's budget point, and the
/// budget points charged on the edges, in order.
fn select_exits(analyses: &MirFunctionAnalyses, block_id: MirBlockId, kind: &MirTerminatorKind) -> (r: (
    Vec<SelectedExitCoverage>,
    Vec<SelectedBudgetCoverage>,
))
    ensures
        r.0@ == exits_of(*analyses, block_id, successors(*kind)),
        r.1@ == edge_budget(*analyses, block_id, successors(*kind)),
{
    let ghost a = *analyses;
    let targets = mir_successors(kind);
    let mut budget: Vec<SelectedBudgetCoverage> = Vec::new();
    let mut exits: Vec<SelectedExitCoverage> = Vec::new();
    let mut j: usize = 0;
    proof {
        assert(targets@.subrange(0, 0) =~= Seq::<u32>::empty());
        assert(exits_of(a, block_id, Seq::empty()) =~= Seq::<SelectedExitCoverage>::empty());
    }
    while j < targets.len()
        invariant
            a == *analyses,
            j <= targets@.len(),
            budget@ == edge_budget(a, block_id, targets@.subrange(0, j as int)),
            exits@ == exits_of(a, block_id, targets@.subrange(0, j as int)),
        decreases targets.len() - j,
    {
        let target = targets[j];
        let ghost prev = targets@.subrange(0, j as int);
        let ghost next = targets@.subrange(0, j + 1);
        proof {
            assert(next.drop_last() =~= prev);
            assert(next.last() == target);
        }
        let edge = edge_lookup(&analyses.budget_edges, block_id, target);
        match edge {
            Some(point) => {
                budget.push(SelectedBudgetCoverage { site: MirBudgetSite::Edge { from: block_id, to: target }, point });
            },
            None => {},
        }
        exits.push(SelectedExitCoverage { target, budget: edge });
        proof {
            assert(exits_of(a, block_id, next) =~= exits_of(a, block_id, prev).push(
                SelectedExitCoverage { target, budget: edge },
            ));
        }
        j = j + 1;
    }
    proof {
        assert(targets@.subrange(0, targets@.len() as int) =~= targets@);
    }
    (exits, budget)
}


/// What the verifier answers for the coverage `c` claimed for block `b`:
/// the block and its terminator must exist, the claimed statements and
/// terminator must be the block's, every fact must be known, and the claimed
/// budget points, safepoints, exits, source points and liveness must be those
/// of the block, checked in that order.
#[verifier::opaque]
pub open spec fn verify_block_outcome(
    f: MirFunction,
    a: MirFunctionAnalyses,
    fid: MirFunctionId,
    b: MirBlockId,
    c: CoverageModel,
) -> Result<(), SelectionError> {
    match block_of(f, b) {
        None => Err(SelectionError::MissingBlock { function: fid, block: b }),
        Some(block) => match block.terminator {
            None => Err(SelectionError::TerminatorCoverageMismatch { function: fid, block: b }),
            Some(t) => if c.statements != block.statements@ {
                Err(SelectionError::StatementCoverageMismatch { function: fid, block: b })
            } else if c.terminator != b {
                Err(SelectionError::TerminatorCoverageMismatch { function: fid, block: b })
            } else {
                match statements_error(f, a, fid, b, block.statements@) {
                    Some(e) => Err(e),
                    None => {
                        let expected = block_coverage(f, a, fid, b, block.statements@, t);
                        if (t.safepoint matches Some(sp) && table_get(a.safepoint_live_roots@, sp) is None) {
                            Err(
                                SelectionError::MissingAnalysisFact {
                                    function: fid,
                                    block: b,
                                    fact: "safepoint live roots",
                                },
                            )
                        } else if c.budget != expected.budget {
                            Err(SelectionError::BudgetCoverageMismatch { function: fid, block: b })
                        } else if c.safepoints != expected.safepoints {
                            Err(SelectionError::SafepointCoverageMismatch { function: fid, block: b })
                        } else if c.exits != expected.exits {
                            Err(SelectionError::ExitCoverageMismatch { function: fid, block: b })
                        } else if c.source_points != expected.source_points {
                            Err(SelectionError::SourceCoverageMismatch { function: fid, block: b })
                        } else if table_get(a.block_live_in@, b) is None {
                            Err(SelectionError::MissingAnalysisFact { function: fid, block: b, fact: "block live-in" })
                        } else if table_get(a.block_live_out@, b) is None {
                            Err(SelectionError::MissingAnalysisFact { function: fid, block: b, fact: "block live-out" })
                        } else if c.live_in != expected.live_in || c.live_out != expected.live_out || c.debug_at_entry
                            != expected.debug_at_entry || c.statement_liveness != expected.statement_liveness {
                            Err(SelectionError::LivenessCoverageMismatch { function: fid, block: b })
                        } else {
                            Ok(())
                        }
                    },
                }
            },
        },
    }
}

/// Whether two lists of ids are the same.
pub fn same_ids(x: &Vec<u32>, y: &Vec<u32>) -> (r: bool)
    ensures
        r == (x@ == y@),
{
    if x.len() != y.len() {
        return false;
    }
    let mut i: usize = 0;
    while i < x.len()
        invariant
            x@.len() == y@.len(),
            i <= x@.len(),
            forall|k: int| 0 <= k < i ==> x@[k] == y@[k],
        decreases x.len() - i,
    {
        if x[i] != y[i] {
            return false;
        }
        i = i + 1;
    }
    proof {
        assert(x@ =~= y@);
    }
    true
}

fn same_budget(x: &Vec<SelectedBudgetCoverage>, y: &Vec<SelectedBudgetCoverage>) -> (r: bool)
    ensures
        r == (x@ == y@),
{
    if x.len() != y.len() {
        return false;
    }
    let mut i: usize = 0;
    while i < x.len()
        invariant
            x@.len() == y@.len(),
            i <= x@.len(),
            forall|k: int| 0 <= k < i ==> x@[k] == y@[k],
        decreases x.len() - i,
    {
        if x[i] != y[i] {
            return false;
        }
        i = i + 1;
    }
    proof {
        assert(x@ =~= y@);
    }
    true
}

fn same_exits(x: &Vec<SelectedExitCoverage>, y: &Vec<SelectedExitCoverage>) -> (r: bool)
    ensures
        r == (x@ == y@),
{
    if x.len() != y.len() {
        return false;
    }
    let mut i: usize = 0;
    while i < x.len()
        invariant
            x@.len() == y@.len(),
            i <= x@.len(),
            forall|k: int| 0 <= k < i ==> x@[k] == y@[k],
        decreases x.len() - i,
    {
        if x[i] != y[i] {
            return false;
        }
        i = i + 1;
    }
    proof {
        assert(x@ =~= y@);
    }
    true
}

fn same_sources(x: &Vec<SelectedSourcePoint>, y: &Vec<SelectedSourcePoint>) -> (r: bool)
    ensures
        r == (x@ == y@),
{
    if x.len() != y.len() {
        return false;
    }
    let mut i: usize = 0;
    while i < x.len()
        invariant
            x@.len() == y@.len(),
            i <= x@.len(),
            forall|k: int| 0 <= k < i ==> x@[k] == y@[k],
        decreases x.len() - i,
    {
        if x[i] != y[i] {
            return false;
        }
        i = i + 1;
    }
    proof {
        assert(x@ =~= y@);
    }
    true
}

fn same_safepoints(x: &Vec<SelectedSafepointCoverage>, y: &Vec<SelectedSafepointCoverage>) -> (r: bool)
    ensures
        r == (safepoints_model(x@) == safepoints_model(y@)),
{
    if x.len() != y.len() {
        proof {
            assert(safepoints_model(x@).len() != safepoints_model(y@).len());
        }
        return false;
    }
    let mut i: usize = 0;
    while i < x.len()
        invariant
            x@.len() == y@.len(),
            i <= x@.len(),
            forall|k: int| 0 <= k < i ==> (#[trigger] x@[k])@ == y@[k]@,
        decreases x.len() - i,
    {
        if x[i].safepoint != y[i].safepoint || !same_ids(&x[i].live_roots, &y[i].live_roots) {
            proof {
                assert(safepoints_model(x@)[i as int] != safepoints_model(y@)[i as int]);
            }
            return false;
        }
        i = i + 1;
    }
    proof {
        assert(safepoints_model(x@) =~= safepoints_model(y@));
    }
    true
}

fn same_liveness(x: &Vec<SelectedStatementLiveness>, y: &Vec<SelectedStatementLiveness>) -> (r: bool)
    ensures
        r == (liveness_model(x@) == liveness_model(y@)),
{
    if x.len() != y.len() {
        proof {
            assert(liveness_model(x@).len() != liveness_model(y@).len());
        }
        return false;
    }
    let mut i: usize = 0;
    while i < x.len()
        invariant
            x@.len() == y@.len(),
            i <= x@.len(),
            forall|k: int| 0 <= k < i ==> (#[trigger] x@[k])@ == y@[k]@,
        decreases x.len() - i,
    {
        if x[i].statement != y[i].statement || !same_ids(&x[i].live_before, &y[i].live_before) || !same_ids(
            &x[i].live_after,
            &y[i].live_after,
        ) || !same_ids(&x[i].debug_before, &y[i].debug_before) {
            proof {
                assert(liveness_model(x@)[i as int] != liveness_model(y@)[i as int]);
            }
            return false;
        }
        i = i + 1;
    }
    proof {
        assert(liveness_model(x@) =~= liveness_model(y@));
    }
    true
}

/// A safepoint with its live roots, or the missing-fact error, as the
/// verifier looks it up.
pub fn verified_safepoint(
    function: MirFunctionId,
    block: MirBlockId,
    analyses: &MirFunctionAnalyses,
    safepoint: MirSafepointId,
) -> (r: Result<SelectedSafepointCoverage, SelectionError>)
    ensures
        match table_get(analyses.safepoint_live_roots@, safepoint) {
            Some(v) => r matches Ok(s) && s@ == (SafepointModel { safepoint, live_roots: v@ }),
            None => r == Err::<SelectedSafepointCoverage, SelectionError>(
                SelectionError::MissingAnalysisFact { function, block, fact: "safepoint live roots" },
            ),
        },
{
    let live_roots = required_set(
        function,
        block,
        table_lookup(&analyses.safepoint_live_roots, safepoint),
        "safepoint live roots",
    )?;
    Ok(SelectedSafepointCoverage { safepoint, live_roots })
}

/// The ids a table entry holds, copied, or the missing-fact error, as the
/// verifier looks them up.
pub fn required_set(
    function: MirFunctionId,
    block: MirBlockId,
    values: Option<&Vec<u32>>,
    fact: &'static str,
) -> (r: Result<Vec<u32>, SelectionError>)
    ensures
        match values {
            Some(v) => r matches Ok(s) && s@ == v@,
            None => r == Err::<Vec<u32>, SelectionError>(
                SelectionError::MissingAnalysisFact { function, block, fact },
            ),
        },
{
    match values {
        Some(v) => Ok(copy_ids(v)),
        None => Err(SelectionError::MissingAnalysisFact { function, block, fact }),
    }
}

/// The facts the verifier expects for one statement.
fn verified_statement(
    function_id: MirFunctionId,
    function: &MirFunction,
    analyses: &MirFunctionAnalyses,
    block_id: MirBlockId,
    statement_id: MirStatementId,
) -> (r: Result<StatementCoverage, SelectionError>)
    ensures
        match r {
            Err(e) => statement_error(*function, *analyses, function_id, block_id, statement_id) == Some(e),
            Ok(sc) => {
                &&& statement_error(*function, *analyses, function_id, block_id, statement_id) is None
                &&& sc.budget == statement_budget_entry(*analyses, statement_id)
                &&& match statement_of(*function, statement_id)->0.safepoint {
                    Some(sp) => sc.safepoint matches Some(c) && c@ == (SafepointModel {
                        safepoint: sp,
                        live_roots: opt_ids(table_get(analyses.safepoint_live_roots@, sp)),
                    }),
                    None => sc.safepoint is None,
                }
                &&& sc.source == (SelectedSourcePoint {
                    kind: SelectedSourcePointKind::Statement(statement_id),
                    origin: statement_of(*function, statement_id)->0.origin,
                })
                &&& sc.liveness@ == (LivenessModel {
                    statement: statement_id,
                    live_before: opt_ids(table_get(analyses.statement_live_before@, statement_id)),
                    live_after: opt_ids(table_get(analyses.statement_live_after@, statement_id)),
                    debug_before: opt_ids(table_get(analyses.debug_statement_before@, statement_id)),
                })
            },
        },
{
    let statement = match function.statement(statement_id) {
        Some(s) => s,
        None => return Err(SelectionError::StatementCoverageMismatch { function: function_id, block: block_id }),
    };
    let budget = match table_lookup(&analyses.budget_statement_before, statement_id) {
        Some(point) => Some(SelectedBudgetCoverage { site: MirBudgetSite::StatementBefore(statement_id), point: *point }),
        None => None,
    };
    let safepoint = match statement.safepoint {
        Some(safepoint) => Some(verified_safepoint(function_id, block_id, analyses, safepoint)?),
        None => None,
    };
    let source = SelectedSourcePoint { kind: SelectedSourcePointKind::Statement(statement_id), origin: statement.origin };
    let live_before = required_set(
        function_id,
        block_id,
        table_lookup(&analyses.statement_live_before, statement_id),
        "statement live-before",
    )?;
    let live_after = required_set(
        function_id,
        block_id,
        table_lookup(&analyses.statement_live_after, statement_id),
        "statement live-after",
    )?;
    let debug_before = ids_or_empty(table_lookup(&analyses.debug_statement_before, statement_id));
    let liveness = SelectedStatementLiveness { statement: statement_id, live_before, live_after, debug_before };
    Ok(StatementCoverage { budget, safepoint, source, liveness })
}

/// Checks the coverage claimed for one block against the block and the
/// function's analyses, computing what it expects on its own.
pub fn verify_block(
    function_id: MirFunctionId,
    function: &MirFunction,
    analyses: &MirFunctionAnalyses,
    block_id: MirBlockId,
    coverage: &SelectedCoverage,
) -> (r: Result<(), SelectionError>)
    ensures
        r == verify_block_outcome(*function, *analyses, function_id, block_id, coverage@),
{
    let ghost f = *function;
    let ghost a = *analyses;
    reveal(verify_block_outcome);
    let block = match function.block(block_id) {
        Some(b) => b,
        None => return Err(SelectionError::MissingBlock { function: function_id, block: block_id }),
    };
    let terminator = match &block.terminator {
        Some(t) => t,
        None => return Err(SelectionError::TerminatorCoverageMismatch { function: function_id, block: block_id }),
    };
    let ghost stmts = block.statements@;
    if !same_ids(&coverage.statements, &block.statements) {
        return Err(SelectionError::StatementCoverageMismatch { function: function_id, block: block_id });
    }
    if coverage.terminator != block_id {
        return Err(SelectionError::TerminatorCoverageMismatch { function: function_id, block: block_id });
    }
    let ghost outcome = verify_block_outcome(f, a, function_id, block_id, coverage@);
    let mut budget: Vec<SelectedBudgetCoverage> = Vec::new();
    let mut safepoints: Vec<SelectedSafepointCoverage> = Vec::new();
    let mut sources: Vec<SelectedSourcePoint> = Vec::new();
    let mut statement_liveness: Vec<SelectedStatementLiveness> = Vec::new();
    let mut i: usize = 0;
    proof {
        assert(stmts.subrange(0, 0) =~= Seq::<u32>::empty());
        assert(statements_sources(f, Seq::empty()) =~= Seq::<SelectedSourcePoint>::empty());
        assert(statements_liveness(a, Seq::empty()) =~= Seq::<LivenessModel>::empty());
        assert(safepoints_model(safepoints@) =~= Seq::<SafepointModel>::empty());
        assert(liveness_model(statement_liveness@) =~= Seq::<LivenessModel>::empty());
    }
    while i < block.statements.len()
        invariant
            f == *function,
            a == *analyses,
            stmts == block.statements@,
            outcome == verify_block_outcome(f, a, function_id, block_id, coverage@),
            outcome == match statements_error(f, a, function_id, block_id, stmts) {
                Some(e) => Err(e),
                None => verify_block_outcome(f, a, function_id, block_id, coverage@),
            },
            i <= stmts.len(),
            statements_error(f, a, function_id, block_id, stmts.subrange(0, i as int)) is None,
            budget@ == statements_budget(a, stmts.subrange(0, i as int)),
            safepoints_model(safepoints@) == statements_safepoints(f, a, stmts.subrange(0, i as int)),
            sources@ == statements_sources(f, stmts.subrange(0, i as int)),
            liveness_model(statement_liveness@) == statements_liveness(a, stmts.subrange(0, i as int)),
        ensures
            i == stmts.len(),
        decreases stmts.len() - i,
    {
        let statement_id = block.statements[i];
        let ghost prev = stmts.subrange(0, i as int);
        proof {
            assert(stmts.subrange(0, i + 1) =~= prev.push(statement_id));
            lemma_statement_step(f, a, function_id, block_id, prev, statement_id);
        }
        let sc = match verified_statement(function_id, function, analyses, block_id, statement_id) {
            Ok(sc) => sc,
            Err(e) => {
                proof {
                    lemma_statements_error_prefix(f, a, function_id, block_id, stmts, i + 1);
                }
                return Err(e);
            },
        };
        let StatementCoverage { budget: entry_budget, safepoint, source, liveness } = sc;
        match entry_budget {
            Some(entry) => budget.push(entry),
            None => {},
        }
        let ghost sp_before = safepoints@;
        match safepoint {
            Some(covered) => {
                safepoints.push(covered);
                proof {
                    assert(safepoints_model(safepoints@) =~= safepoints_model(sp_before).push(covered@));
                }
            },
            None => {},
        }
        sources.push(source);
        let ghost lv_before = statement_liveness@;
        statement_liveness.push(liveness);
        proof {
            assert(liveness_model(statement_liveness@) =~= liveness_model(lv_before).push(liveness@));
        }
        i = i + 1;
    }
    proof {
        assert(stmts.subrange(0, stmts.len() as int) =~= stmts);
    }
    let ghost expected = block_coverage(f, a, function_id, block_id, stmts, *terminator);
    match table_lookup(&analyses.budget_terminator_before, block_id) {
        Some(point) => {
            budget.push(SelectedBudgetCoverage { site: MirBudgetSite::TerminatorBefore(block_id), point: *point });
        },
        None => {},
    }
    let ghost sp_before = safepoints@;
    match terminator.safepoint {
        Some(safepoint) => {
            let covered = verified_safepoint(function_id, block_id, analyses, safepoint)?;
            safepoints.push(covered);
            proof {
                assert(safepoints_model(safepoints@) =~= safepoints_model(sp_before).push(covered@));
            }
        },
        None => {},
    }
    proof {
        assert(safepoints_model(safepoints@) =~= expected.safepoints);
    }
    sources.push(SelectedSourcePoint { kind: SelectedSourcePointKind::Terminator(block_id), origin: terminator.origin });
    let targets = mir_successors(&terminator.kind);
    let ghost base_budget = budget@;
    let mut exits: Vec<SelectedExitCoverage> = Vec::new();
    let mut j: usize = 0;
    proof {
        assert(targets@.subrange(0, 0) =~= Seq::<u32>::empty());
        assert(base_budget + edge_budget(a, block_id, Seq::empty()) =~= base_budget);
        assert(exits_of(a, block_id, Seq::empty()) =~= Seq::<SelectedExitCoverage>::empty());
    }
    while j < targets.len()
        invariant
            a == *analyses,
            j <= targets@.len(),
            budget@ == base_budget + edge_budget(a, block_id, targets@.subrange(0, j as int)),
            exits@ == exits_of(a, block_id, targets@.subrange(0, j as int)),
        decreases targets.len() - j,
    {
        let target = targets[j];
        let ghost prev = targets@.subrange(0, j as int);
        let ghost next = targets@.subrange(0, j + 1);
        proof {
            assert(next.drop_last() =~= prev);
            assert(next.last() == target);
        }
        let edge = edge_lookup(&analyses.budget_edges, block_id, target);
        let ghost before = budget@;
        match edge {
            Some(point) => {
                budget.push(SelectedBudgetCoverage { site: MirBudgetSite::Edge { from: block_id, to: target }, point });
            },
            None => {},
        }
        exits.push(SelectedExitCoverage { target, budget: edge });
        proof {
            assert(budget@ =~= base_budget + edge_budget(a, block_id, next));
            assert(exits_of(a, block_id, next) =~= exits_of(a, block_id, prev).push(
                SelectedExitCoverage { target, budget: edge },
            ));
        }
        j = j + 1;
    }
    proof {
        assert(targets@.subrange(0, targets@.len() as int) =~= targets@);
        assert(budget@ =~= expected.budget);
        assert(sources@ =~= expected.source_points);
    }
    if !same_budget(&coverage.budget, &budget) {
        return Err(SelectionError::BudgetCoverageMismatch { function: function_id, block: block_id });
    }
    if !same_safepoints(&coverage.safepoints, &safepoints) {
        return Err(SelectionError::SafepointCoverageMismatch { function: function_id, block: block_id });
    }
    if !same_exits(&coverage.exits, &exits) {
        return Err(SelectionError::ExitCoverageMismatch { function: function_id, block: block_id });
    }
    if !same_sources(&coverage.source_points, &sources) {
        return Err(SelectionError::SourceCoverageMismatch { function: function_id, block: block_id });
    }
    let live_in = required_set(function_id, block_id, table_lookup(&analyses.block_live_in, block_id), "block live-in")?;
    let live_out = required_set(
        function_id,
        block_id,
        table_lookup(&analyses.block_live_out, block_id),
        "block live-out",
    )?;
    let debug_at_entry = ids_or_empty(table_lookup(&analyses.debug_block_entry, block_id));
    if !same_ids(&coverage.live_in, &live_in) || !same_ids(&coverage.live_out, &live_out) || !same_ids(
        &coverage.debug_at_entry,
        &debug_at_entry,
    ) || !same_liveness(&coverage.statement_liveness, &statement_liveness) {
        return Err(SelectionError::LivenessCoverageMismatch { function: function_id, block: block_id });
    }
    Ok(())
}


/// The coverage `c` with the function and block it names replaced.
pub open spec fn with_owner(c: CoverageModel, fid: MirFunctionId, b: MirBlockId) -> CoverageModel {
    CoverageModel {
        function: fid,
        block: b,
        statements: c.statements,
        terminator: c.terminator,
        budget: c.budget,
        safepoints: c.safepoints,
        exits: c.exits,
        source_points: c.source_points,
        live_in: c.live_in,
        live_out: c.live_out,
        debug_at_entry: c.debug_at_entry,
        statement_liveness: c.statement_liveness,
    }
}

/// The verifier accepts the coverage claimed for a block exactly when it is
/// the coverage the selector makes for that block, apart from the function
/// and block it names, which the function-level check compares. In
/// particular every coverage the selector makes is accepted.
pub proof fn law_verify_block_accepts_exactly_selected(
    f: MirFunction,
    a: MirFunctionAnalyses,
    fid: MirFunctionId,
    b: MirBlockId,
    c: CoverageModel,
)
    ensures
        verify_block_outcome(f, a, fid, b, c) == Ok::<(), SelectionError>(()) <==> selected_coverage(f, a, fid, b)
            == Ok::<CoverageModel, SelectionError>(with_owner(c, fid, b)),
{
    reveal(verify_block_outcome);
    reveal(selected_coverage);
}


#[derive(Clone, Copy, Debug, PartialEq, Eq, Structural)]
pub enum OrdinaryReason {
    NoApprovedRecipe,
}

/// A block lowered instruction by instruction, with why no recipe applied.
#[derive(Clone, Copy, Debug, PartialEq, Eq, Structural)]
pub struct MirUnitRange {
    pub block: MirBlockId,
    pub reason: OrdinaryReason,
}

#[derive(Clone, Copy, Debug, PartialEq, Eq, Structural)]
pub struct SelectedUnitId(pub u32);

/// How a function's blocks are lowered: one unit per block, the unit each
/// block starts at, and the coverage of each unit.
#[derive(Clone, Debug, PartialEq, Eq)]
pub struct SelectedFunctionPlan {
    pub function: MirFunctionId,
    pub units: Vec<MirUnitRange>,
    pub block_entries: Vec<(MirBlockId, SelectedUnitId)>,
    pub coverage: Vec<SelectedCoverage>,
}

pub struct PlanModel {
    pub function: MirFunctionId,
    pub units: Seq<MirUnitRange>,
    pub block_entries: Seq<(MirBlockId, SelectedUnitId)>,
    pub coverage: Seq<CoverageModel>,
}

pub open spec fn coverages_model(s: Seq<SelectedCoverage>) -> Seq<CoverageModel> {
    Seq::new(s.len(), |i: int| s[i]@)
}

impl View for SelectedFunctionPlan {
    type V = PlanModel;

    open spec fn view(&self) -> PlanModel {
        PlanModel {
            function: self.function,
            units: self.units@,
            block_entries: self.block_entries@,
            coverage: coverages_model(self.coverage@),
        }
    }
}

/// The ids of blocks, in order.
pub open spec fn block_ids(blocks: Seq<MirBasicBlock>) -> Seq<MirBlockId> {
    Seq::new(blocks.len(), |i: int| blocks[i].id)
}

/// What the verifier answers for the entry of `block`, the unit at `index`.
pub open spec fn block_entry_outcome(fid: MirFunctionId, p: PlanModel, block: MirBlockId, index: int) -> Result<
    (),
    SelectionError,
> {
    if index > u32::MAX {
        Err(SelectionError::UnitCountOverflow(fid))
    } else {
        match table_get(p.block_entries, block) {
            None => Err(SelectionError::MissingBlockEntry { function: fid, block }),
            Some(actual) => if actual != SelectedUnitId(index as u32) {
                Err(SelectionError::InvalidBlockEntry { function: fid, block })
            } else {
                Ok(())
            },
        }
    }
}

/// Checks that `block` starts at the unit at `index`.
pub fn verify_block_entry(function: MirFunctionId, plan: &SelectedFunctionPlan, block: MirBlockId, index: usize) -> (r:
    Result<(), SelectionError>)
    ensures
        r == block_entry_outcome(function, plan@, block, index as int),
{
    if index > 0xffff_ffffusize {
        return Err(SelectionError::UnitCountOverflow(function));
    }
    let expected = SelectedUnitId(index as u32);
    match table_lookup(&plan.block_entries, block) {
        None => Err(SelectionError::MissingBlockEntry { function, block }),
        Some(actual) => if *actual != expected {
            Err(SelectionError::InvalidBlockEntry { function, block })
        } else {
            Ok(())
        },
    }
}

/// The verifier's answer for the first `n` units, with the blocks they cover.
pub open spec fn units_outcome(
    fid: MirFunctionId,
    f: MirFunction,
    a: MirFunctionAnalyses,
    p: PlanModel,
    n: int,
) -> Result<Seq<MirBlockId>, SelectionError>
    decreases n,
{
    if n <= 0 {
        Ok(Seq::empty())
    } else {
        match units_outcome(fid, f, a, p, n - 1) {
            Err(e) => Err(e),
            Ok(covered) => {
                let unit = p.units[n - 1];
                let c = p.coverage[n - 1];
                if c.function != fid || c.block != unit.block {
                    Err(SelectionError::UnitBlockMismatch { function: fid, unit: unit.block, coverage: c.block })
                } else if covered.contains(unit.block) {
                    Err(SelectionError::DuplicateBlock { function: fid, block: unit.block })
                } else {
                    match verify_block_outcome(f, a, fid, unit.block, c) {
                        Err(e) => Err(e),
                        Ok(()) => match block_entry_outcome(fid, p, unit.block, n - 1) {
                            Err(e) => Err(e),
                            Ok(()) => Ok(covered.push(unit.block)),
                        },
                    }
                }
            },
        }
    }
}

/// What the verifier answers for a function's plan: the plan names the
/// function, has one coverage per unit, each unit's coverage is accepted and
/// its entry recorded, every block is covered once, and no other entry is recorded.
pub open spec fn verify_function_outcome(fid: MirFunctionId, f: MirFunction, a: MirFunctionAnalyses, p: PlanModel) -> Result<
    (),
    SelectionError,
> {
    if p.function != fid {
        Err(SelectionError::FunctionMismatch { expected: fid, actual: p.function })
    } else if p.units.len() != p.coverage.len() {
        Err(SelectionError::UnitCoverageCountMismatch(fid))
    } else {
        match units_outcome(fid, f, a, p, p.units.len() as int) {
            Err(e) => Err(e),
            Ok(covered) => if exists|i: int| 0 <= i < f.blocks@.len() && !covered.contains(#[trigger] f.blocks@[i].id) {
                let i = choose|i: int|
                    0 <= i < f.blocks@.len() && !covered.contains(#[trigger] f.blocks@[i].id) && forall|j: int|
                        0 <= j < i ==> covered.contains(#[trigger] f.blocks@[j].id);
                Err(SelectionError::MissingBlock { function: fid, block: f.blocks@[i].id })
            } else if p.block_entries.len() != covered.len() {
                Err(
                    SelectionError::InvalidBlockEntry {
                        function: fid,
                        block: if exists|k: int| 0 <= k < p.block_entries.len() && !covered.contains(
                            #[trigger] p.block_entries[k].0,
                        ) {
                            p.block_entries[choose|k: int|
                                0 <= k < p.block_entries.len() && !covered.contains(#[trigger] p.block_entries[k].0)
                                    && forall|j: int|
                                    0 <= j < k ==> covered.contains(#[trigger] p.block_entries[j].0)].0
                        } else {
                            f.entry_block
                        },
                    },
                )
            } else {
                Ok(())
            },
        }
    }
}

/// Once the verifier fails at some unit, its answer for the whole plan is that failure.
pub proof fn lemma_units_outcome_err(
    fid: MirFunctionId,
    f: MirFunction,
    a: MirFunctionAnalyses,
    p: PlanModel,
    n: int,
    m: int,
)
    requires
        0 <= n <= m,
        units_outcome(fid, f, a, p, n) is Err,
    ensures
        units_outcome(fid, f, a, p, m) == units_outcome(fid, f, a, p, n),
    decreases m - n,
{
    if n < m {
        lemma_units_outcome_err(fid, f, a, p, n, m - 1);
    }
}

fn contains_block(blocks: &Vec<MirBlockId>, block: MirBlockId) -> (r: bool)
    ensures
        r == blocks@.contains(block),
{
    let mut i: usize = 0;
    while i < blocks.len()
        invariant
            i <= blocks@.len(),
            forall|k: int| 0 <= k < i ==> blocks@[k] != block,
        decreases blocks.len() - i,
    {
        if blocks[i] == block {
            return true;
        }
        i = i + 1;
    }
    false
}

/// Checks a function's plan against the function and its analyses.
pub fn verify_function(
    function_id: MirFunctionId,
    function: &MirFunction,
    analyses: &MirFunctionAnalyses,
    plan: &SelectedFunctionPlan,
) -> (r: Result<(), SelectionError>)
    ensures
        r == verify_function_outcome(function_id, *function, *analyses, plan@),
{
    if plan.function != function_id {
        return Err(SelectionError::FunctionMismatch { expected: function_id, actual: plan.function });
    }
    if plan.units.len() != plan.coverage.len() {
        return Err(SelectionError::UnitCoverageCountMismatch(function_id));
    }
    let ghost p = plan@;
    let mut covered: Vec<MirBlockId> = Vec::new();
    let mut index: usize = 0;
    while index < plan.units.len()
        invariant
            p == plan@,
            p.function == function_id,
            p.units.len() == p.coverage.len(),
            index <= p.units.len(),
            units_outcome(function_id, *function, *analyses, p, index as int) == Ok::<Seq<MirBlockId>, SelectionError>(
                covered@,
            ),
        decreases plan.units.len() - index,
    {
        let range = plan.units[index];
        let coverage = &plan.coverage[index];
        proof {
            assert(p.coverage[index as int] == coverage@);
        }
        proof {
            assert(p.units[index as int] == range);
        }
        if coverage.function != function_id || coverage.block != range.block {
            proof {
                lemma_units_outcome_err(function_id, *function, *analyses, p, index + 1, p.units.len() as int);
            }
            return Err(
                SelectionError::UnitBlockMismatch { function: function_id, unit: range.block, coverage: coverage.block },
            );
        }
        if contains_block(&covered, range.block) {
            proof {
                lemma_units_outcome_err(function_id, *function, *analyses, p, index + 1, p.units.len() as int);
            }
            return Err(SelectionError::DuplicateBlock { function: function_id, block: range.block });
        }
        match verify_block(function_id, function, analyses, range.block, coverage) {
            Ok(()) => {},
            Err(e) => {
                proof {
                    lemma_units_outcome_err(function_id, *function, *analyses, p, index + 1, p.units.len() as int);
                }
                return Err(e);
            },
        }
        match verify_block_entry(function_id, plan, range.block, index) {
            Ok(()) => {},
            Err(e) => {
                proof {
                    lemma_units_outcome_err(function_id, *function, *analyses, p, index + 1, p.units.len() as int);
                }
                return Err(e);
            },
        }
        covered.push(range.block);
        index = index + 1;
    }
    let ghost all = covered@;
    let mut b: usize = 0;
    while b < function.blocks.len()
        invariant
            covered@ == all,
            p == plan@,
            p.function == function_id,
            p.units.len() == p.coverage.len(),
            units_outcome(function_id, *function, *analyses, p, p.units.len() as int) == Ok::<
                Seq<MirBlockId>,
                SelectionError,
            >(all),
            b <= function.blocks@.len(),
            forall|j: int| 0 <= j < b ==> all.contains(#[trigger] function.blocks@[j].id),
        decreases function.blocks.len() - b,
    {
        if !contains_block(&covered, function.blocks[b].id) {
            proof {
                let i = choose|i: int|
                    0 <= i < function.blocks@.len() && !all.contains(#[trigger] function.blocks@[i].id) && forall|j: int|
                        0 <= j < i ==> all.contains(#[trigger] function.blocks@[j].id);
                assert(i == b) by {
                    if i < b {
                        assert(all.contains(function.blocks@[i].id));
                    }
                    if i > b {
                        assert(all.contains(function.blocks@[b as int].id));
                    }
                }
            }
            return Err(SelectionError::MissingBlock { function: function_id, block: function.blocks[b].id });
        }
        b = b + 1;
    }
    if plan.block_entries.len() != covered.len() {
        let mut k: usize = 0;
        while k < plan.block_entries.len()
            invariant
                covered@ == all,
                p == plan@,
                p.function == function_id,
                p.units.len() == p.coverage.len(),
                units_outcome(function_id, *function, *analyses, p, p.units.len() as int) == Ok::<
                    Seq<MirBlockId>,
                    SelectionError,
                >(all),
                forall|j: int| 0 <= j < function.blocks@.len() ==> all.contains(#[trigger] function.blocks@[j].id),
                p.block_entries.len() != all.len(),
                forall|j: int| 0 <= j < k ==> all.contains(#[trigger] p.block_entries[j].0),
            decreases plan.block_entries.len() - k,
        {
            if !contains_block(&covered, plan.block_entries[k].0) {
                proof {
                    let i = choose|i: int|
                        0 <= i < p.block_entries.len() && !all.contains(#[trigger] p.block_entries[i].0) && forall|j: int|
                            0 <= j < i ==> all.contains(#[trigger] p.block_entries[j].0);
                    assert(i == k) by {
                        if i < k {
                            assert(all.contains(p.block_entries[i].0));
                        }
                        if i > k {
                            assert(all.contains(p.block_entries[k as int].0));
                        }
                    }
                }
                return Err(SelectionError::InvalidBlockEntry { function: function_id, block: plan.block_entries[k].0 });
            }
            k = k + 1;
        }
        return Err(SelectionError::InvalidBlockEntry { function: function_id, block: function.entry_block });
    }
    Ok(())
}


/// A map from blocks to units, listed once per block, with `block` set to `unit`.
pub open spec fn entry_insert(s: Seq<(MirBlockId, SelectedUnitId)>, block: MirBlockId, unit: SelectedUnitId) -> Seq<
    (MirBlockId, SelectedUnitId),
> {
    if exists|i: int| 0 <= i < s.len() && (#[trigger] s[i]).0 == block {
        let i = choose|i: int|
            0 <= i < s.len() && (#[trigger] s[i]).0 == block && forall|j: int| 0 <= j < i ==> (#[trigger] s[j]).0 != block;
        s.update(i, (block, unit))
    } else {
        s.push((block, unit))
    }
}

/// The plan the selector makes for the first `n` blocks of a function, or
/// the first failure.
pub open spec fn plan_prefix(fid: MirFunctionId, f: MirFunction, a: MirFunctionAnalyses, n: int) -> Result<
    PlanModel,
    SelectionError,
>
    decreases n,
{
    if n <= 0 {
        Ok(PlanModel { function: fid, units: Seq::empty(), block_entries: Seq::empty(), coverage: Seq::empty() })
    } else {
        match plan_prefix(fid, f, a, n - 1) {
            Err(e) => Err(e),
            Ok(pm) => {
                let block = f.blocks@[n - 1].id;
                if n - 1 > u32::MAX {
                    Err(SelectionError::UnitCountOverflow(fid))
                } else {
                    match selected_coverage(f, a, fid, block) {
                        Err(e) => Err(e),
                        Ok(c) => Ok(
                            PlanModel {
                                function: fid,
                                units: pm.units.push(MirUnitRange { block, reason: OrdinaryReason::NoApprovedRecipe }),
                                block_entries: entry_insert(pm.block_entries, block, SelectedUnitId((n - 1) as u32)),
                                coverage: pm.coverage.push(c),
                            },
                        ),
                    }
                }
            },
        }
    }
}

/// The plan the selector makes for a function: one ordinary unit per block,
/// in order, each with its coverage and its entry.
pub open spec fn selected_plan(fid: MirFunctionId, f: MirFunction, a: MirFunctionAnalyses) -> Result<
    PlanModel,
    SelectionError,
> {
    plan_prefix(fid, f, a, f.blocks@.len() as int)
}

pub proof fn lemma_plan_prefix_err(fid: MirFunctionId, f: MirFunction, a: MirFunctionAnalyses, n: int, m: int)
    requires
        0 <= n <= m,
        plan_prefix(fid, f, a, n) is Err,
    ensures
        plan_prefix(fid, f, a, m) == plan_prefix(fid, f, a, n),
    decreases m - n,
{
    if n < m {
        lemma_plan_prefix_err(fid, f, a, n, m - 1);
    }
}

fn insert_entry(entries: &mut Vec<(MirBlockId, SelectedUnitId)>, block: MirBlockId, unit: SelectedUnitId)
    ensures
        final(entries)@ == entry_insert(old(entries)@, block, unit),
{
    let mut i: usize = 0;
    while i < entries.len()
        invariant
            entries@ == old(entries)@,
            i <= entries@.len(),
            forall|k: int| 0 <= k < i ==> (#[trigger] entries@[k]).0 != block,
        decreases entries.len() - i,
    {
        if entries[i].0 == block {
            proof {
                let j = choose|j: int|
                    0 <= j < entries@.len() && (#[trigger] entries@[j]).0 == block && forall|k: int|
                        0 <= k < j ==> (#[trigger] entries@[k]).0 != block;
                assert(j == i) by {
                    if j < i {
                        assert(entries@[j].0 != block);
                    }
                    if j > i {
                        assert(entries@[i as int].0 != block);
                    }
                }
            }
            entries.set(i, (block, unit));
            return;
        }
        i = i + 1;
    }
    entries.push((block, unit));
}


/// The plan for one function: an ordinary unit per block, in order, each
/// with the block's coverage and the block's entry.
pub fn select_function(function_id: MirFunctionId, function: &MirFunction, analyses: &MirFunctionAnalyses) -> (r:
    Result<SelectedFunctionPlan, SelectionError>)
    ensures
        match r {
            Ok(p) => selected_plan(function_id, *function, *analyses) == Ok::<PlanModel, SelectionError>(p@),
            Err(e) => selected_plan(function_id, *function, *analyses) == Err::<PlanModel, SelectionError>(e),
        },
{
    let ghost f = *function;
    let ghost a = *analyses;
    let mut units: Vec<MirUnitRange> = Vec::new();
    let mut coverage: Vec<SelectedCoverage> = Vec::new();
    let mut block_entries: Vec<(MirBlockId, SelectedUnitId)> = Vec::new();
    let mut i: usize = 0;
    proof {
        assert(coverages_model(coverage@) =~= Seq::<CoverageModel>::empty());
    }
    while i < function.blocks.len()
        invariant
            f == *function,
            a == *analyses,
            i <= f.blocks@.len(),
            plan_prefix(function_id, f, a, i as int) == Ok::<PlanModel, SelectionError>(
                PlanModel {
                    function: function_id,
                    units: units@,
                    block_entries: block_entries@,
                    coverage: coverages_model(coverage@),
                },
            ),
        decreases function.blocks.len() - i,
    {
        let block = function.blocks[i].id;
        if i > 0xffff_ffffusize {
            proof {
                lemma_plan_prefix_err(function_id, f, a, i + 1, f.blocks@.len() as int);
            }
            return Err(SelectionError::UnitCountOverflow(function_id));
        }
        let unit = SelectedUnitId(i as u32);
        units.push(MirUnitRange { block, reason: OrdinaryReason::NoApprovedRecipe });
        let c = match select_coverage(function_id, function, analyses, block) {
            Ok(c) => c,
            Err(e) => {
                proof {
                    lemma_plan_prefix_err(function_id, f, a, i + 1, f.blocks@.len() as int);
                }
                return Err(e);
            },
        };
        let ghost cov_before = coverage@;
        coverage.push(c);
        proof {
            assert(coverages_model(coverage@) =~= coverages_model(cov_before).push(c@));
        }
        insert_entry(&mut block_entries, block, unit);
        i = i + 1;
    }
    Ok(SelectedFunctionPlan { function: function_id, units, block_entries, coverage })
}

/// A table whose first entry with `key` is at `k` gives that entry's value.
pub proof fn lemma_table_get_at<V>(s: Seq<(u32, V)>, key: u32, k: int)
    requires
        0 <= k < s.len(),
        s[k].0 == key,
        forall|j: int| 0 <= j < k ==> (#[trigger] s[j]).0 != key,
    ensures
        table_get(s, key) == Some(s[k].1),
    decreases k,
{
    if k > 0 {
        assert(s[0].0 != key);
        lemma_table_get_at(s.drop_first(), key, k - 1);
    }
}

/// With distinct block ids, the plan for the first `n` blocks has one
/// ordinary unit per block, each block's selected coverage, and each
/// block's entry at its own unit.
pub proof fn lemma_plan_prefix_shape(fid: MirFunctionId, f: MirFunction, a: MirFunctionAnalyses, n: int)
    requires
        0 <= n <= f.blocks@.len(),
        block_ids(f.blocks@).no_duplicates(),
        plan_prefix(fid, f, a, n) is Ok,
    ensures
        ({
            let pm = plan_prefix(fid, f, a, n)->Ok_0;
            &&& pm.function == fid
            &&& pm.units.len() == n
            &&& pm.coverage.len() == n
            &&& n <= u32::MAX + 1
            &&& forall|k: int|
                0 <= k < n ==> (#[trigger] pm.units[k]) == (MirUnitRange {
                    block: f.blocks@[k].id,
                    reason: OrdinaryReason::NoApprovedRecipe,
                })
            &&& forall|k: int|
                0 <= k < n ==> selected_coverage(f, a, fid, f.blocks@[k].id) == Ok::<CoverageModel, SelectionError>(
                    #[trigger] pm.coverage[k],
                )
            &&& pm.block_entries == Seq::new(n as nat, |k: int| (f.blocks@[k].id, SelectedUnitId(k as u32)))
        }),
    decreases n,
{
    let ids = block_ids(f.blocks@);
    if n > 0 {
        if plan_prefix(fid, f, a, n - 1) is Err {
            lemma_plan_prefix_err(fid, f, a, n - 1, n);
        }
        lemma_plan_prefix_shape(fid, f, a, n - 1);
        let prev = plan_prefix(fid, f, a, n - 1)->Ok_0;
        let block = f.blocks@[n - 1].id;
        assert(!(exists|i: int| 0 <= i < prev.block_entries.len() && (#[trigger] prev.block_entries[i]).0 == block))
            by {
            if exists|i: int| 0 <= i < prev.block_entries.len() && (#[trigger] prev.block_entries[i]).0 == block {
                let i = choose|i: int| 0 <= i < prev.block_entries.len() && (#[trigger] prev.block_entries[i]).0 == block;
                assert(ids[i] == ids[n - 1]);
            }
        }
        let pm = plan_prefix(fid, f, a, n)->Ok_0;
        assert(pm.block_entries =~= Seq::new(n as nat, |k: int| (f.blocks@[k].id, SelectedUnitId(k as u32))));
    }
}

/// With the plan's shape as the selector makes it, the verifier accepts the
/// first `n` units and has then covered the first `n` blocks.
proof fn lemma_units_accepted(fid: MirFunctionId, f: MirFunction, a: MirFunctionAnalyses, p: PlanModel, n: int)
    requires
        0 <= n <= f.blocks@.len(),
        block_ids(f.blocks@).no_duplicates(),
        selected_plan(fid, f, a) == Ok::<PlanModel, SelectionError>(p),
    ensures
        units_outcome(fid, f, a, p, n) == Ok::<Seq<MirBlockId>, SelectionError>(block_ids(f.blocks@).subrange(0, n)),
    decreases n,
{
    let ids = block_ids(f.blocks@);
    let len = f.blocks@.len() as int;
    lemma_plan_prefix_shape(fid, f, a, len);
    if n > 0 {
        lemma_units_accepted(fid, f, a, p, n - 1);
        let b = ids[n - 1];
        let c = p.coverage[n - 1];
        assert(p.units[n - 1].block == b);
        assert(selected_coverage(f, a, fid, b) == Ok::<CoverageModel, SelectionError>(c));
        assert(c.function == fid && c.block == b) by {
            reveal(selected_coverage);
        }
        assert(with_owner(c, fid, b) == c);
        law_verify_block_accepts_exactly_selected(f, a, fid, b, c);
        assert(!ids.subrange(0, n - 1).contains(b)) by {
            if ids.subrange(0, n - 1).contains(b) {
                let i = choose|i: int| 0 <= i < n - 1 && #[trigger] ids.subrange(0, n - 1)[i] == b;
                assert(ids[i] == ids[n - 1]);
            }
        }
        assert forall|j: int| 0 <= j < n - 1 implies (#[trigger] p.block_entries[j]).0 != b by {
            assert(p.block_entries[j].0 == ids[j]);
        }
        lemma_table_get_at(p.block_entries, b, n - 1);
        assert(ids.subrange(0, n - 1).push(b) =~= ids.subrange(0, n));
    } else {
        assert(ids.subrange(0, 0) =~= Seq::<MirBlockId>::empty());
    }
}

/// The verifier accepts every plan the selector makes for a function whose
/// blocks have distinct ids.
pub proof fn law_selected_plan_verifies(fid: MirFunctionId, f: MirFunction, a: MirFunctionAnalyses, p: PlanModel)
    requires
        block_ids(f.blocks@).no_duplicates(),
        selected_plan(fid, f, a) == Ok::<PlanModel, SelectionError>(p),
    ensures
        verify_function_outcome(fid, f, a, p) == Ok::<(), SelectionError>(()),
{
    let ids = block_ids(f.blocks@);
    let len = f.blocks@.len() as int;
    lemma_plan_prefix_shape(fid, f, a, len);
    lemma_units_accepted(fid, f, a, p, len);
    assert(ids.subrange(0, len) =~= ids);
    assert forall|i: int| 0 <= i < len implies ids.contains(#[trigger] f.blocks@[i].id) by {
        assert(ids[i] == f.blocks@[i].id);
    }
}


/// The MIR program the backend receives: its functions and their analyses.
#[derive(Debug, PartialEq, Eq)]
pub struct MirBackendHandoff {
    functions: Vec<(MirFunctionId, MirFunction)>,
    analyses: Vec<(MirFunctionId, MirFunctionAnalyses)>,
}

impl MirBackendHandoff {
    /// Every handoff has functions with distinct ids, each with distinct
    /// block ids.
    #[verifier::type_invariant]
    spec fn handoff_inv(self) -> bool {
        handoff_wf(self)
    }

    /// The functions handed over, with their ids.
    pub closed spec fn functions_view(self) -> Seq<(MirFunctionId, MirFunction)> {
        self.functions@
    }

    /// The analyses handed over, by function id.
    pub closed spec fn analyses_view(self) -> Seq<(MirFunctionId, MirFunctionAnalyses)> {
        self.analyses@
    }

    /// A handoff of these functions and analyses; `None` when two functions
    /// share an id or a function has two blocks with one id.
    pub fn new(
        functions: Vec<(MirFunctionId, MirFunction)>,
        analyses: Vec<(MirFunctionId, MirFunctionAnalyses)>,
    ) -> (r: Option<Self>)
        ensures
            r is Some <==> ids_distinct(functions@),
            r matches Some(h) ==> h.functions_view() == functions@ && h.analyses_view() == analyses@,
    {
        if !function_ids_distinct(&functions) {
            return None;
        }
        let mut k: usize = 0;
        while k < functions.len()
            invariant
                k <= functions@.len(),
                function_ids(functions@).no_duplicates(),
                forall|j: int| 0 <= j < k ==> block_ids((#[trigger] functions@[j]).1.blocks@).no_duplicates(),
            decreases functions.len() - k,
        {
            if !block_ids_distinct(&functions[k].1.blocks) {
                return None;
            }
            k = k + 1;
        }
        Some(MirBackendHandoff { functions, analyses })
    }
}

/// Functions with distinct ids, each with distinct block ids.
pub open spec fn ids_distinct(functions: Seq<(MirFunctionId, MirFunction)>) -> bool {
    &&& function_ids(functions).no_duplicates()
    &&& forall|k: int| 0 <= k < functions.len() ==> block_ids((#[trigger] functions[k]).1.blocks@).no_duplicates()
}

fn function_ids_distinct(functions: &Vec<(MirFunctionId, MirFunction)>) -> (r: bool)
    ensures
        r == function_ids(functions@).no_duplicates(),
{
    let ghost ids = function_ids(functions@);
    let mut i: usize = 0;
    while i < functions.len()
        invariant
            ids == function_ids(functions@),
            i <= functions@.len(),
            forall|a: int, b: int| 0 <= a < b < functions@.len() && a < i ==> ids[a] != ids[b],
        decreases functions.len() - i,
    {
        let mut j: usize = i + 1;
        while j < functions.len()
            invariant
                ids == function_ids(functions@),
                i < functions@.len(),
                i + 1 <= j <= functions@.len(),
                forall|a: int, b: int| 0 <= a < b < functions@.len() && a < i ==> ids[a] != ids[b],
                forall|b: int| i < b < j ==> ids[i as int] != ids[b],
            decreases functions.len() - j,
        {
            if functions[i].0 == functions[j].0 {
                assert(ids[i as int] == ids[j as int]);
                return false;
            }
            j = j + 1;
        }
        i = i + 1;
    }
    true
}

fn block_ids_distinct(blocks: &Vec<MirBasicBlock>) -> (r: bool)
    ensures
        r == block_ids(blocks@).no_duplicates(),
{
    let ghost ids = block_ids(blocks@);
    let mut i: usize = 0;
    while i < blocks.len()
        invariant
            ids == block_ids(blocks@),
            i <= blocks@.len(),
            forall|a: int, b: int| 0 <= a < b < blocks@.len() && a < i ==> ids[a] != ids[b],
        decreases blocks.len() - i,
    {
        let mut j: usize = i + 1;
        while j < blocks.len()
            invariant
                ids == block_ids(blocks@),
                i < blocks@.len(),
                i + 1 <= j <= blocks@.len(),
                forall|a: int, b: int| 0 <= a < b < blocks@.len() && a < i ==> ids[a] != ids[b],
                forall|b: int| i < b < j ==> ids[i as int] != ids[b],
            decreases blocks.len() - j,
        {
            if blocks[i].id == blocks[j].id {
                assert(ids[i as int] == ids[j as int]);
                return false;
            }
            j = j + 1;
        }
        i = i + 1;
    }
    true
}

/// The plan of each function of a program.
#[derive(Clone, Debug, PartialEq, Eq)]
pub struct SelectedProgramPlan {
    pub functions: Vec<(MirFunctionId, SelectedFunctionPlan)>,
}

pub open spec fn program_plan_model(s: Seq<(MirFunctionId, SelectedFunctionPlan)>) -> Seq<(MirFunctionId, PlanModel)> {
    Seq::new(s.len(), |i: int| (s[i].0, s[i].1@))
}

impl SelectedProgramPlan {
    /// The plan of a function.
    pub fn function(&self, function: MirFunctionId) -> (r: Option<&SelectedFunctionPlan>)
        ensures
            match r {
                Some(p) => table_get(self.functions@, function) == Some(*p),
                None => table_get(self.functions@, function) is None,
            },
    {
        table_lookup(&self.functions, function)
    }
}

/// A table listed once per key, with `key` set to `value`.
pub open spec fn table_insert<V>(s: Seq<(u32, V)>, key: u32, value: V) -> Seq<(u32, V)> {
    if exists|i: int| 0 <= i < s.len() && (#[trigger] s[i]).0 == key {
        let i = choose|i: int|
            0 <= i < s.len() && (#[trigger] s[i]).0 == key && forall|j: int| 0 <= j < i ==> (#[trigger] s[j]).0 != key;
        s.update(i, (key, value))
    } else {
        s.push((key, value))
    }
}

/// The plans the selector makes for the first `n` functions, or the first failure.
pub open spec fn program_prefix(h: MirBackendHandoff, n: int) -> Result<Seq<(MirFunctionId, PlanModel)>, SelectionError>
    decreases n,
{
    if n <= 0 {
        Ok(Seq::empty())
    } else {
        match program_prefix(h, n - 1) {
            Err(e) => Err(e),
            Ok(plans) => {
                let (fid, f) = h.functions_view()[n - 1];
                match table_get(h.analyses_view(), fid) {
                    None => Err(SelectionError::MissingAnalysis(fid)),
                    Some(a) => match selected_plan(fid, f, a) {
                        Err(e) => Err(e),
                        Ok(p) => Ok(table_insert(plans, fid, p)),
                    },
                }
            },
        }
    }
}

pub proof fn lemma_program_prefix_err(h: MirBackendHandoff, n: int, m: int)
    requires
        0 <= n <= m,
        program_prefix(h, n) is Err,
    ensures
        program_prefix(h, m) == program_prefix(h, n),
    decreases m - n,
{
    if n < m {
        lemma_program_prefix_err(h, n, m - 1);
    }
}

/// The index of the first entry with the given key.
fn first_key_index<V>(entries: &Vec<(u32, V)>, key: u32) -> (r: Option<usize>)
    ensures
        match r {
            Some(i) => i < entries@.len() && entries@[i as int].0 == key && forall|j: int|
                0 <= j < i ==> (#[trigger] entries@[j]).0 != key,
            None => forall|j: int| 0 <= j < entries@.len() ==> (#[trigger] entries@[j]).0 != key,
        },
{
    let mut i: usize = 0;
    while i < entries.len()
        invariant
            i <= entries@.len(),
            forall|k: int| 0 <= k < i ==> (#[trigger] entries@[k]).0 != key,
        decreases entries.len() - i,
    {
        if entries[i].0 == key {
            return Some(i);
        }
        i = i + 1;
    }
    None
}

fn insert_plan(entries: &mut Vec<(MirFunctionId, SelectedFunctionPlan)>, function: MirFunctionId, plan: SelectedFunctionPlan)
    ensures
        program_plan_model(final(entries)@) == table_insert(program_plan_model(old(entries)@), function, plan@),
{
    let ghost before = program_plan_model(entries@);
    let ghost plan_model = plan@;
    proof {
        assert forall|j: int| 0 <= j < before.len() implies (#[trigger] before[j]).0 == entries@[j].0 by {}
    }
    match first_key_index(entries, function) {
        Some(i) => {
            proof {
                assert(before[i as int].0 == function);
                let j = choose|j: int|
                    0 <= j < before.len() && (#[trigger] before[j]).0 == function && forall|k: int|
                        0 <= k < j ==> (#[trigger] before[k]).0 != function;
                assert(j == i) by {
                    if j < i {
                        assert(entries@[j].0 != function);
                    }
                    if j > i {
                        assert(before[i as int].0 == function);
                    }
                }
            }
            entries.set(i, (function, plan));
            proof {
                assert(program_plan_model(entries@) =~= before.update(i as int, (function, plan_model)));
            }
        },
        None => {
            entries.push((function, plan));
            proof {
                assert(program_plan_model(entries@) =~= before.push((function, plan_model)));
            }
        },
    }
}

/// The plan for a program: for each function in order, its analyses and its plan.
pub fn select(handoff: &MirBackendHandoff) -> (r: Result<SelectedProgramPlan, SelectionError>)
    ensures
        match r {
            Ok(p) => program_prefix(*handoff, handoff.functions_view().len() as int) == Ok::<
                Seq<(MirFunctionId, PlanModel)>,
                SelectionError,
            >(program_plan_model(p.functions@)),
            Err(e) => program_prefix(*handoff, handoff.functions_view().len() as int) == Err::<
                Seq<(MirFunctionId, PlanModel)>,
                SelectionError,
            >(e),
        },
        handoff_wf(*handoff),
{
    proof {
        use_type_invariant(handoff);
    }
    let ghost h = *handoff;
    let mut functions: Vec<(MirFunctionId, SelectedFunctionPlan)> = Vec::new();
    let mut i: usize = 0;
    proof {
        assert(program_plan_model(functions@) =~= Seq::<(MirFunctionId, PlanModel)>::empty());
    }
    while i < handoff.functions.len()
        invariant
            h == *handoff,
            handoff_wf(h),
            i <= h.functions_view().len(),
            program_prefix(h, i as int) == Ok::<Seq<(MirFunctionId, PlanModel)>, SelectionError>(
                program_plan_model(functions@),
            ),
        decreases handoff.functions.len() - i,
    {
        let function_id = handoff.functions[i].0;
        let function = &handoff.functions[i].1;
        let analyses = match table_lookup(&handoff.analyses, function_id) {
            Some(a) => a,
            None => {
                proof {
                    lemma_program_prefix_err(h, i + 1, h.functions_view().len() as int);
                }
                return Err(SelectionError::MissingAnalysis(function_id));
            },
        };
        let plan = match select_function(function_id, function, analyses) {
            Ok(p) => p,
            Err(e) => {
                proof {
                    lemma_program_prefix_err(h, i + 1, h.functions_view().len() as int);
                }
                return Err(e);
            },
        };
        insert_plan(&mut functions, function_id, plan);
        i = i + 1;
    }
    Ok(SelectedProgramPlan { functions })
}

/// The verifier's answer for the first `n` functions of the program.
pub open spec fn functions_outcome(h: MirBackendHandoff, plans: Seq<(MirFunctionId, PlanModel)>, n: int) -> Result<
    (),
    SelectionError,
>
    decreases n,
{
    if n <= 0 {
        Ok(())
    } else {
        match functions_outcome(h, plans, n - 1) {
            Err(e) => Err(e),
            Ok(()) => {
                let (fid, f) = h.functions_view()[n - 1];
                match table_get(h.analyses_view(), fid) {
                    None => Err(SelectionError::MissingAnalysis(fid)),
                    Some(a) => match table_get(plans, fid) {
                        None => Err(SelectionError::MissingFunctionPlan(fid)),
                        Some(p) => verify_function_outcome(fid, f, a, p),
                    },
                }
            },
        }
    }
}

/// What the verifier answers for a program's plan: it plans only functions
/// of the program, and every function of the program has analyses and a
/// plan that the function-level check accepts.
pub open spec fn verify_outcome(h: MirBackendHandoff, plans: Seq<(MirFunctionId, PlanModel)>) -> Result<(), SelectionError> {
    if exists|k: int| 0 <= k < plans.len() && table_get(h.functions_view(), (#[trigger] plans[k]).0) is None {
        let k = choose|k: int|
            0 <= k < plans.len() && table_get(h.functions_view(), (#[trigger] plans[k]).0) is None && forall|j: int|
                0 <= j < k ==> table_get(h.functions_view(), (#[trigger] plans[j]).0) is Some;
        Err(SelectionError::UnexpectedFunctionPlan(plans[k].0))
    } else {
        functions_outcome(h, plans, h.functions_view().len() as int)
    }
}

pub proof fn lemma_functions_outcome_err(h: MirBackendHandoff, plans: Seq<(MirFunctionId, PlanModel)>, n: int, m: int)
    requires
        0 <= n <= m,
        functions_outcome(h, plans, n) is Err,
    ensures
        functions_outcome(h, plans, m) == functions_outcome(h, plans, n),
    decreases m - n,
{
    if n < m {
        lemma_functions_outcome_err(h, plans, n, m - 1);
    }
}

/// Checks a program's plan against the program and its analyses.
pub fn verify(handoff: &MirBackendHandoff, plan: &SelectedProgramPlan) -> (r: Result<(), SelectionError>)
    ensures
        r == verify_outcome(*handoff, program_plan_model(plan.functions@)),
        handoff_wf(*handoff),
{
    proof {
        use_type_invariant(handoff);
    }
    let ghost h = *handoff;
    let ghost plans = program_plan_model(plan.functions@);
    let mut k: usize = 0;
    while k < plan.functions.len()
        invariant
            h == *handoff,
            handoff_wf(h),
            plans == program_plan_model(plan.functions@),
            k <= plans.len(),
            forall|j: int| 0 <= j < k ==> table_get(h.functions_view(), (#[trigger] plans[j]).0) is Some,
        decreases plan.functions.len() - k,
    {
        let function_id = plan.functions[k].0;
        proof {
            assert(plans[k as int].0 == function_id);
        }
        if table_lookup(&handoff.functions, function_id).is_none() {
            proof {
                let c = choose|c: int|
                    0 <= c < plans.len() && table_get(h.functions_view(), (#[trigger] plans[c]).0) is None && forall|j: int|
                        0 <= j < c ==> table_get(h.functions_view(), (#[trigger] plans[j]).0) is Some;
                assert(c == k) by {
                    if c < k {
                        assert(table_get(h.functions_view(), plans[c].0) is Some);
                    }
                    if c > k {
                        assert(table_get(h.functions_view(), plans[k as int].0) is Some);
                    }
                }
            }
            return Err(SelectionError::UnexpectedFunctionPlan(function_id));
        }
        k = k + 1;
    }
    let mut i: usize = 0;
    while i < handoff.functions.len()
        invariant
            h == *handoff,
            handoff_wf(h),
            plans == program_plan_model(plan.functions@),
            !(exists|c: int| 0 <= c < plans.len() && table_get(h.functions_view(), (#[trigger] plans[c]).0) is None),
            i <= h.functions_view().len(),
            functions_outcome(h, plans, i as int) == Ok::<(), SelectionError>(()),
        decreases handoff.functions.len() - i,
    {
        let function_id = handoff.functions[i].0;
        let function = &handoff.functions[i].1;
        let analyses = match table_lookup(&handoff.analyses, function_id) {
            Some(a) => a,
            None => {
                proof {
                    lemma_functions_outcome_err(h, plans, i + 1, h.functions_view().len() as int);
                }
                return Err(SelectionError::MissingAnalysis(function_id));
            },
        };
        let function_plan = match plan.function(function_id) {
            Some(p) => p,
            None => {
                proof {
                    lemma_table_model_none(plan.functions@, function_id);
                    lemma_functions_outcome_err(h, plans, i + 1, h.functions_view().len() as int);
                }
                return Err(SelectionError::MissingFunctionPlan(function_id));
            },
        };
        proof {
            lemma_table_model_some(plan.functions@, function_id);
        }
        match verify_function(function_id, function, analyses, function_plan) {
            Ok(()) => {},
            Err(e) => {
                proof {
                    lemma_functions_outcome_err(h, plans, i + 1, h.functions_view().len() as int);
                }
                return Err(e);
            },
        }
        i = i + 1;
    }
    Ok(())
}

pub proof fn lemma_table_model_none(s: Seq<(MirFunctionId, SelectedFunctionPlan)>, key: u32)
    requires
        table_get(s, key) is None,
    ensures
        table_get(program_plan_model(s), key) is None,
    decreases s.len(),
{
    if s.len() > 0 {
        lemma_table_model_none(s.drop_first(), key);
        assert(program_plan_model(s).drop_first() =~= program_plan_model(s.drop_first()));
    }
}

pub proof fn lemma_table_model_some(s: Seq<(MirFunctionId, SelectedFunctionPlan)>, key: u32)
    requires
        table_get(s, key) is Some,
    ensures
        table_get(program_plan_model(s), key) == Some(table_get(s, key)->0@),
    decreases s.len(),
{
    if s.len() > 0 && s[0].0 != key {
        lemma_table_model_some(s.drop_first(), key);
        assert(program_plan_model(s).drop_first() =~= program_plan_model(s.drop_first()));
    }
}


/// The ids of a program's functions, in order.
pub open spec fn function_ids(functions: Seq<(MirFunctionId, MirFunction)>) -> Seq<MirFunctionId> {
    Seq::new(functions.len(), |i: int| functions[i].0)
}

/// A program whose functions have distinct ids, each with distinct block ids.
pub open spec fn handoff_wf(h: MirBackendHandoff) -> bool {
    ids_distinct(h.functions_view())
}

/// With distinct function ids, the plans for the first `n` functions are
/// one per function, in order, each the plan selected with its analyses.
pub proof fn lemma_program_prefix_shape(h: MirBackendHandoff, n: int)
    requires
        0 <= n <= h.functions_view().len(),
        handoff_wf(h),
        program_prefix(h, n) is Ok,
    ensures
        ({
            let plans = program_prefix(h, n)->Ok_0;
            &&& plans.len() == n
            &&& forall|k: int|
                0 <= k < n ==> {
                    &&& (#[trigger] plans[k]).0 == h.functions_view()[k].0
                    &&& table_get(h.analyses_view(), h.functions_view()[k].0) is Some
                    &&& selected_plan(
                        h.functions_view()[k].0,
                        h.functions_view()[k].1,
                        table_get(h.analyses_view(), h.functions_view()[k].0)->0,
                    ) == Ok::<PlanModel, SelectionError>(plans[k].1)
                }
        }),
    decreases n,
{
    let ids = function_ids(h.functions_view());
    if n > 0 {
        if program_prefix(h, n - 1) is Err {
            lemma_program_prefix_err(h, n - 1, n);
        }
        lemma_program_prefix_shape(h, n - 1);
        let prev = program_prefix(h, n - 1)->Ok_0;
        let fid = h.functions_view()[n - 1].0;
        assert(!(exists|i: int| 0 <= i < prev.len() && (#[trigger] prev[i]).0 == fid)) by {
            if exists|i: int| 0 <= i < prev.len() && (#[trigger] prev[i]).0 == fid {
                let i = choose|i: int| 0 <= i < prev.len() && (#[trigger] prev[i]).0 == fid;
                assert(ids[i] == ids[n - 1]);
            }
        }
        let a = table_get(h.analyses_view(), fid)->0;
        let sel = selected_plan(fid, h.functions_view()[n - 1].1, a)->Ok_0;
        let pm = program_prefix(h, n)->Ok_0;
        assert(pm == prev.push((fid, sel)));
        assert forall|k: int| 0 <= k < n - 1 implies #[trigger] pm[k] == prev[k] by {}
    }
}

/// The verifier accepts every plan the selector makes for a program whose
/// functions have distinct ids and whose functions' blocks have distinct ids
/// (every handoff has them: `MirBackendHandoff::new` refuses any other, and
/// `select` and `verify` state it of the handoff they are given).
pub proof fn law_selected_program_verifies(h: MirBackendHandoff, plans: Seq<(MirFunctionId, PlanModel)>)
    requires
        handoff_wf(h),
        program_prefix(h, h.functions_view().len() as int) == Ok::<Seq<(MirFunctionId, PlanModel)>, SelectionError>(plans),
    ensures
        verify_outcome(h, plans) == Ok::<(), SelectionError>(()),
{
    let len = h.functions_view().len() as int;
    let ids = function_ids(h.functions_view());
    lemma_program_prefix_shape(h, len);
    assert forall|k: int| 0 <= k < plans.len() implies table_get(h.functions_view(), (#[trigger] plans[k]).0) is Some by {
        assert forall|j: int| 0 <= j < k implies (#[trigger] h.functions_view()[j]).0 != h.functions_view()[k].0 by {
            assert(ids[j] != ids[k]);
        }
        lemma_table_get_at(h.functions_view(), h.functions_view()[k].0, k);
    }
    lemma_functions_accepted(h, plans, len);
}

proof fn lemma_functions_accepted(h: MirBackendHandoff, plans: Seq<(MirFunctionId, PlanModel)>, n: int)
    requires
        0 <= n <= h.functions_view().len(),
        handoff_wf(h),
        program_prefix(h, h.functions_view().len() as int) == Ok::<Seq<(MirFunctionId, PlanModel)>, SelectionError>(plans),
    ensures
        functions_outcome(h, plans, n) == Ok::<(), SelectionError>(()),
    decreases n,
{
    let len = h.functions_view().len() as int;
    let ids = function_ids(h.functions_view());
    lemma_program_prefix_shape(h, len);
    if n > 0 {
        lemma_functions_accepted(h, plans, n - 1);
        let k = n - 1;
        let (fid, f) = h.functions_view()[k];
        let a = table_get(h.analyses_view(), fid)->0;
        assert(plans[k].0 == fid);
        assert forall|j: int| 0 <= j < k implies (#[trigger] plans[j]).0 != fid by {
            assert(plans[j].0 == ids[j]);
            assert(ids[j] != ids[k]);
        }
        lemma_table_get_at(plans, fid, k);
        assert(block_ids(h.functions_view()[k].1.blocks@).no_duplicates());
        law_selected_plan_verifies(fid, f, a, plans[k].1);
    }
}


/// What a program plan selected: how many functions it plans, how many
/// units it lowers instruction by instruction, and how many of those went
/// so for each reason.
#[derive(Clone, Debug, PartialEq, Eq)]
pub struct SelectionReport {
    pub functions: usize,
    pub ordinary_units: usize,
    pub rejection_reasons: Vec<(OrdinaryReason, usize)>,
}

/// The number of units the plans hold, together.
pub open spec fn unit_total(plans: Seq<(MirFunctionId, SelectedFunctionPlan)>) -> nat
    decreases plans.len(),
{
    if plans.len() == 0 {
        0
    } else {
        unit_total(plans.drop_last()) + plans.last().1.units@.len()
    }
}

/// Sums up what a program plan selected; a reason with no unit has no entry.
pub fn selection_report(plan: &SelectedProgramPlan) -> (r: SelectionReport)
    requires
        unit_total(plan.functions@) <= usize::MAX,
    ensures
        r.functions == plan.functions@.len(),
        r.ordinary_units == unit_total(plan.functions@),
        r.rejection_reasons@ == (if r.ordinary_units > 0 {
            seq![(OrdinaryReason::NoApprovedRecipe, r.ordinary_units)]
        } else {
            Seq::empty()
        }),
{
    let mut ordinary_units: usize = 0;
    let mut no_recipe: usize = 0;
    let mut i: usize = 0;
    while i < plan.functions.len()
        invariant
            i <= plan.functions@.len(),
            unit_total(plan.functions@) <= usize::MAX,
            ordinary_units == unit_total(plan.functions@.take(i as int)),
            no_recipe == ordinary_units,
        decreases plan.functions.len() - i,
    {
        let units = &plan.functions[i].1.units;
        proof {
            let t = plan.functions@.take(i + 1);
            assert(t.drop_last() =~= plan.functions@.take(i as int));
            lemma_unit_total_prefix(plan.functions@, i + 1);
        }
        let mut j: usize = 0;
        while j < units.len()
            invariant
                j <= units@.len(),
                ordinary_units + units@.len() - j <= usize::MAX,
                ordinary_units == unit_total(plan.functions@.take(i as int)) + j,
                no_recipe == ordinary_units,
                units@ == plan.functions@[i as int].1.units@,
            decreases units.len() - j,
        {
            match units[j].reason {
                OrdinaryReason::NoApprovedRecipe => {
                    no_recipe = no_recipe + 1;
                },
            }
            ordinary_units = ordinary_units + 1;
            j = j + 1;
        }
        i = i + 1;
    }
    proof {
        assert(plan.functions@.take(i as int) =~= plan.functions@);
    }
    let mut rejection_reasons: Vec<(OrdinaryReason, usize)> = Vec::new();
    if no_recipe > 0 {
        rejection_reasons.push((OrdinaryReason::NoApprovedRecipe, no_recipe));
    }
    SelectionReport { functions: plan.functions.len(), ordinary_units, rejection_reasons }
}

proof fn lemma_unit_total_prefix(plans: Seq<(MirFunctionId, SelectedFunctionPlan)>, k: int)
    requires
        0 <= k <= plans.len(),
    ensures
        unit_total(plans.take(k)) <= unit_total(plans),
    decreases plans.len(),
{
    if k < plans.len() {
        lemma_unit_total_prefix(plans.drop_last(), k);
        assert(plans.drop_last().take(k) =~= plans.take(k));
    } else {
        assert(plans.take(k) =~= plans);
    }
}

} // verus!
