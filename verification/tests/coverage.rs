use lib::coverage::{
    select, select_coverage, select_function, selection_report, verify, verify_block, verify_function,
    MirBackendHandoff, SelectedCoverage, SelectedProgramPlan, SelectedUnitId, SelectionError,
};
use lib::mir::{
    mir_successors, MirBasicBlock, MirFunction, MirFunctionAnalyses, MirSourceOrigin, MirStatement, MirTerminator,
    MirTerminatorKind,
};

fn origin(start: u32) -> MirSourceOrigin {
    MirSourceOrigin { start, end: start + 1 }
}

fn loop_function() -> MirFunction {
    MirFunction {
        entry_block: 0,
        blocks: vec![
            MirBasicBlock {
                id: 0,
                statements: vec![10, 11],
                terminator: Some(MirTerminator {
                    kind: MirTerminatorKind::Branch { then_block: 1, else_block: 2 },
                    safepoint: None,
                    origin: origin(20),
                }),
            },
            MirBasicBlock {
                id: 1,
                statements: vec![12],
                terminator: Some(MirTerminator {
                    kind: MirTerminatorKind::Jump(0),
                    safepoint: Some(5),
                    origin: origin(21),
                }),
            },
            MirBasicBlock {
                id: 2,
                statements: vec![],
                terminator: Some(MirTerminator { kind: MirTerminatorKind::Return, safepoint: None, origin: origin(22) }),
            },
        ],
        statements: vec![
            MirStatement { id: 10, safepoint: Some(7), origin: origin(1) },
            MirStatement { id: 11, safepoint: None, origin: origin(2) },
            MirStatement { id: 12, safepoint: None, origin: origin(3) },
        ],
        locals: vec![],
        temps: vec![],
    }
}

fn loop_analyses() -> MirFunctionAnalyses {
    MirFunctionAnalyses {
        budget_statement_before: vec![(10, 100)],
        budget_terminator_before: vec![(1, 101)],
        budget_edges: vec![((0, 1), 102), ((1, 0), 103)],
        statement_live_before: vec![(10, vec![1]), (11, vec![1, 2]), (12, vec![2])],
        statement_live_after: vec![(10, vec![1, 2]), (11, vec![2]), (12, vec![])],
        block_live_in: vec![(0, vec![1]), (1, vec![2]), (2, vec![])],
        block_live_out: vec![(0, vec![2]), (1, vec![1]), (2, vec![])],
        debug_statement_before: vec![(11, vec![4])],
        debug_block_entry: vec![(0, vec![4])],
        safepoint_live_roots: vec![(7, vec![1, 2]), (5, vec![3])],
    }
}

fn lambda_function() -> MirFunction {
    MirFunction {
        entry_block: 0,
        blocks: vec![MirBasicBlock {
            id: 0,
            statements: vec![30],
            terminator: Some(MirTerminator { kind: MirTerminatorKind::Return, safepoint: None, origin: origin(40) }),
        }],
        statements: vec![MirStatement { id: 30, safepoint: None, origin: origin(31) }],
        locals: vec![],
        temps: vec![],
    }
}

fn lambda_analyses() -> MirFunctionAnalyses {
    MirFunctionAnalyses {
        budget_statement_before: vec![],
        budget_terminator_before: vec![],
        budget_edges: vec![],
        statement_live_before: vec![(30, vec![])],
        statement_live_after: vec![(30, vec![])],
        block_live_in: vec![(0, vec![])],
        block_live_out: vec![(0, vec![])],
        debug_statement_before: vec![],
        debug_block_entry: vec![],
        safepoint_live_roots: vec![],
    }
}

fn handoff() -> MirBackendHandoff {
    MirBackendHandoff::new(
        vec![(0, loop_function()), (1, lambda_function())],
        vec![(0, loop_analyses()), (1, lambda_analyses())],
    )
    .expect("distinct ids")
}

#[test]
fn handoff_refuses_repeated_function_or_block_ids() {
    let twice = MirBackendHandoff::new(
        vec![(0, loop_function()), (0, lambda_function())],
        vec![(0, loop_analyses())],
    );
    assert!(twice.is_none());
    let mut function = lambda_function();
    let block = function.blocks[0].clone();
    function.blocks.push(block);
    assert!(MirBackendHandoff::new(vec![(1, function)], vec![(1, lambda_analyses())]).is_none());
    assert!(MirBackendHandoff::new(vec![(1, lambda_function())], vec![]).is_some());
}

fn plan() -> (MirBackendHandoff, SelectedProgramPlan) {
    let handoff = handoff();
    let plan = select(&handoff).expect("ordinary selection should succeed");
    (handoff, plan)
}

fn first_coverage_with(
    plan: &mut SelectedProgramPlan,
    predicate: impl Fn(&SelectedCoverage) -> bool,
) -> &mut SelectedCoverage {
    plan.functions
        .iter_mut()
        .flat_map(|(_, function)| function.coverage.iter_mut())
        .find(|coverage| predicate(coverage))
        .expect("fixture should contain matching coverage")
}

#[test]
fn selection_covers_every_function_and_reports_selected_recipes() {
    let (handoff, plan) = plan();
    verify(&handoff, &plan).expect("ordinary coverage should verify");
    assert_eq!(select(&handoff).expect("repeated selection should succeed"), plan);
    let report = selection_report(&plan);
    assert_eq!(report.functions, plan.functions.len());
    assert!(report.functions >= 2, "fixture should retain its lambda");
    assert!(report.ordinary_units > 0);
    assert_eq!(report.rejection_reasons.iter().map(|(_, count)| *count).sum::<usize>(), report.ordinary_units);
}

#[test]
fn coverage_verifier_rejects_missing_and_duplicate_blocks() {
    let (handoff, original) = plan();
    let mut missing = original.clone();
    let function_plan = &mut missing.functions[0].1;
    let removed = function_plan.units.pop().expect("one unit");
    function_plan.coverage.pop();
    function_plan.block_entries.retain(|(block, _)| *block != removed.block);
    assert!(matches!(verify(&handoff, &missing), Err(SelectionError::MissingBlock { .. })));

    let mut duplicate = original.clone();
    let function_plan = &mut duplicate.functions[0].1;
    let unit = function_plan.units[0];
    function_plan.units.push(unit);
    let coverage = function_plan.coverage[0].clone();
    function_plan.coverage.push(coverage);
    assert!(matches!(verify(&handoff, &duplicate), Err(SelectionError::DuplicateBlock { .. })));
}

#[test]
fn coverage_verifier_rejects_wrong_function_and_statement_coverage() {
    let (handoff, original) = plan();
    let mut wrong_function = original.clone();
    wrong_function.functions[0].1.function = 1;
    assert!(matches!(verify(&handoff, &wrong_function), Err(SelectionError::FunctionMismatch { .. })));

    let mut missing_statement = original.clone();
    let coverage = first_coverage_with(&mut missing_statement, |value| !value.statements.is_empty());
    coverage.statements.remove(0);
    assert!(matches!(
        verify(&handoff, &missing_statement),
        Err(SelectionError::StatementCoverageMismatch { .. })
    ));

    let mut duplicate_statement = original.clone();
    let coverage = first_coverage_with(&mut duplicate_statement, |value| !value.statements.is_empty());
    let first = coverage.statements[0];
    coverage.statements.push(first);
    assert!(matches!(
        verify(&handoff, &duplicate_statement),
        Err(SelectionError::StatementCoverageMismatch { .. })
    ));

    let mut wrong_terminator = original.clone();
    let coverage = first_coverage_with(&mut wrong_terminator, |value| {
        value.exits.iter().any(|exit| exit.target != value.block)
    });
    coverage.terminator = coverage.exits.iter().find(|exit| exit.target != coverage.block).expect("successor").target;
    assert!(matches!(
        verify(&handoff, &wrong_terminator),
        Err(SelectionError::TerminatorCoverageMismatch { .. })
    ));
}

#[test]
fn coverage_verifier_rejects_exit_budget_and_safepoint_corruption() {
    let (handoff, original) = plan();
    let mut invalid_exit = original.clone();
    let coverage = first_coverage_with(&mut invalid_exit, |value| !value.exits.is_empty());
    coverage.exits[0].target = coverage.block;
    assert!(matches!(verify(&handoff, &invalid_exit), Err(SelectionError::ExitCoverageMismatch { .. })));

    let mut moved_budget = original.clone();
    let coverage = first_coverage_with(&mut moved_budget, |value| value.budget.len() > 1);
    coverage.budget.swap(0, 1);
    assert!(matches!(verify(&handoff, &moved_budget), Err(SelectionError::BudgetCoverageMismatch { .. })));

    let mut swallowed_safepoint = original.clone();
    let coverage = first_coverage_with(&mut swallowed_safepoint, |value| !value.safepoints.is_empty());
    coverage.safepoints.clear();
    assert!(matches!(
        verify(&handoff, &swallowed_safepoint),
        Err(SelectionError::SafepointCoverageMismatch { .. })
    ));
}

#[test]
fn coverage_verifier_rejects_source_liveness_and_entry_corruption() {
    let (handoff, original) = plan();
    let mut source_mismatch = original.clone();
    let coverage = first_coverage_with(&mut source_mismatch, |value| value.source_points.len() > 1);
    coverage.source_points.remove(0);
    assert!(matches!(verify(&handoff, &source_mismatch), Err(SelectionError::SourceCoverageMismatch { .. })));

    let mut liveness_mismatch = original.clone();
    let coverage = first_coverage_with(&mut liveness_mismatch, |value| !value.statement_liveness.is_empty());
    coverage.statement_liveness.clear();
    assert!(matches!(
        verify(&handoff, &liveness_mismatch),
        Err(SelectionError::LivenessCoverageMismatch { .. })
    ));

    let mut invalid_entry = original.clone();
    let function_plan = invalid_entry
        .functions
        .iter_mut()
        .map(|(_, plan)| plan)
        .find(|plan| plan.units.len() > 1)
        .expect("fixture has a multi-block function");
    function_plan.block_entries[0].1 = SelectedUnitId(u32::MAX);
    assert!(matches!(verify(&handoff, &invalid_entry), Err(SelectionError::InvalidBlockEntry { .. })));
}

#[test]
fn block_coverage_lists_budget_safepoints_exits_and_sources_in_order() {
    let function = loop_function();
    let analyses = loop_analyses();
    let coverage = select_coverage(0, &function, &analyses, 0).expect("block 0 has every fact");
    assert_eq!(coverage.statements, vec![10, 11]);
    assert_eq!(coverage.budget.len(), 2);
    assert_eq!(coverage.budget[0].point, 100);
    assert_eq!(coverage.budget[1].point, 102);
    assert_eq!(coverage.safepoints.len(), 1);
    assert_eq!(coverage.safepoints[0].safepoint, 7);
    assert_eq!(coverage.safepoints[0].live_roots, vec![1, 2]);
    assert_eq!(coverage.exits.len(), 2);
    assert_eq!(coverage.exits[0].target, 1);
    assert_eq!(coverage.exits[0].budget, Some(102));
    assert_eq!(coverage.exits[1].target, 2);
    assert_eq!(coverage.exits[1].budget, None);
    assert_eq!(coverage.source_points.len(), 3);
    assert_eq!(coverage.statement_liveness[1].debug_before, vec![4]);
    assert_eq!(coverage.debug_at_entry, vec![4]);
    assert_eq!(verify_block(0, &function, &analyses, 0, &coverage), Ok(()));
    let renamed = SelectedCoverage { block: 9, ..coverage };
    assert_eq!(verify_block(0, &function, &analyses, 0, &renamed), Ok(()));
}

#[test]
fn block_coverage_reports_the_first_missing_fact() {
    let function = loop_function();
    let mut analyses = loop_analyses();
    assert_eq!(
        select_coverage(0, &function, &analyses, 9),
        Err(SelectionError::MissingBlock { function: 0, block: 9 })
    );
    analyses.safepoint_live_roots.clear();
    assert_eq!(
        select_coverage(0, &function, &analyses, 0),
        Err(SelectionError::MissingAnalysisFact { function: 0, block: 0, fact: "safepoint live roots" })
    );
    let mut analyses = loop_analyses();
    analyses.block_live_out.retain(|(block, _)| *block != 2);
    assert_eq!(
        select_coverage(0, &function, &analyses, 2),
        Err(SelectionError::MissingAnalysisFact { function: 0, block: 2, fact: "block live-out" })
    );
    let mut broken = loop_function();
    broken.blocks[2].terminator = None;
    assert_eq!(
        select_coverage(0, &broken, &loop_analyses(), 2),
        Err(SelectionError::TerminatorCoverageMismatch { function: 0, block: 2 })
    );
}

#[test]
fn function_plan_has_one_entry_per_block() {
    let function = loop_function();
    let analyses = loop_analyses();
    let plan = select_function(3, &function, &analyses).expect("every fact is known");
    assert_eq!(plan.units.len(), 3);
    assert_eq!(plan.block_entries, vec![(0, SelectedUnitId(0)), (1, SelectedUnitId(1)), (2, SelectedUnitId(2))]);
    assert_eq!(verify_function(3, &function, &analyses, &plan), Ok(()));
    let mut extra = plan.clone();
    extra.block_entries.push((8, SelectedUnitId(3)));
    assert_eq!(
        verify_function(3, &function, &analyses, &extra),
        Err(SelectionError::InvalidBlockEntry { function: 3, block: 8 })
    );
}

#[test]
fn program_verification_rejects_plans_for_unknown_functions_and_missing_plans() {
    let (handoff, original) = plan();
    let mut unexpected = original.clone();
    let extra = unexpected.functions[1].1.clone();
    unexpected.functions.push((7, extra));
    assert_eq!(verify(&handoff, &unexpected), Err(SelectionError::UnexpectedFunctionPlan(7)));
    let mut missing = original.clone();
    missing.functions.remove(1);
    assert_eq!(verify(&handoff, &missing), Err(SelectionError::MissingFunctionPlan(1)));
    let no_analyses =
        MirBackendHandoff::new(vec![(0, loop_function()), (1, lambda_function())], vec![(1, lambda_analyses())])
            .expect("distinct ids");
    assert_eq!(select(&no_analyses), Err(SelectionError::MissingAnalysis(0)));
}

#[test]
fn successors_follow_terminator_order() {
    assert_eq!(mir_successors(&MirTerminatorKind::Switch { cases: vec![4, 5], otherwise: 6 }), vec![4, 5, 6]);
    assert_eq!(
        mir_successors(&MirTerminatorKind::TrySwitch { continuations: vec![1], propagate: 2, invalid: 3, join: 4 }),
        vec![1, 2, 3, 4]
    );
    assert_eq!(mir_successors(&MirTerminatorKind::Unreachable), Vec::<u32>::new());
}

#[test]
fn reachability_follows_terminator_edges() {
    let function = loop_function();
    assert!(lib::mir_graph::mir_reaches(&function, 0, 2));
    assert!(lib::mir_graph::mir_reaches(&function, 1, 0));
    assert!(lib::mir_graph::mir_reaches(&function, 2, 2));
    assert!(!lib::mir_graph::mir_reaches(&function, 2, 0));
    assert!(!lib::mir_graph::mir_reaches(&function, 9, 0));
    assert!(lib::mir_graph::block_is_cyclic(&function, 0));
    assert!(lib::mir_graph::block_is_cyclic(&function, 1));
    assert!(!lib::mir_graph::block_is_cyclic(&function, 2));
    assert_eq!(lib::mir_graph::block_successors(&function, 0), vec![1, 2]);
}

fn block(id: u32, kind: MirTerminatorKind) -> MirBasicBlock {
    MirBasicBlock {
        id,
        statements: vec![],
        terminator: Some(MirTerminator { kind, safepoint: None, origin: origin(id) }),
    }
}

fn diamond_with_back_edge() -> MirFunction {
    MirFunction {
        entry_block: 0,
        blocks: vec![
            block(0, MirTerminatorKind::Branch { then_block: 1, else_block: 2 }),
            block(1, MirTerminatorKind::Jump(3)),
            block(2, MirTerminatorKind::Jump(3)),
            block(3, MirTerminatorKind::Branch { then_block: 4, else_block: 1 }),
            block(4, MirTerminatorKind::Return),
            block(5, MirTerminatorKind::Jump(5)),
        ],
        statements: vec![],
        locals: vec![],
        temps: vec![],
    }
}

#[test]
fn predecessors_list_each_edge_in_block_order() {
    let predecessors = lib::dominators::mir_predecessors(&diamond_with_back_edge());
    let entries: Vec<(u32, Vec<u32>)> = predecessors.into_iter().collect();
    assert_eq!(entries, vec![(1, vec![0, 3]), (2, vec![0]), (3, vec![1, 2]), (4, vec![3]), (5, vec![5])]);
    let twice = MirFunction {
        entry_block: 0,
        blocks: vec![block(0, MirTerminatorKind::Branch { then_block: 1, else_block: 1 }), block(1, MirTerminatorKind::Return)],
        statements: vec![],
        locals: vec![],
        temps: vec![],
    };
    let entries: Vec<(u32, Vec<u32>)> = lib::dominators::mir_predecessors(&twice).into_iter().collect();
    assert_eq!(entries, vec![(1, vec![0, 0])]);
}

#[test]
fn dominators_are_the_greatest_solution() {
    let function = diamond_with_back_edge();
    let predecessors = lib::dominators::mir_predecessors(&function);
    let dominators = lib::dominators::mir_dominators(&function, &predecessors);
    let entries: Vec<(u32, Vec<u32>)> = dominators
        .into_iter()
        .map(|(block, mut set)| {
            set.sort();
            (block, set)
        })
        .collect();
    assert_eq!(
        entries,
        vec![
            (0, vec![0]),
            (1, vec![0, 1]),
            (2, vec![0, 2]),
            (3, vec![0, 3]),
            (4, vec![0, 3, 4]),
            (5, vec![0, 1, 2, 3, 4, 5]),
        ]
    );
}

#[test]
fn predecessor_lists_mirror_successor_lists() {
    let function = diamond_with_back_edge();
    let predecessors = lib::dominators::mir_predecessors(&function);
    for target in 0..7u32 {
        for source in 0..7u32 {
            let listed = predecessors.get(&target).is_some_and(|list| list.contains(&source));
            let edge = function
                .blocks
                .iter()
                .any(|block| block.id == source && lib::mir_graph::block_successors(&function, source).contains(&target));
            assert_eq!(listed, edge, "edge {source} -> {target}");
        }
    }
}

#[test]
fn selection_errors_name_their_function() {
    assert_eq!(SelectionError::MissingAnalysis(3).function(), Some(3));
    assert_eq!(SelectionError::FunctionMismatch { expected: 4, actual: 5 }.function(), Some(4));
    assert_eq!(SelectionError::MissingAnalysisFact { function: 6, block: 1, fact: "budget" }.function(), Some(6));
}
