use korrekt::analyzer::{
    assemble_region, candidate_cell, cell_outcome, decide_cell, finish_region, gates_reading_cell, inconclusive_region, plan_region, trivial_finding, validate_regions,
    Cell, CellOutcome, CellPlan, InconclusiveReason, ModelError, Region, RegionPlan, RegionStatus,
    Verdict,
};
use korrekt::eval::EvalError;
use korrekt::expr::{CellValue, Expression, FieldElement, Rotation, Selector};

fn fe(v: u8) -> FieldElement {
    FieldElement { repr: vec![v, 0, 0, 0] }
}

fn advice(column: usize) -> Expression {
    Expression::Advice { column, rotation: Rotation(0) }
}

fn sum(a: Expression, b: Expression) -> Expression {
    Expression::Sum(Box::new(a), Box::new(b))
}

fn neg(a: Expression) -> Expression {
    Expression::Negated(Box::new(a))
}

fn region(id: usize, begin: usize, end: usize, selectors: Vec<Selector>) -> Region {
    Region { id, begin, end, selectors }
}

fn cells_of(plan: Result<RegionPlan, ModelError>) -> Vec<Vec<CellPlan>> {
    match plan {
        Ok(RegionPlan::Cells(cells)) => cells,
        other => panic!("expected a plan of cells, got {:?}", other),
    }
}

#[test]
fn public_input_gate_asks_oracle_then_pinned() {
    // advice_a - instance_0 = 0
    let gate = sum(advice(0), neg(Expression::Instance { column: 0, rotation: Rotation(0) }));
    let r = region(0, 0, 1, vec![]);
    let cells = cells_of(plan_region(&r, &vec![gate], &vec![], &vec![0]));
    assert_eq!(cells, vec![vec![CellPlan::NeedsOracle]]);
    let cell = candidate_cell(&r, 0, 0);
    assert!(matches!(decide_cell(cell, Verdict::Unsat), CellOutcome::Pinned));
}

#[test]
fn inactive_selector_gate_is_trivially_free() {
    // s * (a - b) with s inactive
    let gate = Expression::Product(
        Box::new(Expression::Selector(Selector(0))),
        Box::new(sum(advice(0), neg(advice(1)))),
    );
    let r = region(1, 4, 6, vec![]);
    let cells = cells_of(plan_region(&r, &vec![gate], &vec![], &vec![0, 1]));
    assert_eq!(cells, vec![vec![CellPlan::TriviallyFree; 2]; 2]);
    let cell = candidate_cell(&r, 0, 1);
    assert_eq!(cell, Cell { region: 1, column: 0, row: 5 });
    match trivial_finding(cell) {
        CellOutcome::UnderConstrained(f) => {
            assert_eq!(f.cell, cell);
            assert!(f.counter_example.is_none());
        }
        other => panic!("unexpected outcome {:?}", other),
    }
}

#[test]
fn active_selector_gate_needs_oracle() {
    let gate = Expression::Product(
        Box::new(Expression::Selector(Selector(0))),
        Box::new(sum(advice(0), neg(advice(1)))),
    );
    let r = region(1, 4, 5, vec![Selector(0)]);
    let cells = cells_of(plan_region(&r, &vec![gate], &vec![], &vec![0, 1, 2]));
    assert_eq!(cells, vec![vec![CellPlan::NeedsOracle, CellPlan::NeedsOracle, CellPlan::TriviallyFree]]);
}

#[test]
fn sum_gate_found_under_constrained() {
    // a + b - 3 = 0
    let gate = sum(sum(advice(0), advice(1)), neg(Expression::Constant(fe(3))));
    let r = region(2, 0, 1, vec![]);
    let cells = cells_of(plan_region(&r, &vec![gate], &vec![], &vec![0, 1]));
    assert_eq!(cells, vec![vec![CellPlan::NeedsOracle, CellPlan::NeedsOracle]]);
    let mut outcomes = Vec::new();
    for column in [0usize, 1] {
        let witness = vec![fe(2), fe(1)];
        outcomes.push(decide_cell(candidate_cell(&r, column, 0), Verdict::Sat(witness)));
    }
    for (column, outcome) in outcomes.iter().enumerate() {
        match outcome {
            CellOutcome::UnderConstrained(f) => {
                assert_eq!(f.cell, Cell { region: 2, column, row: 0 });
                let w = f.counter_example.as_ref().unwrap();
                assert_eq!(w[0].repr, vec![2, 0, 0, 0]);
                assert_eq!(w[1].repr, vec![1, 0, 0, 0]);
            }
            other => panic!("unexpected outcome {:?}", other),
        }
    }
    let report = finish_region(2, outcomes);
    assert_eq!(report.region, 2);
    assert_eq!(report.status, RegionStatus::Complete);
    assert_eq!(report.outcomes.len(), 2);
}

#[test]
fn unassigned_fixed_cell_makes_region_inconclusive() {
    let fixed = vec![vec![CellValue::Assigned(fe(1)), CellValue::Unassigned]];
    let gate = Expression::Product(
        Box::new(Expression::Fixed { column: 0, rotation: Rotation(0) }),
        Box::new(advice(0)),
    );
    let gates = vec![gate];
    let bad = region(0, 1, 2, vec![]);
    let good = region(1, 0, 1, vec![]);
    let expected = EvalError::UnassignedFixedCell { column: 0, abs_row: 1, region_begin: 1, region_end: 2, row: 0 };
    match plan_region(&bad, &gates, &fixed, &vec![0]) {
        Ok(RegionPlan::Inconclusive(e)) => {
            assert_eq!(e, expected);
            let report = inconclusive_region(0, e);
            assert_eq!(report.status, RegionStatus::Inconclusive(InconclusiveReason::Eval(expected)));
            assert!(report.outcomes.is_empty());
        }
        other => panic!("expected an inconclusive region, got {:?}", other),
    }
    let cells = cells_of(plan_region(&good, &gates, &fixed, &vec![0]));
    assert_eq!(cells, vec![vec![CellPlan::NeedsOracle]]);
}

#[test]
fn unknown_verdict_is_inconclusive() {
    let cell = Cell { region: 0, column: 3, row: 7 };
    assert!(matches!(
        decide_cell(cell, Verdict::Unknown),
        CellOutcome::Inconclusive(InconclusiveReason::Timeout)
    ));
    assert!(matches!(
        decide_cell(cell, Verdict::Failed),
        CellOutcome::Inconclusive(InconclusiveReason::OracleFailure)
    ));
    let report = finish_region(
        0,
        vec![CellOutcome::Pinned, decide_cell(cell, Verdict::Unknown), decide_cell(cell, Verdict::Failed)],
    );
    assert_eq!(report.status, RegionStatus::Inconclusive(InconclusiveReason::Timeout));
    assert_eq!(report.outcomes.len(), 3);
}

#[test]
fn malformed_regions_are_rejected() {
    let gates = vec![advice(0)];
    assert!(matches!(
        plan_region(&region(5, 3, 3, vec![]), &gates, &vec![], &vec![0]),
        Err(ModelError::MalformedRegion { id: 5 })
    ));
    assert!(matches!(
        plan_region(&region(6, 4, 2, vec![]), &gates, &vec![], &vec![0]),
        Err(ModelError::MalformedRegion { id: 6 })
    ));
    assert!(matches!(
        plan_region(&region(7, 0, 1usize << 40, vec![]), &gates, &vec![], &vec![0]),
        Err(ModelError::MalformedRegion { id: 7 })
    ));
}

#[test]
fn rerun_gives_same_plan() {
    let gates = vec![sum(advice(0), neg(advice(1))), Expression::Product(
        Box::new(Expression::Selector(Selector(2))),
        Box::new(advice(2)),
    )];
    let r = region(0, 0, 3, vec![]);
    let first = cells_of(plan_region(&r, &gates, &vec![], &vec![0, 1, 2]));
    let second = cells_of(plan_region(&r, &gates, &vec![], &vec![0, 1, 2]));
    assert_eq!(first, second);
    assert_eq!(first[0], vec![CellPlan::NeedsOracle, CellPlan::NeedsOracle, CellPlan::TriviallyFree]);
}

#[test]
fn added_gate_only_removes_trivial_findings() {
    let r = region(0, 0, 2, vec![]);
    let mut gates = vec![sum(advice(0), Expression::Constant(fe(1)))];
    let before = cells_of(plan_region(&r, &gates, &vec![], &vec![0, 1, 2]));
    assert_eq!(before[1], vec![CellPlan::NeedsOracle, CellPlan::TriviallyFree, CellPlan::TriviallyFree]);
    gates.push(sum(advice(1), Expression::Constant(fe(4))));
    let after = cells_of(plan_region(&r, &gates, &vec![], &vec![0, 1, 2]));
    assert_eq!(after[1], vec![CellPlan::NeedsOracle, CellPlan::NeedsOracle, CellPlan::TriviallyFree]);
}

#[test]
fn rotation_reaches_neighbour_row() {
    // a gate at each row reads advice column 0 at the next row
    let gate = Expression::Advice { column: 0, rotation: Rotation(1) };
    let r = region(0, 10, 13, vec![]);
    let cells = cells_of(plan_region(&r, &vec![gate], &vec![], &vec![0]));
    assert_eq!(cells, vec![vec![CellPlan::TriviallyFree], vec![CellPlan::NeedsOracle], vec![CellPlan::NeedsOracle]]);
}

#[test]
fn gates_collected_for_cell() {
    let gates = vec![
        sum(advice(0), advice(1)),
        Expression::Advice { column: 1, rotation: Rotation(-1) },
        Expression::Constant(fe(1)),
        Expression::Scaled(Box::new(advice(0)), fe(2)),
    ];
    let r = region(0, 0, 2, vec![]);
    assert_eq!(gates_reading_cell(&r, &gates, 0, 0), vec![0, 3]);
    // gate 1 at row 1 reads column 1 at row 0; no row of the region reads row 1 through it
    assert_eq!(gates_reading_cell(&r, &gates, 1, 0), vec![0, 1]);
    assert_eq!(gates_reading_cell(&r, &gates, 1, 1), vec![0]);
    assert!(gates_reading_cell(&r, &gates, 2, 0).is_empty());
}

#[test]
fn model_validation_names_first_malformed_region() {
    let regions = vec![region(0, 0, 2, vec![]), region(1, 5, 5, vec![]), region(2, 9, 1, vec![])];
    assert_eq!(validate_regions(&regions), Err(ModelError::MalformedRegion { id: 1 }));
    let good = vec![region(0, 0, 2, vec![]), region(1, 2, 3, vec![])];
    assert_eq!(validate_regions(&good), Ok(()));
    assert_eq!(validate_regions(&vec![]), Ok(()));
}

#[test]
fn planned_cells_assembled_in_order() {
    let gate = sum(sum(advice(0), advice(1)), neg(Expression::Constant(fe(3))));
    let r = region(4, 10, 12, vec![]);
    let columns = vec![0, 1, 2];
    let cells = cells_of(plan_region(&r, &vec![gate], &vec![], &columns));
    assert_eq!(cells[0], vec![CellPlan::NeedsOracle, CellPlan::NeedsOracle, CellPlan::TriviallyFree]);
    let verdicts = vec![
        vec![Some(Verdict::Unsat), Some(Verdict::Sat(vec![fe(1)])), None],
        vec![None, Some(Verdict::Failed), Some(Verdict::Unsat)],
    ];
    let report = assemble_region(&r, &columns, &cells, verdicts);
    assert_eq!(report.region, 4);
    assert_eq!(report.outcomes.len(), 6);
    assert!(matches!(report.outcomes[0], CellOutcome::Pinned));
    match &report.outcomes[1] {
        CellOutcome::UnderConstrained(f) => {
            assert_eq!(f.cell, Cell { region: 4, column: 1, row: 10 });
            assert_eq!(f.counter_example.as_ref().unwrap()[0].repr, vec![1, 0, 0, 0]);
        }
        other => panic!("unexpected outcome {:?}", other),
    }
    match &report.outcomes[2] {
        CellOutcome::UnderConstrained(f) => {
            assert_eq!(f.cell, Cell { region: 4, column: 2, row: 10 });
            assert!(f.counter_example.is_none());
        }
        other => panic!("unexpected outcome {:?}", other),
    }
    // row 11: an unanswered query counts as timed out
    assert!(matches!(report.outcomes[3], CellOutcome::Inconclusive(InconclusiveReason::Timeout)));
    assert!(matches!(report.outcomes[4], CellOutcome::Inconclusive(InconclusiveReason::OracleFailure)));
    assert!(matches!(report.outcomes[5], CellOutcome::UnderConstrained(_)));
    assert_eq!(report.status, RegionStatus::Inconclusive(InconclusiveReason::Timeout));
}

#[test]
fn cell_outcome_follows_plan() {
    let cell = Cell { region: 0, column: 1, row: 2 };
    assert!(matches!(cell_outcome(cell, CellPlan::TriviallyFree, Some(Verdict::Unsat)), CellOutcome::UnderConstrained(_)));
    assert!(matches!(cell_outcome(cell, CellPlan::NeedsOracle, Some(Verdict::Unsat)), CellOutcome::Pinned));
    assert!(matches!(
        cell_outcome(cell, CellPlan::NeedsOracle, Some(Verdict::Unknown)),
        CellOutcome::Inconclusive(InconclusiveReason::Timeout)
    ));
    assert!(matches!(
        cell_outcome(cell, CellPlan::NeedsOracle, None),
        CellOutcome::Inconclusive(InconclusiveReason::Timeout)
    ));
}
