use vstd::prelude::*;
use crate::domain::AbsResult;
use crate::domain::{is_prime, is_zero_mod};
use crate::eval::{
    canonical_expr, canonical_fixed, concrete_value, eval_abstract, eval_spec,
    lemma_zero_gate_cannot_pin, EvalError,
};
use crate::expr::{CellValue, Column, ColumnKind, Expression, FieldElement, Rotation, Selector};
use crate::extract::{advice_reads, extract_columns};

verus! {

/// One region of the circuit layout: the rows `[begin, end)` and the selectors
/// active within it.
pub struct Region {
    pub id: usize,
    pub begin: usize,
    pub end: usize,
    pub selectors: Vec<Selector>,
}

/// A defect of the region model that stops the whole run.
#[derive(Debug, Clone, Copy, PartialEq, Eq, Structural)]
pub enum ModelError {
    /// The region is empty (`end <= begin`) or has more rows than a row offset can address.
    MalformedRegion { id: usize },
}

/// What abstract evaluation decided for one candidate cell.
#[derive(Debug, Clone, Copy, PartialEq, Eq, Structural)]
pub enum CellPlan {
    /// No gate both reads the cell and may be non-zero: nothing pins it.
    TriviallyFree,
    /// Some gate may pin the cell: the decision oracle must be asked.
    NeedsOracle,
}

/// The outcome of abstract evaluation over one region.
#[derive(Debug)]
pub enum RegionPlan {
    /// A gate could not be evaluated at some row; the region is not analysed further.
    Inconclusive(EvalError),
    /// The plan of each cell, by region row and then by candidate column.
    Cells(Vec<Vec<CellPlan>>),
}

/// The number of rows of a region, where the region is well formed.
pub open spec fn region_rows(region: &Region) -> int {
    region.end - region.begin
}

pub open spec fn region_well_formed(region: &Region) -> bool {
    region.begin < region.end && region.end - region.begin <= i32::MAX
}

/// Checks the whole region model before any region is analysed: a malformed
/// region stops the run, reported by the first such region.
pub fn validate_regions(regions: &Vec<Region>) -> (r: Result<(), ModelError>)
    ensures
        r is Ok <==> forall|i: int| 0 <= i < regions@.len() ==> #[trigger] region_well_formed(
            &regions@[i],
        ),
        r matches Err(ModelError::MalformedRegion { id }) ==> exists|i: int|
            0 <= i < regions@.len() && !#[trigger] region_well_formed(&regions@[i]) && regions@[i].id
                == id && forall|j: int|
                0 <= j < i ==> #[trigger] region_well_formed(&regions@[j]),
{
    let mut i: usize = 0;
    while i < regions.len()
        invariant
            i <= regions@.len(),
            forall|j: int| 0 <= j < i ==> #[trigger] region_well_formed(&regions@[j]),
        decreases regions@.len() - i,
    {
        let region = &regions[i];
        if region.end <= region.begin || region.end - region.begin > 2147483647 {
            assert(!region_well_formed(&regions@[i as int]));
            return Err(ModelError::MalformedRegion { id: region.id });
        }
        i = i + 1;
    }
    Ok(())
}

/// Gate `g` evaluated abstractly at row `gate_row` of the region.
pub open spec fn gate_eval(
    region: &Region,
    gates: Seq<Expression>,
    fixed: Seq<Vec<CellValue>>,
    g: int,
    gate_row: int,
) -> Result<AbsResult, EvalError> {
    eval_spec(gates[g], region.selectors@, region.begin, region.end, gate_row as i32, fixed)
}

/// `gate`, evaluated at `gate_row`, reads the advice cell of `column` at `cell_row`.
pub open spec fn depends(gate: Expression, gate_row: int, column: usize, cell_row: int) -> bool {
    advice_reads(gate).contains(
        (Column { index: column, kind: ColumnKind::Advice }, Rotation((cell_row - gate_row) as i32)),
    )
}

/// Gate `g` at `gate_row` reads the cell and is not proved to be zero.
pub open spec fn may_pin(
    region: &Region,
    gates: Seq<Expression>,
    fixed: Seq<Vec<CellValue>>,
    g: int,
    gate_row: int,
    column: usize,
    cell_row: int,
) -> bool {
    depends(gates[g], gate_row, column, cell_row) && gate_eval(region, gates, fixed, g, gate_row)
        != Ok::<AbsResult, EvalError>(AbsResult::Zero)
}

/// No gate instance of the region may pin the advice cell (`column`, `cell_row`).
pub open spec fn trivially_free(
    region: &Region,
    gates: Seq<Expression>,
    fixed: Seq<Vec<CellValue>>,
    column: usize,
    cell_row: int,
) -> bool {
    !exists|g: int, gate_row: int|
        0 <= g < gates.len() && 0 <= gate_row < region_rows(region) && #[trigger] may_pin(
            region,
            gates,
            fixed,
            g,
            gate_row,
            column,
            cell_row,
        )
}

/// Some gate fails to evaluate at some row of the region.
pub open spec fn region_has_eval_error(
    region: &Region,
    gates: Seq<Expression>,
    fixed: Seq<Vec<CellValue>>,
) -> bool {
    exists|g: int, gate_row: int|
        0 <= g < gates.len() && 0 <= gate_row < region_rows(region) && #[trigger] gate_eval(
            region,
            gates,
            fixed,
            g,
            gate_row,
        ) is Err
}

pub open spec fn cell_plan_spec(
    region: &Region,
    gates: Seq<Expression>,
    fixed: Seq<Vec<CellValue>>,
    column: usize,
    cell_row: int,
) -> CellPlan {
    if trivially_free(region, gates, fixed, column, cell_row) {
        CellPlan::TriviallyFree
    } else {
        CellPlan::NeedsOracle
    }
}

fn contains_read(reads: &Vec<(Column, Rotation)>, item: (Column, Rotation)) -> (r: bool)
    ensures
        r == reads@.contains(item),
{
    let mut i: usize = 0;
    while i < reads.len()
        invariant
            i <= reads@.len(),
            forall|j: int| 0 <= j < i ==> reads@[j] != item,
        decreases reads@.len() - i,
    {
        let cur = reads[i];
        if cur.0 == item.0 && cur.1 == item.1 {
            assert(reads@[i as int] == item);
            return true;
        }
        i = i + 1;
    }
    false
}

#[verifier::loop_isolation(false)]
fn cell_is_trivially_free(
    region: &Region,
    gates: &Vec<Expression>,
    fixed: &Vec<Vec<CellValue>>,
    reads: &Vec<Vec<(Column, Rotation)>>,
    evals: &Vec<Vec<AbsResult>>,
    n: i32,
    column: usize,
    cell_row: i32,
) -> (r: bool)
    requires
        region_well_formed(region),
        n == region_rows(region),
        0 <= cell_row < n,
        reads@.len() == gates@.len(),
        evals@.len() == gates@.len(),
        forall|g: int|
            0 <= g < gates@.len() ==> (#[trigger] reads@[g])@.to_set() == advice_reads(gates@[g]),
        forall|g: int| 0 <= g < gates@.len() ==> (#[trigger] evals@[g])@.len() == n,
        forall|g: int, gr: int|
            0 <= g < gates@.len() && 0 <= gr < n ==> #[trigger] gate_eval(region, gates@, fixed@, g, gr)
                == Ok::<AbsResult, EvalError>(evals@[g]@[gr]),
    ensures
        r == trivially_free(region, gates@, fixed@, column, cell_row as int),
{
    let item_column = Column { index: column, kind: ColumnKind::Advice };
    let mut g: usize = 0;
    while g < gates.len()
        invariant
            g <= gates@.len(),
            forall|gi: int, gr: int|
                0 <= gi < g && 0 <= gr < n ==> !#[trigger] may_pin(
                    region,
                    gates@,
                    fixed@,
                    gi,
                    gr,
                    column,
                    cell_row as int,
                ),
        decreases gates@.len() - g,
    {
        let mut gr: i32 = 0;
        while gr < n
            invariant
                0 <= gr <= n,
                g < gates@.len(),
                forall|gi: int, gr2: int|
                    0 <= gi < g && 0 <= gr2 < n ==> !#[trigger] may_pin(
                        region,
                        gates@,
                        fixed@,
                        gi,
                        gr2,
                        column,
                        cell_row as int,
                    ),
                forall|gr2: int|
                    0 <= gr2 < gr ==> !#[trigger] may_pin(
                        region,
                        gates@,
                        fixed@,
                        g as int,
                        gr2,
                        column,
                        cell_row as int,
                    ),
            decreases n - gr,
        {
            let v = evals[g][gr as usize];
            assert(gate_eval(region, gates@, fixed@, g as int, gr as int) == Ok::<
                AbsResult,
                EvalError,
            >(v));
            if v != AbsResult::Zero {
                let item = (item_column, Rotation(cell_row - gr));
                if contains_read(&reads[g], item) {
                    assert(reads@[g as int]@.contains(item));
                    assert(reads@[g as int]@.to_set().contains(item));
                    assert(may_pin(region, gates@, fixed@, g as int, gr as int, column, cell_row as int));
                    return false;
                } else {
                    assert(!reads@[g as int]@.to_set().contains(item));
                }
            }
            gr = gr + 1;
        }
        g = g + 1;
    }
    true
}

/// Evaluates every gate abstractly at every row of `region` and decides, for
/// each row and each advice column of `columns`, whether the cell is trivially
/// free or the oracle must be asked. A gate that cannot be evaluated makes the
/// whole region inconclusive.
pub fn plan_region(
    region: &Region,
    gates: &Vec<Expression>,
    fixed: &Vec<Vec<CellValue>>,
    columns: &Vec<usize>,
) -> (r: Result<RegionPlan, ModelError>)
    ensures
        !region_well_formed(region) <==> r == Err::<RegionPlan, ModelError>(
            ModelError::MalformedRegion { id: region.id },
        ),
        region_well_formed(region) ==> r is Ok,
        region_well_formed(region) ==> (region_has_eval_error(region, gates@, fixed@) <==> (r matches Ok(
            RegionPlan::Inconclusive(_),
        ))),
        r matches Ok(RegionPlan::Inconclusive(e)) ==> exists|g: int, gr: int|
            0 <= g < gates@.len() && 0 <= gr < region_rows(region) && #[trigger] gate_eval(
                region,
                gates@,
                fixed@,
                g,
                gr,
            ) == Err::<AbsResult, EvalError>(e),
        r matches Ok(RegionPlan::Cells(cells)) ==> {
            &&& cells@.len() == region_rows(region)
            &&& forall|row: int|
                0 <= row < cells@.len() ==> (#[trigger] cells@[row])@.len() == columns@.len()
            &&& forall|row: int, k: int|
                0 <= row < cells@.len() && 0 <= k < columns@.len() ==> #[trigger] cells@[row]@[k]
                    == cell_plan_spec(region, gates@, fixed@, columns@[k], row)
        },
{
    if region.end <= region.begin || region.end - region.begin > 2147483647 {
        return Err(ModelError::MalformedRegion { id: region.id });
    }
    let n: i32 = (region.end - region.begin) as i32;
    let mut evals: Vec<Vec<AbsResult>> = Vec::new();
    let mut reads: Vec<Vec<(Column, Rotation)>> = Vec::new();
    let mut g: usize = 0;
    while g < gates.len()
        invariant
            region_well_formed(region),
            n == region_rows(region),
            g <= gates@.len(),
            evals@.len() == g,
            reads@.len() == g,
            forall|gi: int|
                0 <= gi < g ==> (#[trigger] reads@[gi])@.to_set() == advice_reads(gates@[gi]),
            forall|gi: int| 0 <= gi < g ==> (#[trigger] evals@[gi])@.len() == n,
            forall|gi: int, gr: int|
                0 <= gi < g && 0 <= gr < n ==> #[trigger] gate_eval(region, gates@, fixed@, gi, gr)
                    == Ok::<AbsResult, EvalError>(evals@[gi]@[gr]),
        decreases gates@.len() - g,
    {
        let mut row_vals: Vec<AbsResult> = Vec::new();
        let mut gr: i32 = 0;
        while gr < n
            invariant
                region_well_formed(region),
                n == region_rows(region),
                g < gates@.len(),
                0 <= gr <= n,
                row_vals@.len() == gr,
                forall|gi: int, gr2: int|
                    0 <= gi < g && 0 <= gr2 < n ==> #[trigger] gate_eval(
                        region,
                        gates@,
                        fixed@,
                        gi,
                        gr2,
                    ) == Ok::<AbsResult, EvalError>(evals@[gi]@[gr2]),
                forall|j: int|
                    0 <= j < gr ==> #[trigger] gate_eval(region, gates@, fixed@, g as int, j) == Ok::<
                        AbsResult,
                        EvalError,
                    >(row_vals@[j]),
            decreases n - gr,
        {
            match eval_abstract(&gates[g], &region.selectors, region.begin, region.end, gr, fixed) {
                Ok(v) => {
                    row_vals.push(v);
                },
                Err(e) => {
                    assert(gate_eval(region, gates@, fixed@, g as int, gr as int) is Err);
                    return Ok(RegionPlan::Inconclusive(e));
                },
            }
            gr = gr + 1;
        }
        evals.push(row_vals);
        reads.push(extract_columns(&gates[g]));
        g = g + 1;
    }
    assert(!region_has_eval_error(region, gates@, fixed@));
    let mut cells: Vec<Vec<CellPlan>> = Vec::new();
    let mut row: i32 = 0;
    while row < n
        invariant
            region_well_formed(region),
            n == region_rows(region),
            0 <= row <= n,
            cells@.len() == row,
            evals@.len() == gates@.len(),
            reads@.len() == gates@.len(),
            forall|gi: int|
                0 <= gi < gates@.len() ==> (#[trigger] reads@[gi])@.to_set() == advice_reads(
                    gates@[gi],
                ),
            forall|gi: int| 0 <= gi < gates@.len() ==> (#[trigger] evals@[gi])@.len() == n,
            forall|gi: int, gr: int|
                0 <= gi < gates@.len() && 0 <= gr < n ==> #[trigger] gate_eval(
                    region,
                    gates@,
                    fixed@,
                    gi,
                    gr,
                ) == Ok::<AbsResult, EvalError>(evals@[gi]@[gr]),
            forall|ri: int| 0 <= ri < row ==> (#[trigger] cells@[ri])@.len() == columns@.len(),
            forall|ri: int, k: int|
                0 <= ri < row && 0 <= k < columns@.len() ==> #[trigger] cells@[ri]@[k]
                    == cell_plan_spec(region, gates@, fixed@, columns@[k], ri),
        decreases n - row,
    {
        let mut row_plan: Vec<CellPlan> = Vec::new();
        let mut k: usize = 0;
        while k < columns.len()
            invariant
                region_well_formed(region),
                n == region_rows(region),
                0 <= row < n,
                k <= columns@.len(),
                row_plan@.len() == k,
                evals@.len() == gates@.len(),
                reads@.len() == gates@.len(),
                forall|gi: int|
                    0 <= gi < gates@.len() ==> (#[trigger] reads@[gi])@.to_set() == advice_reads(
                        gates@[gi],
                    ),
                forall|gi: int| 0 <= gi < gates@.len() ==> (#[trigger] evals@[gi])@.len() == n,
                forall|gi: int, gr: int|
                    0 <= gi < gates@.len() && 0 <= gr < n ==> #[trigger] gate_eval(
                        region,
                        gates@,
                        fixed@,
                        gi,
                        gr,
                    ) == Ok::<AbsResult, EvalError>(evals@[gi]@[gr]),
                forall|j: int|
                    0 <= j < k ==> #[trigger] row_plan@[j] == cell_plan_spec(
                        region,
                        gates@,
                        fixed@,
                        columns@[j],
                        row as int,
                    ),
            decreases columns@.len() - k,
        {
            let free = cell_is_trivially_free(
                region,
                gates,
                fixed,
                &reads,
                &evals,
                n,
                columns[k],
                row,
            );
            if free {
                row_plan.push(CellPlan::TriviallyFree);
            } else {
                row_plan.push(CellPlan::NeedsOracle);
            }
            k = k + 1;
        }
        cells.push(row_plan);
        row = row + 1;
    }
    Ok(RegionPlan::Cells(cells))
}

/// Adding a gate to a region can only take cells out of the trivially free
/// ones, and leaves the plan of every cell that the new gate does not read at
/// any row of the region as it was.
pub proof fn lemma_added_gate_monotone(
    region: &Region,
    gates: Seq<Expression>,
    fixed: Seq<Vec<CellValue>>,
    extra: Expression,
    column: usize,
    cell_row: int,
)
    ensures
        trivially_free(region, gates.push(extra), fixed, column, cell_row) ==> trivially_free(
            region,
            gates,
            fixed,
            column,
            cell_row,
        ),
        (forall|gate_row: int|
            0 <= gate_row < region_rows(region) ==> !#[trigger] depends(
                extra,
                gate_row,
                column,
                cell_row,
            )) ==> cell_plan_spec(region, gates.push(extra), fixed, column, cell_row)
            == cell_plan_spec(region, gates, fixed, column, cell_row),
{
    let more = gates.push(extra);
    assert forall|g: int, gate_row: int|
        0 <= g < gates.len() && 0 <= gate_row < region_rows(region) implies #[trigger] may_pin(
            region,
            more,
            fixed,
            g,
            gate_row,
            column,
            cell_row,
        ) == may_pin(region, gates, fixed, g, gate_row, column, cell_row) by {
        assert(more[g] == gates[g]);
    }
    if !trivially_free(region, gates, fixed, column, cell_row) {
        let (g, gate_row) = choose|g: int, gate_row: int|
            0 <= g < gates.len() && 0 <= gate_row < region_rows(region) && #[trigger] may_pin(
                region,
                gates,
                fixed,
                g,
                gate_row,
                column,
                cell_row,
            );
        assert(may_pin(region, more, fixed, g, gate_row, column, cell_row));
    }
    if (forall|gate_row: int|
        0 <= gate_row < region_rows(region) ==> !#[trigger] depends(
            extra,
            gate_row,
            column,
            cell_row,
        )) {
        if !trivially_free(region, more, fixed, column, cell_row) {
            let (g, gate_row) = choose|g: int, gate_row: int|
                0 <= g < more.len() && 0 <= gate_row < region_rows(region) && #[trigger] may_pin(
                    region,
                    more,
                    fixed,
                    g,
                    gate_row,
                    column,
                    cell_row,
                );
            if g == gates.len() {
                assert(more[g] == extra);
                assert(depends(extra, gate_row, column, cell_row));
            } else {
                assert(may_pin(region, gates, fixed, g, gate_row, column, cell_row));
            }
        }
    }
}

/// The plan of a cell depends on the region model alone: two runs over equal
/// regions, gates and fixed columns plan every cell alike.
pub proof fn lemma_plan_deterministic(
    first: &Region,
    second: &Region,
    gates: Seq<Expression>,
    fixed: Seq<Vec<CellValue>>,
    column: usize,
    cell_row: int,
)
    requires
        first.begin == second.begin,
        first.end == second.end,
        first.selectors@ == second.selectors@,
    ensures
        cell_plan_spec(first, gates, fixed, column, cell_row) == cell_plan_spec(
            second,
            gates,
            fixed,
            column,
            cell_row,
        ),
        region_has_eval_error(first, gates, fixed) == region_has_eval_error(second, gates, fixed),
{
    if !trivially_free(first, gates, fixed, column, cell_row) {
        let (g, gate_row) = choose|g: int, gate_row: int|
            0 <= g < gates.len() && 0 <= gate_row < region_rows(first) && #[trigger] may_pin(
                first,
                gates,
                fixed,
                g,
                gate_row,
                column,
                cell_row,
            );
        assert(may_pin(second, gates, fixed, g, gate_row, column, cell_row));
    }
    if !trivially_free(second, gates, fixed, column, cell_row) {
        let (g, gate_row) = choose|g: int, gate_row: int|
            0 <= g < gates.len() && 0 <= gate_row < region_rows(second) && #[trigger] may_pin(
                second,
                gates,
                fixed,
                g,
                gate_row,
                column,
                cell_row,
            );
        assert(may_pin(first, gates, fixed, g, gate_row, column, cell_row));
    }
    if region_has_eval_error(first, gates, fixed) {
        let (g, gate_row) = choose|g: int, gate_row: int|
            0 <= g < gates.len() && 0 <= gate_row < region_rows(first) && #[trigger] gate_eval(
                first,
                gates,
                fixed,
                g,
                gate_row,
            ) is Err;
        assert(gate_eval(second, gates, fixed, g, gate_row) is Err);
    }
    if region_has_eval_error(second, gates, fixed) {
        let (g, gate_row) = choose|g: int, gate_row: int|
            0 <= g < gates.len() && 0 <= gate_row < region_rows(second) && #[trigger] gate_eval(
                second,
                gates,
                fixed,
                g,
                gate_row,
            ) is Err;
        assert(gate_eval(first, gates, fixed, g, gate_row) is Err);
    }
}

/// A candidate cell: its region, its advice column and its absolute row.
#[derive(Debug, Clone, Copy, PartialEq, Eq, Structural)]
pub struct Cell {
    pub region: usize,
    pub column: usize,
    pub row: usize,
}

/// The candidate cell of `column` at row `row` of the region, counted from its start.
pub fn candidate_cell(region: &Region, column: usize, row: usize) -> (r: Cell)
    requires
        row < region_rows(region),
    ensures
        r == (Cell { region: region.id, column, row: (region.begin + row) as usize }),
{
    Cell { region: region.id, column, row: region.begin + row }
}

/// The decision oracle's answer on whether a second satisfying assignment
/// exists that differs on the cell.
#[derive(Debug)]
pub enum Verdict {
    /// Such an assignment exists; it is given.
    Sat(Vec<FieldElement>),
    /// No such assignment exists.
    Unsat,
    /// The oracle could not decide in time.
    Unknown,
    /// The oracle itself failed on this query.
    Failed,
}

/// Why a cell or a region could not be decided.
#[derive(Debug, Clone, Copy, PartialEq, Eq, Structural)]
pub enum InconclusiveReason {
    Timeout,
    OracleFailure,
    Eval(EvalError),
}

/// An under-constrained cell, with the alternate assignment that the oracle
/// found, if the oracle was asked.
#[derive(Debug)]
pub struct Finding {
    pub cell: Cell,
    pub counter_example: Option<Vec<FieldElement>>,
}

/// What the analysis concluded for one cell.
#[derive(Debug)]
pub enum CellOutcome {
    /// The constraints determine the cell.
    Pinned,
    UnderConstrained(Finding),
    Inconclusive(InconclusiveReason),
}

/// The finding for a cell that abstract evaluation showed to be trivially free.
pub fn trivial_finding(cell: Cell) -> (r: CellOutcome)
    ensures
        r == CellOutcome::UnderConstrained(Finding { cell, counter_example: None }),
{
    CellOutcome::UnderConstrained(Finding { cell, counter_example: None })
}

/// Turns the oracle's verdict on a cell into the cell's outcome. An unknown or
/// failed verdict is never taken for a pinned cell.
pub fn decide_cell(cell: Cell, verdict: Verdict) -> (r: CellOutcome)
    ensures
        match verdict {
            Verdict::Sat(w) => r == CellOutcome::UnderConstrained(
                Finding { cell, counter_example: Some(w) },
            ),
            Verdict::Unsat => r == CellOutcome::Pinned,
            Verdict::Unknown => r == CellOutcome::Inconclusive(InconclusiveReason::Timeout),
            Verdict::Failed => r == CellOutcome::Inconclusive(InconclusiveReason::OracleFailure),
        },
{
    match verdict {
        Verdict::Sat(w) => CellOutcome::UnderConstrained(Finding { cell, counter_example: Some(w) }),
        Verdict::Unsat => CellOutcome::Pinned,
        Verdict::Unknown => CellOutcome::Inconclusive(InconclusiveReason::Timeout),
        Verdict::Failed => CellOutcome::Inconclusive(InconclusiveReason::OracleFailure),
    }
}

/// The outcome of a planned cell: a trivially free cell is a finding without
/// consulting the oracle; any other cell takes the oracle's verdict, and a
/// query left without an answer counts as one that ran out of time.
pub open spec fn cell_outcome_spec(cell: Cell, plan: CellPlan, verdict: Option<Verdict>) -> CellOutcome {
    match plan {
        CellPlan::TriviallyFree => CellOutcome::UnderConstrained(
            Finding { cell, counter_example: None },
        ),
        CellPlan::NeedsOracle => match verdict {
            Some(Verdict::Sat(w)) => CellOutcome::UnderConstrained(
                Finding { cell, counter_example: Some(w) },
            ),
            Some(Verdict::Unsat) => CellOutcome::Pinned,
            Some(Verdict::Failed) => CellOutcome::Inconclusive(InconclusiveReason::OracleFailure),
            _ => CellOutcome::Inconclusive(InconclusiveReason::Timeout),
        },
    }
}

/// Decides one planned cell from its plan and, where the oracle was asked,
/// its verdict.
pub fn cell_outcome(cell: Cell, plan: CellPlan, verdict: Option<Verdict>) -> (r: CellOutcome)
    ensures
        r == cell_outcome_spec(cell, plan, verdict),
{
    match plan {
        CellPlan::TriviallyFree => trivial_finding(cell),
        CellPlan::NeedsOracle => match verdict {
            Some(v) => decide_cell(cell, v),
            None => CellOutcome::Inconclusive(InconclusiveReason::Timeout),
        },
    }
}

/// Whether a region was fully decided.
#[derive(Debug, Clone, Copy, PartialEq, Eq, Structural)]
pub enum RegionStatus {
    Complete,
    Inconclusive(InconclusiveReason),
}

/// The result of analysing one region: its status and the outcome of each cell.
#[derive(Debug)]
pub struct RegionReport {
    pub region: usize,
    pub status: RegionStatus,
    pub outcomes: Vec<CellOutcome>,
}

/// The status of a region whose cells had the given outcomes: inconclusive
/// with the reason of the first undecided cell, else complete.
pub open spec fn status_of(outcomes: Seq<CellOutcome>) -> RegionStatus {
    if exists|i: int| 0 <= i < outcomes.len() && #[trigger] outcomes[i] is Inconclusive {
        let i = choose|i: int|
            0 <= i < outcomes.len() && #[trigger] outcomes[i] is Inconclusive && forall|j: int|
                0 <= j < i ==> !(#[trigger] outcomes[j] is Inconclusive);
        RegionStatus::Inconclusive(outcomes[i]->Inconclusive_0)
    } else {
        RegionStatus::Complete
    }
}

/// Collects the outcomes of a region's cells into the region's report.
pub fn finish_region(region: usize, outcomes: Vec<CellOutcome>) -> (r: RegionReport)
    ensures
        r.region == region,
        r.outcomes@ == outcomes@,
        r.status == status_of(outcomes@),
{
    let mut i: usize = 0;
    while i < outcomes.len()
        invariant
            i <= outcomes@.len(),
            forall|j: int| 0 <= j < i ==> !(#[trigger] outcomes@[j] is Inconclusive),
        decreases outcomes@.len() - i,
    {
        if let CellOutcome::Inconclusive(reason) = &outcomes[i] {
            let reason = *reason;
            proof {
                let k = choose|k: int|
                    0 <= k < outcomes@.len() && #[trigger] outcomes@[k] is Inconclusive && forall|
                        j: int,
                    | 0 <= j < k ==> !(#[trigger] outcomes@[j] is Inconclusive);
                if k < i {
                } else if k > i {
                    assert(outcomes@[i as int] is Inconclusive);
                }
            }
            return RegionReport { region, status: RegionStatus::Inconclusive(reason), outcomes };
        }
        i = i + 1;
    }
    RegionReport { region, status: RegionStatus::Complete, outcomes }
}

/// The outcome of each planned cell, by region row and then by candidate column.
pub open spec fn planned_outcomes(
    region: &Region,
    columns: Seq<usize>,
    cells: Seq<Vec<CellPlan>>,
    verdicts: Seq<Vec<Option<Verdict>>>,
) -> Seq<Seq<CellOutcome>> {
    Seq::new(
        cells.len(),
        |row: int|
            Seq::new(
                columns.len(),
                |k: int|
                    cell_outcome_spec(
                        Cell { region: region.id, column: columns[k], row: (region.begin + row) as usize },
                        cells[row]@[k],
                        verdicts[row]@[k],
                    ),
            ),
    )
}

/// Decides every planned cell of a region and reports the region. `verdicts`
/// holds, for each cell of `cells`, the oracle's answer where it was asked;
/// the outcomes are listed row by row, in the order of `columns` within a row.
pub fn assemble_region(
    region: &Region,
    columns: &Vec<usize>,
    cells: &Vec<Vec<CellPlan>>,
    verdicts: Vec<Vec<Option<Verdict>>>,
) -> (r: RegionReport)
    requires
        cells@.len() <= region_rows(region),
        verdicts@.len() == cells@.len(),
        forall|row: int| 0 <= row < cells@.len() ==> (#[trigger] cells@[row])@.len() == columns@.len(),
        forall|row: int|
            0 <= row < verdicts@.len() ==> (#[trigger] verdicts@[row])@.len() == columns@.len(),
    ensures
        r.region == region.id,
        r.outcomes@ == planned_outcomes(region, columns@, cells@, verdicts@).flatten(),
        r.status == status_of(r.outcomes@),
{
    let ghost all = verdicts@;
    let ghost planned = planned_outcomes(region, columns@, cells@, all);
    let mut rest = verdicts;
    let mut outcomes: Vec<CellOutcome> = Vec::new();
    let mut row: usize = 0;
    proof {
        assert(planned.subrange(0, 0) =~= Seq::<Seq<CellOutcome>>::empty());
        assert(outcomes@ =~= planned.subrange(0, 0).flatten());
    }
    while row < cells.len()
        invariant
            row <= cells@.len(),
            cells@.len() <= region_rows(region),
            all.len() == cells@.len(),
            planned == planned_outcomes(region, columns@, cells@, all),
            rest@ == all.subrange(row as int, all.len() as int),
            forall|ri: int| 0 <= ri < cells@.len() ==> (#[trigger] cells@[ri])@.len() == columns@.len(),
            forall|ri: int| 0 <= ri < all.len() ==> (#[trigger] all[ri])@.len() == columns@.len(),
            outcomes@ == planned.subrange(0, row as int).flatten(),
        decreases cells@.len() - row,
    {
        let mut row_verdicts = rest.remove(0);
        assert(row_verdicts@ == all[row as int]@);
        let ghost start = outcomes@;
        let mut k: usize = 0;
        while k < columns.len()
            invariant
                row < cells@.len(),
                cells@.len() <= region_rows(region),
                k <= columns@.len(),
                cells@[row as int]@.len() == columns@.len(),
                all[row as int]@.len() == columns@.len(),
                planned == planned_outcomes(region, columns@, cells@, all),
                row_verdicts@ == all[row as int]@.subrange(k as int, columns@.len() as int),
                outcomes@ == start + planned[row as int].subrange(0, k as int),
            decreases columns@.len() - k,
        {
            let verdict = row_verdicts.remove(0);
            let cell = candidate_cell(region, columns[k], row);
            let outcome = cell_outcome(cell, cells[row][k], verdict);
            outcomes.push(outcome);
            proof {
                assert(planned[row as int].subrange(0, k + 1) =~= planned[row as int].subrange(
                    0,
                    k as int,
                ).push(planned[row as int][k as int]));
            }
            k = k + 1;
        }
        proof {
            assert(planned[row as int].subrange(0, columns@.len() as int) =~= planned[row as int]);
            assert(planned.subrange(0, row + 1) =~= planned.subrange(0, row as int).push(
                planned[row as int],
            ));
            planned.subrange(0, row as int).lemma_flatten_push(planned[row as int]);
        }
        row = row + 1;
    }
    assert(planned.subrange(0, cells@.len() as int) =~= planned);
    finish_region(region.id, outcomes)
}

/// The report of a region whose abstract evaluation failed: inconclusive,
/// with no cell decided.
pub fn inconclusive_region(region: usize, error: EvalError) -> (r: RegionReport)
    ensures
        r.region == region,
        r.outcomes@.len() == 0,
        r.status == RegionStatus::Inconclusive(InconclusiveReason::Eval(error)),
{
    RegionReport {
        region,
        status: RegionStatus::Inconclusive(InconclusiveReason::Eval(error)),
        outcomes: Vec::new(),
    }
}

/// Trivial pruning hides no finding: when a cell is trivially free, every gate
/// instance of the region that reads it holds under every witness, both as
/// given and with the cell's value changed to any other, so none of them pins it.
pub proof fn lemma_trivial_skip_sound(
    region: &Region,
    gates: Seq<Expression>,
    fixed: Seq<Vec<CellValue>>,
    p: int,
    advice: spec_fn(usize, int) -> int,
    instance: spec_fn(usize, int) -> int,
    challenge: spec_fn(usize) -> int,
    column: usize,
    cell_row: int,
    other_value: int,
    g: int,
    gate_row: int,
)
    requires
        is_prime(p),
        region_well_formed(region),
        canonical_expr(gates[g], p),
        canonical_fixed(fixed, p),
        !region_has_eval_error(region, gates, fixed),
        trivially_free(region, gates, fixed, column, cell_row),
        0 <= g < gates.len(),
        0 <= gate_row < region_rows(region),
        depends(gates[g], gate_row, column, cell_row),
    ensures
        is_zero_mod(
            concrete_value(
                gates[g],
                region.selectors@,
                region.begin,
                gate_row as i32,
                fixed,
                advice,
                instance,
                challenge,
            ),
            p,
        ),
        is_zero_mod(
            concrete_value(
                gates[g],
                region.selectors@,
                region.begin,
                gate_row as i32,
                fixed,
                |c: usize, r: int|
                    if c == column && r == region.begin + cell_row {
                        other_value
                    } else {
                        advice(c, r)
                    },
                instance,
                challenge,
            ),
            p,
        ),
{
    assert(!may_pin(region, gates, fixed, g, gate_row, column, cell_row));
    assert(!(gate_eval(region, gates, fixed, g, gate_row) is Err));
    lemma_zero_gate_cannot_pin(
        gates[g],
        region.selectors@,
        region.begin,
        region.end,
        gate_row as i32,
        fixed,
        p,
        advice,
        instance,
        challenge,
        column,
        region.begin + cell_row,
        other_value,
    );
}

/// Some gate instance of the region reads the advice cell (`column`, `cell_row`).
pub open spec fn gate_reads_cell(
    region: &Region,
    gate: Expression,
    column: usize,
    cell_row: int,
) -> bool {
    exists|gate_row: int|
        0 <= gate_row < region_rows(region) && #[trigger] depends(gate, gate_row, column, cell_row)
}

/// The indices, in increasing order, of the gates whose dependency set holds the
/// advice cell of `column` at row `cell_row` of the region, at some row of the
/// region: the gates that the oracle must take into account for that cell.
pub fn gates_reading_cell(
    region: &Region,
    gates: &Vec<Expression>,
    column: usize,
    cell_row: usize,
) -> (r: Vec<usize>)
    requires
        region_well_formed(region),
        cell_row < region_rows(region),
    ensures
        forall|i: int, j: int| 0 <= i < j < r@.len() ==> r@[i] < r@[j],
        forall|i: int| 0 <= i < r@.len() ==> #[trigger] r@[i] < gates@.len(),
        forall|g: int|
            0 <= g < gates@.len() ==> (r@.contains(g as usize) <==> gate_reads_cell(
                region,
                gates@[g],
                column,
                cell_row as int,
            )),
{
    let n: i32 = (region.end - region.begin) as i32;
    let row: i32 = cell_row as i32;
    let item_column = Column { index: column, kind: ColumnKind::Advice };
    let mut found: Vec<usize> = Vec::new();
    let mut g: usize = 0;
    while g < gates.len()
        invariant
            region_well_formed(region),
            n == region_rows(region),
            row == cell_row,
            0 <= row < n,
            item_column == (Column { index: column, kind: ColumnKind::Advice }),
            g <= gates@.len(),
            forall|i: int, j: int| 0 <= i < j < found@.len() ==> found@[i] < found@[j],
            forall|i: int| 0 <= i < found@.len() ==> #[trigger] found@[i] < g,
            forall|gi: int|
                0 <= gi < g ==> (found@.contains(gi as usize) <==> gate_reads_cell(
                    region,
                    gates@[gi],
                    column,
                    cell_row as int,
                )),
        decreases gates@.len() - g,
    {
        let reads = extract_columns(&gates[g]);
        let mut gr: i32 = 0;
        let mut hit = false;
        while gr < n && !hit
            invariant
                0 <= gr <= n,
                n == region_rows(region),
                0 <= row < n,
                row == cell_row,
                g < gates@.len(),
                reads@.to_set() == advice_reads(gates@[g as int]),
                item_column == (Column { index: column, kind: ColumnKind::Advice }),
                hit ==> gate_reads_cell(region, gates@[g as int], column, cell_row as int),
                !hit ==> forall|gr2: int|
                    0 <= gr2 < gr ==> !#[trigger] depends(
                        gates@[g as int],
                        gr2,
                        column,
                        cell_row as int,
                    ),
            decreases n - gr + if hit { 0int } else { 1int },
        {
            let item = (item_column, Rotation(row - gr));
            if contains_read(&reads, item) {
                assert(reads@.to_set().contains(item));
                assert(depends(gates@[g as int], gr as int, column, cell_row as int));
                hit = true;
            } else {
                assert(!reads@.to_set().contains(item));
                gr = gr + 1;
            }
        }
        let ghost before = found@;
        if hit {
            found.push(g);
            proof {
                assert forall|gi: int|
                    0 <= gi < g implies (#[trigger] found@.contains(gi as usize) <==> before.contains(
                        gi as usize,
                    )) by {
                    if before.contains(gi as usize) {
                        let k = choose|k: int| 0 <= k < before.len() && before[k] == gi as usize;
                        assert(found@[k] == gi as usize);
                    }
                    if found@.contains(gi as usize) {
                        let k = choose|k: int| 0 <= k < found@.len() && found@[k] == gi as usize;
                        if k < before.len() {
                            assert(before[k] == gi as usize);
                        }
                    }
                }
                assert(found@[before.len() as int] == g);
            }
        } else {
            assert(!found@.contains(g));
        }
        g = g + 1;
    }
    found
}

} // verus!
