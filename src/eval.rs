use vstd::prelude::*;
use vstd::arithmetic::div_mod::lemma_small_mod;
use crate::domain::{
    combine_product, combine_sum, describes, is_prime, is_zero_mod, lemma_negation_keeps_zeroness,
    lemma_product_sound, lemma_scaled_sound, lemma_sum_sound, product_abs, sum_abs,
    AbsResult,
};
use crate::expr::{CellValue, Expression, FieldElement, Selector};

verus! {

/// Why an expression could not be evaluated abstractly, with the region span
/// and the row at which evaluation was attempted.
#[derive(Debug, Clone, Copy, PartialEq, Eq, Structural)]
pub enum EvalError {
    /// A fixed cell that the expression reads is missing, unassigned or poisoned.
    UnassignedFixedCell {
        column: usize,
        abs_row: i128,
        region_begin: usize,
        region_end: usize,
        row: i32,
    },
    /// The expression holds a node (a challenge) that the domain cannot evaluate.
    UnsupportedInAbstractDomain { region_begin: usize, region_end: usize, row: i32 },
}

/// The absolute row of a query at `rotation` from `row` in a region that starts at `begin`.
pub open spec fn absolute_row(begin: usize, row: i32, rotation: i32) -> int {
    begin + row + rotation
}

/// The value assigned to fixed cell (`column`, `abs_row`), if the table holds one there.
pub open spec fn fixed_cell(fixed: Seq<Vec<CellValue>>, column: usize, abs_row: int) -> Option<
    FieldElement,
> {
    if column < fixed.len() && 0 <= abs_row < fixed[column as int]@.len() {
        match fixed[column as int]@[abs_row] {
            CellValue::Assigned(v) => Some(v),
            _ => None,
        }
    } else {
        None
    }
}

/// The abstract value of `e` at `row` of the region `[begin, end)`, or the first
/// error met, left operand before right.
pub open spec fn eval_spec(
    e: Expression,
    selectors: Seq<Selector>,
    begin: usize,
    end: usize,
    row: i32,
    fixed: Seq<Vec<CellValue>>,
) -> Result<AbsResult, EvalError>
    decreases e,
{
    match e {
        Expression::Constant(k) => Ok(if k.value() == 0 { AbsResult::Zero } else { AbsResult::NonZero }),
        Expression::Selector(s) => Ok(
            if selectors.contains(s) { AbsResult::NonZero } else { AbsResult::Zero },
        ),
        Expression::Fixed { column, rotation } => {
            let r = absolute_row(begin, row, rotation.0);
            match fixed_cell(fixed, column, r) {
                Some(v) => Ok(if v.value() == 0 { AbsResult::Zero } else { AbsResult::Variable }),
                None => Err(
                    EvalError::UnassignedFixedCell {
                        column,
                        abs_row: r as i128,
                        region_begin: begin,
                        region_end: end,
                        row,
                    },
                ),
            }
        },
        Expression::Advice { .. } => Ok(AbsResult::Variable),
        Expression::Instance { .. } => Ok(AbsResult::Variable),
        Expression::Negated(x) => eval_spec(*x, selectors, begin, end, row, fixed),
        Expression::Sum(l, r) => match eval_spec(*l, selectors, begin, end, row, fixed) {
            Err(err) => Err(err),
            Ok(a) => match eval_spec(*r, selectors, begin, end, row, fixed) {
                Err(err) => Err(err),
                Ok(b) => Ok(sum_abs(a, b)),
            },
        },
        Expression::Product(l, r) => match eval_spec(*l, selectors, begin, end, row, fixed) {
            Err(err) => Err(err),
            Ok(a) => match eval_spec(*r, selectors, begin, end, row, fixed) {
                Err(err) => Err(err),
                Ok(b) => Ok(product_abs(a, b)),
            },
        },
        Expression::Scaled(x, k) => if k.value() == 0 {
            Ok(AbsResult::Zero)
        } else {
            eval_spec(*x, selectors, begin, end, row, fixed)
        },
        Expression::Challenge(_) => Err(
            EvalError::UnsupportedInAbstractDomain { region_begin: begin, region_end: end, row },
        ),
    }
}

fn contains_selector(selectors: &Vec<Selector>, s: Selector) -> (r: bool)
    ensures
        r == selectors@.contains(s),
{
    let mut i: usize = 0;
    while i < selectors.len()
        invariant
            i <= selectors@.len(),
            forall|j: int| 0 <= j < i ==> selectors@[j] != s,
        decreases selectors@.len() - i,
    {
        if selectors[i] == s {
            return true;
        }
        i = i + 1;
    }
    false
}

/// Evaluates `expr` abstractly at `row_num` of the region `[region_begin, region_end)`,
/// where `selectors` are the active selectors and `fixed` the fixed columns.
///
/// Constants, scale factors and fixed cells are read by their zero-ness, so
/// they must hold reduced (canonical) encodings: see `canonical_expr` and
/// `canonical_fixed`, under which the result is sound (`lemma_eval_sound`).
pub fn eval_abstract(
    expr: &Expression,
    selectors: &Vec<Selector>,
    region_begin: usize,
    region_end: usize,
    row_num: i32,
    fixed: &Vec<Vec<CellValue>>,
) -> (r: Result<AbsResult, EvalError>)
    ensures
        r == eval_spec(*expr, selectors@, region_begin, region_end, row_num, fixed@),
    decreases expr,
{
    match expr {
        Expression::Constant(v) => {
            if v.is_zero() {
                Ok(AbsResult::Zero)
            } else {
                Ok(AbsResult::NonZero)
            }
        },
        Expression::Selector(selector) => {
            if contains_selector(selectors, *selector) {
                Ok(AbsResult::NonZero)
            } else {
                Ok(AbsResult::Zero)
            }
        },
        Expression::Fixed { column, rotation } => {
            let col = *column;
            let abs_row: i128 = region_begin as i128 + row_num as i128 + rotation.0 as i128;
            if col < fixed.len() && 0 <= abs_row && abs_row < fixed[col].len() as i128 {
                match &fixed[col][abs_row as usize] {
                    CellValue::Assigned(v) => {
                        if v.is_zero() {
                            return Ok(AbsResult::Zero);
                        } else {
                            return Ok(AbsResult::Variable);
                        }
                    },
                    _ => {},
                }
            }
            Err(
                EvalError::UnassignedFixedCell {
                    column: col,
                    abs_row,
                    region_begin,
                    region_end,
                    row: row_num,
                },
            )
        },
        Expression::Advice { .. } => Ok(AbsResult::Variable),
        Expression::Instance { .. } => Ok(AbsResult::Variable),
        Expression::Negated(inner) => eval_abstract(
            &**inner,
            selectors,
            region_begin,
            region_end,
            row_num,
            fixed,
        ),
        Expression::Sum(left, right) => {
            let a = eval_abstract(&**left, selectors, region_begin, region_end, row_num, fixed)?;
            let b = eval_abstract(&**right, selectors, region_begin, region_end, row_num, fixed)?;
            Ok(combine_sum(a, b))
        },
        Expression::Product(left, right) => {
            let a = eval_abstract(&**left, selectors, region_begin, region_end, row_num, fixed)?;
            let b = eval_abstract(&**right, selectors, region_begin, region_end, row_num, fixed)?;
            Ok(combine_product(a, b))
        },
        Expression::Scaled(inner, scale) => {
            if scale.is_zero() {
                Ok(AbsResult::Zero)
            } else {
                eval_abstract(&**inner, selectors, region_begin, region_end, row_num, fixed)
            }
        },
        Expression::Challenge(_) => Err(
            EvalError::UnsupportedInAbstractDomain { region_begin, region_end, row: row_num },
        ),
    }
}

/// The constants and scale factors of `e` are canonical elements of the field of order `p`.
pub open spec fn canonical_expr(e: Expression, p: int) -> bool
    decreases e,
{
    match e {
        Expression::Constant(k) => k.value() < p,
        Expression::Negated(x) => canonical_expr(*x, p),
        Expression::Sum(l, r) => canonical_expr(*l, p) && canonical_expr(*r, p),
        Expression::Product(l, r) => canonical_expr(*l, p) && canonical_expr(*r, p),
        Expression::Scaled(x, k) => k.value() < p && canonical_expr(*x, p),
        _ => true,
    }
}

/// Every assigned fixed cell holds a canonical element of the field of order `p`.
pub open spec fn canonical_fixed(fixed: Seq<Vec<CellValue>>, p: int) -> bool {
    forall|column: usize, abs_row: int| #[trigger]
        fixed_cell(fixed, column, abs_row) is Some ==> fixed_cell(
            fixed,
            column,
            abs_row,
        )->Some_0.value() < p
}

/// The value of `e` at `row` of the region starting at `begin`, as an integer
/// taken modulo the field order: active selectors are one, inactive ones zero,
/// and advice, instance and challenge values come from the given witness.
pub open spec fn concrete_value(
    e: Expression,
    selectors: Seq<Selector>,
    begin: usize,
    row: i32,
    fixed: Seq<Vec<CellValue>>,
    advice: spec_fn(usize, int) -> int,
    instance: spec_fn(usize, int) -> int,
    challenge: spec_fn(usize) -> int,
) -> int
    decreases e,
{
    match e {
        Expression::Constant(k) => k.value() as int,
        Expression::Selector(s) => if selectors.contains(s) { 1 } else { 0 },
        Expression::Fixed { column, rotation } => match fixed_cell(
            fixed,
            column,
            absolute_row(begin, row, rotation.0),
        ) {
            Some(v) => v.value() as int,
            None => 0,
        },
        Expression::Advice { column, rotation } => advice(column, absolute_row(begin, row, rotation.0)),
        Expression::Instance { column, rotation } => instance(
            column,
            absolute_row(begin, row, rotation.0),
        ),
        Expression::Negated(x) => -concrete_value(
            *x,
            selectors,
            begin,
            row,
            fixed,
            advice,
            instance,
            challenge,
        ),
        Expression::Sum(l, r) => concrete_value(
            *l,
            selectors,
            begin,
            row,
            fixed,
            advice,
            instance,
            challenge,
        ) + concrete_value(*r, selectors, begin, row, fixed, advice, instance, challenge),
        Expression::Product(l, r) => concrete_value(
            *l,
            selectors,
            begin,
            row,
            fixed,
            advice,
            instance,
            challenge,
        ) * concrete_value(*r, selectors, begin, row, fixed, advice, instance, challenge),
        Expression::Scaled(x, k) => concrete_value(
            *x,
            selectors,
            begin,
            row,
            fixed,
            advice,
            instance,
            challenge,
        ) * k.value(),
        Expression::Challenge(i) => challenge(i),
    }
}

/// Soundness of abstract evaluation: a value computed for a gate describes the
/// gate's concrete value under every witness.
pub proof fn lemma_eval_sound(
    e: Expression,
    selectors: Seq<Selector>,
    begin: usize,
    end: usize,
    row: i32,
    fixed: Seq<Vec<CellValue>>,
    p: int,
    advice: spec_fn(usize, int) -> int,
    instance: spec_fn(usize, int) -> int,
    challenge: spec_fn(usize) -> int,
)
    requires
        is_prime(p),
        canonical_expr(e, p),
        canonical_fixed(fixed, p),
        eval_spec(e, selectors, begin, end, row, fixed) is Ok,
    ensures
        describes(
            eval_spec(e, selectors, begin, end, row, fixed)->Ok_0,
            concrete_value(e, selectors, begin, row, fixed, advice, instance, challenge),
            p,
        ),
    decreases e,
{
    match e {
        Expression::Constant(k) => {
            lemma_small_mod(k.value(), p as nat);
        },
        Expression::Selector(s) => {
            lemma_small_mod(0, p as nat);
            lemma_small_mod(1, p as nat);
        },
        Expression::Fixed { column, rotation } => {
            let r = absolute_row(begin, row, rotation.0);
            if fixed_cell(fixed, column, r) is Some {
                lemma_small_mod(fixed_cell(fixed, column, r)->Some_0.value(), p as nat);
            }
        },
        Expression::Negated(x) => {
            lemma_eval_sound(*x, selectors, begin, end, row, fixed, p, advice, instance, challenge);
            lemma_negation_keeps_zeroness(
                concrete_value(*x, selectors, begin, row, fixed, advice, instance, challenge),
                p,
            );
        },
        Expression::Sum(l, r) => {
            lemma_eval_sound(*l, selectors, begin, end, row, fixed, p, advice, instance, challenge);
            lemma_eval_sound(*r, selectors, begin, end, row, fixed, p, advice, instance, challenge);
            lemma_sum_sound(
                eval_spec(*l, selectors, begin, end, row, fixed)->Ok_0,
                eval_spec(*r, selectors, begin, end, row, fixed)->Ok_0,
                concrete_value(*l, selectors, begin, row, fixed, advice, instance, challenge),
                concrete_value(*r, selectors, begin, row, fixed, advice, instance, challenge),
                p,
            );
        },
        Expression::Product(l, r) => {
            lemma_eval_sound(*l, selectors, begin, end, row, fixed, p, advice, instance, challenge);
            lemma_eval_sound(*r, selectors, begin, end, row, fixed, p, advice, instance, challenge);
            lemma_product_sound(
                eval_spec(*l, selectors, begin, end, row, fixed)->Ok_0,
                eval_spec(*r, selectors, begin, end, row, fixed)->Ok_0,
                concrete_value(*l, selectors, begin, row, fixed, advice, instance, challenge),
                concrete_value(*r, selectors, begin, row, fixed, advice, instance, challenge),
                p,
            );
        },
        Expression::Scaled(x, k) => {
            let v = concrete_value(*x, selectors, begin, row, fixed, advice, instance, challenge);
            lemma_small_mod(k.value(), p as nat);
            if k.value() == 0 {
                assert(v * k.value() == 0) by (nonlinear_arith)
                    requires
                        k.value() == 0,
                ;
                lemma_small_mod(0, p as nat);
            } else {
                lemma_eval_sound(*x, selectors, begin, end, row, fixed, p, advice, instance, challenge);
                lemma_scaled_sound(
                    eval_spec(*x, selectors, begin, end, row, fixed)->Ok_0,
                    v,
                    k.value() as int,
                    p,
                );
            }
        },
        _ => {},
    }
}

/// Trivial pruning hides no finding: a gate that evaluates abstractly to `Zero`
/// holds under every witness, so it holds both before and after the value of
/// any one advice cell is changed, and cannot pin that cell.
pub proof fn lemma_zero_gate_cannot_pin(
    gate: Expression,
    selectors: Seq<Selector>,
    begin: usize,
    end: usize,
    row: i32,
    fixed: Seq<Vec<CellValue>>,
    p: int,
    advice: spec_fn(usize, int) -> int,
    instance: spec_fn(usize, int) -> int,
    challenge: spec_fn(usize) -> int,
    cell_column: usize,
    cell_row: int,
    other_value: int,
)
    requires
        is_prime(p),
        canonical_expr(gate, p),
        canonical_fixed(fixed, p),
        eval_spec(gate, selectors, begin, end, row, fixed) == Ok::<AbsResult, EvalError>(
            AbsResult::Zero,
        ),
    ensures
        is_zero_mod(
            concrete_value(gate, selectors, begin, row, fixed, advice, instance, challenge),
            p,
        ),
        is_zero_mod(
            concrete_value(
                gate,
                selectors,
                begin,
                row,
                fixed,
                |c: usize, r: int|
                    if c == cell_column && r == cell_row {
                        other_value
                    } else {
                        advice(c, r)
                    },
                instance,
                challenge,
            ),
            p,
        ),
{
    lemma_eval_sound(gate, selectors, begin, end, row, fixed, p, advice, instance, challenge);
    lemma_eval_sound(
        gate,
        selectors,
        begin,
        end,
        row,
        fixed,
        p,
        |c: usize, r: int|
            if c == cell_column && r == cell_row {
                other_value
            } else {
                advice(c, r)
            },
        instance,
        challenge,
    );
}

} // verus!
