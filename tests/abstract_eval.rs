use korrekt::domain::{combine_product, combine_sum, AbsResult};
use korrekt::eval::{eval_abstract, EvalError};
use korrekt::expr::{CellValue, Column, ColumnKind, Expression, FieldElement, Rotation, Selector};
use korrekt::extract::extract_columns;

fn fe(v: u8) -> FieldElement {
    FieldElement { repr: vec![v, 0, 0, 0] }
}

fn constant(v: u8) -> Expression {
    Expression::Constant(fe(v))
}

fn advice(column: usize, rot: i32) -> Expression {
    Expression::Advice { column, rotation: Rotation(rot) }
}

fn fixed_q(column: usize, rot: i32) -> Expression {
    Expression::Fixed { column, rotation: Rotation(rot) }
}

fn sum(a: Expression, b: Expression) -> Expression {
    Expression::Sum(Box::new(a), Box::new(b))
}

fn product(a: Expression, b: Expression) -> Expression {
    Expression::Product(Box::new(a), Box::new(b))
}

fn eval(e: &Expression, selectors: &Vec<Selector>, fixed: &Vec<Vec<CellValue>>) -> Result<AbsResult, EvalError> {
    eval_abstract(e, selectors, 2, 6, 1, fixed)
}

fn fixed_table() -> Vec<Vec<CellValue>> {
    vec![vec![
        CellValue::Assigned(fe(0)),
        CellValue::Assigned(fe(0)),
        CellValue::Assigned(fe(0)),
        CellValue::Assigned(fe(5)),
        CellValue::Assigned(fe(0)),
        CellValue::Unassigned,
        CellValue::Poisoned,
    ]]
}

#[test]
fn sum_table() {
    assert_eq!(combine_sum(AbsResult::Zero, AbsResult::Zero), AbsResult::Zero);
    assert_eq!(combine_sum(AbsResult::Zero, AbsResult::NonZero), AbsResult::NonZero);
    assert_eq!(combine_sum(AbsResult::NonZero, AbsResult::Zero), AbsResult::NonZero);
    assert_eq!(combine_sum(AbsResult::NonZero, AbsResult::NonZero), AbsResult::Variable);
    assert_eq!(combine_sum(AbsResult::Variable, AbsResult::Zero), AbsResult::Variable);
    assert_eq!(combine_sum(AbsResult::NonZero, AbsResult::Variable), AbsResult::Variable);
    assert_eq!(combine_sum(AbsResult::Variable, AbsResult::Variable), AbsResult::Variable);
}

#[test]
fn product_table() {
    assert_eq!(combine_product(AbsResult::Zero, AbsResult::Variable), AbsResult::Zero);
    assert_eq!(combine_product(AbsResult::Variable, AbsResult::Zero), AbsResult::Zero);
    assert_eq!(combine_product(AbsResult::NonZero, AbsResult::NonZero), AbsResult::NonZero);
    assert_eq!(combine_product(AbsResult::NonZero, AbsResult::Variable), AbsResult::Variable);
    assert_eq!(combine_product(AbsResult::Variable, AbsResult::Variable), AbsResult::Variable);
}

#[test]
fn field_element_zero() {
    assert!(fe(0).is_zero());
    assert!(!fe(7).is_zero());
    assert!(!FieldElement { repr: vec![0, 0, 0, 1] }.is_zero());
    assert!(FieldElement { repr: vec![] }.is_zero());
}

#[test]
fn constants_and_selectors() {
    let fixed = fixed_table();
    let sel = vec![Selector(3)];
    assert_eq!(eval(&constant(0), &sel, &fixed), Ok(AbsResult::Zero));
    assert_eq!(eval(&constant(9), &sel, &fixed), Ok(AbsResult::NonZero));
    assert_eq!(eval(&Expression::Selector(Selector(3)), &sel, &fixed), Ok(AbsResult::NonZero));
    assert_eq!(eval(&Expression::Selector(Selector(4)), &sel, &fixed), Ok(AbsResult::Zero));
    assert_eq!(eval(&advice(0, 0), &sel, &fixed), Ok(AbsResult::Variable));
    let inst = Expression::Instance { column: 0, rotation: Rotation(0) };
    assert_eq!(eval(&inst, &sel, &fixed), Ok(AbsResult::Variable));
}

#[test]
fn nonzero_sum_may_cancel() {
    let fixed = fixed_table();
    let e = sum(constant(1), Expression::Negated(Box::new(constant(1))));
    assert_eq!(eval(&e, &vec![], &fixed), Ok(AbsResult::Variable));
    let z = sum(constant(0), constant(4));
    assert_eq!(eval(&z, &vec![], &fixed), Ok(AbsResult::NonZero));
}

#[test]
fn product_absorbs_zero() {
    let fixed = fixed_table();
    let gate = product(Expression::Selector(Selector(1)), sum(advice(0, 0), advice(1, 0)));
    assert_eq!(eval(&gate, &vec![], &fixed), Ok(AbsResult::Zero));
    assert_eq!(eval(&gate, &vec![Selector(1)], &fixed), Ok(AbsResult::Variable));
    let nn = product(constant(2), constant(3));
    assert_eq!(eval(&nn, &vec![], &fixed), Ok(AbsResult::NonZero));
}

#[test]
fn scaled_expressions() {
    let fixed = fixed_table();
    let zero_scale = Expression::Scaled(Box::new(Expression::Challenge(0)), fe(0));
    assert_eq!(eval(&zero_scale, &vec![], &fixed), Ok(AbsResult::Zero));
    let scaled = Expression::Scaled(Box::new(constant(2)), fe(3));
    assert_eq!(eval(&scaled, &vec![], &fixed), Ok(AbsResult::NonZero));
}

#[test]
fn fixed_cells_by_region_row() {
    let fixed = fixed_table();
    // region begins at 2, row 1: rotation 0 reads absolute row 3.
    assert_eq!(eval(&fixed_q(0, 0), &vec![], &fixed), Ok(AbsResult::Variable));
    assert_eq!(eval(&fixed_q(0, -1), &vec![], &fixed), Ok(AbsResult::Zero));
    assert_eq!(eval(&fixed_q(0, 1), &vec![], &fixed), Ok(AbsResult::Zero));
}

#[test]
fn unassigned_fixed_cell_is_an_error() {
    let fixed = fixed_table();
    let expected = |abs_row: i128, column: usize| EvalError::UnassignedFixedCell {
        column,
        abs_row,
        region_begin: 2,
        region_end: 6,
        row: 1,
    };
    assert_eq!(eval(&fixed_q(0, 2), &vec![], &fixed), Err(expected(5, 0)));
    assert_eq!(eval(&fixed_q(0, 3), &vec![], &fixed), Err(expected(6, 0)));
    assert_eq!(eval(&fixed_q(0, 4), &vec![], &fixed), Err(expected(7, 0)));
    assert_eq!(eval(&fixed_q(0, -4), &vec![], &fixed), Err(expected(-1, 0)));
    assert_eq!(eval(&fixed_q(1, 0), &vec![], &fixed), Err(expected(3, 1)));
    let nested = sum(advice(0, 0), product(constant(1), fixed_q(0, 2)));
    assert_eq!(eval(&nested, &vec![], &fixed), Err(expected(5, 0)));
}

#[test]
fn challenge_is_rejected() {
    let fixed = fixed_table();
    let e = sum(constant(1), Expression::Challenge(0));
    assert_eq!(
        eval(&e, &vec![], &fixed),
        Err(EvalError::UnsupportedInAbstractDomain { region_begin: 2, region_end: 6, row: 1 })
    );
}

#[test]
fn extract_advice_reads_once() {
    let e = sum(
        product(advice(0, 0), advice(1, -1)),
        Expression::Negated(Box::new(Expression::Scaled(Box::new(sum(advice(0, 0), fixed_q(0, 0))), fe(2)))),
    );
    let reads = extract_columns(&e);
    assert_eq!(reads.len(), 2);
    let a0 = (Column { index: 0, kind: ColumnKind::Advice }, Rotation(0));
    let a1 = (Column { index: 1, kind: ColumnKind::Advice }, Rotation(-1));
    assert!(reads.contains(&a0));
    assert!(reads.contains(&a1));
    let only_fixed = sum(fixed_q(0, 0), Expression::Instance { column: 0, rotation: Rotation(0) });
    assert!(extract_columns(&only_fixed).is_empty());
}
