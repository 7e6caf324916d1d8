use vstd::prelude::*;
use crate::expr::{Column, ColumnKind, Expression, Rotation};

verus! {

/// The advice cells that an expression reads, each as a column and a rotation.
pub open spec fn advice_reads(e: Expression) -> Set<(Column, Rotation)>
    decreases e,
{
    match e {
        Expression::Advice { column, rotation } => set![
            (Column { index: column, kind: ColumnKind::Advice }, rotation),
        ],
        Expression::Negated(x) => advice_reads(*x),
        Expression::Scaled(x, _) => advice_reads(*x),
        Expression::Sum(l, r) => advice_reads(*l) + advice_reads(*r),
        Expression::Product(l, r) => advice_reads(*l) + advice_reads(*r),
        _ => Set::empty(),
    }
}

fn insert_read(dst: &mut Vec<(Column, Rotation)>, item: (Column, Rotation))
    requires
        old(dst)@.no_duplicates(),
    ensures
        final(dst)@.no_duplicates(),
        final(dst)@.to_set() == old(dst)@.to_set().insert(item),
{
    let mut i: usize = 0;
    while i < dst.len()
        invariant
            i <= dst@.len(),
            dst@ == old(dst)@,
            dst@.no_duplicates(),
            forall|j: int| 0 <= j < i ==> dst@[j] != item,
        decreases dst@.len() - i,
    {
        let cur = dst[i];
        if cur.0 == item.0 && cur.1 == item.1 {
            assert(dst@.contains(item));
            assert(dst@.to_set().insert(item) =~= dst@.to_set());
            return;
        }
        i = i + 1;
    }
    let ghost before = dst@;
    dst.push(item);
    assert(dst@.to_set() =~= before.to_set().insert(item)) by {
        assert forall|x| dst@.contains(x) implies #[trigger] before.to_set().insert(item).contains(
            x,
        ) by {
            let k = choose|k: int| 0 <= k < dst@.len() && dst@[k] == x;
            if k < before.len() {
                assert(before[k] == x);
            }
        }
        assert forall|x| before.to_set().insert(item).contains(x) implies #[trigger] dst@.contains(
            x,
        ) by {
            if x == item {
                assert(dst@[before.len() as int] == x);
            } else {
                let k = choose|k: int| 0 <= k < before.len() && before[k] == x;
                assert(dst@[k] == x);
            }
        }
    }
}

fn collect_reads(dst: &mut Vec<(Column, Rotation)>, expr: &Expression)
    requires
        old(dst)@.no_duplicates(),
    ensures
        final(dst)@.no_duplicates(),
        final(dst)@.to_set() == old(dst)@.to_set() + advice_reads(*expr),
    decreases expr,
{
    match expr {
        Expression::Advice { column, rotation } => {
            let c = Column { index: *column, kind: ColumnKind::Advice };
            insert_read(dst, (c, *rotation));
            assert(dst@.to_set() =~= old(dst)@.to_set() + advice_reads(*expr));
        },
        Expression::Sum(left, right) => {
            collect_reads(dst, &**left);
            collect_reads(dst, &**right);
            assert(dst@.to_set() =~= old(dst)@.to_set() + advice_reads(*expr));
        },
        Expression::Product(left, right) => {
            collect_reads(dst, &**left);
            collect_reads(dst, &**right);
            assert(dst@.to_set() =~= old(dst)@.to_set() + advice_reads(*expr));
        },
        Expression::Negated(inner) => {
            collect_reads(dst, &**inner);
        },
        Expression::Scaled(inner, _) => {
            collect_reads(dst, &**inner);
        },
        _ => {
            assert(dst@.to_set() =~= old(dst)@.to_set() + advice_reads(*expr));
        },
    }
}

/// The advice cells that `expr` reads, each once, as column and rotation.
pub fn extract_columns(expr: &Expression) -> (r: Vec<(Column, Rotation)>)
    ensures
        r@.no_duplicates(),
        r@.to_set() == advice_reads(*expr),
{
    let mut set: Vec<(Column, Rotation)> = Vec::new();
    assert(set@.to_set() =~= Set::empty());
    collect_reads(&mut set, expr);
    assert(set@.to_set() =~= advice_reads(*expr));
    set
}

} // verus!
