//! Constraint expressions: a tree over constants, column queries and
//! selectors.

use crate::column::{Column, ColumnKind, Query};
use crate::field::FieldElement;
use vstd::prelude::*;

verus! {

/// A polynomial expression over the cells of the table, relative to the row
/// it is evaluated at.
#[derive(Debug, PartialEq, Eq)]
pub enum Expression {
    /// A constant of the field.
    Constant(FieldElement),
    /// The cell of a column at the current row plus a rotation.
    ColumnQuery(Column, i32),
    /// A selector at the current row: one where enabled, zero elsewhere.
    Selector(Column),
    /// The sum of two expressions.
    Sum(Box<Expression>, Box<Expression>),
    /// The product of two expressions.
    Product(Box<Expression>, Box<Expression>),
    /// The additive inverse of an expression.
    Negate(Box<Expression>),
    /// An expression times a constant.
    ScalarMul(Box<Expression>, FieldElement),
}

/// Whether every selector node names a selector column and every column
/// query names a column that holds cells.
pub open spec fn well_kinded(e: Expression) -> bool
    decreases e,
{
    match e {
        Expression::Constant(_) => true,
        Expression::ColumnQuery(column, _) => column.kind != ColumnKind::Selector,
        Expression::Selector(column) => column.kind == ColumnKind::Selector,
        Expression::Sum(a, b) => well_kinded(*a) && well_kinded(*b),
        Expression::Product(a, b) => well_kinded(*a) && well_kinded(*b),
        Expression::Negate(a) => well_kinded(*a),
        Expression::ScalarMul(a, _) => well_kinded(*a),
    }
}

/// Whether `e` makes the query `q`.
pub open spec fn reads(e: Expression, q: Query) -> bool
    decreases e,
{
    match e {
        Expression::Constant(_) => false,
        Expression::ColumnQuery(column, rotation) => q == (Query { column, rotation }),
        Expression::Selector(_) => false,
        Expression::Sum(a, b) => reads(*a, q) || reads(*b, q),
        Expression::Product(a, b) => reads(*a, q) || reads(*b, q),
        Expression::Negate(a) => reads(*a, q),
        Expression::ScalarMul(a, _) => reads(*a, q),
    }
}

/// `acc` followed by the queries of `e` that are not in it yet, each once,
/// in the order in which a left-to-right reading of `e` first meets them.
pub open spec fn queries_into(e: Expression, acc: Seq<Query>) -> Seq<Query>
    decreases e,
{
    match e {
        Expression::Constant(_) => acc,
        Expression::ColumnQuery(column, rotation) => {
            let q = Query { column, rotation };
            if acc.contains(q) {
                acc
            } else {
                acc.push(q)
            }
        },
        Expression::Selector(_) => acc,
        Expression::Sum(a, b) => queries_into(*b, queries_into(*a, acc)),
        Expression::Product(a, b) => queries_into(*b, queries_into(*a, acc)),
        Expression::Negate(a) => queries_into(*a, acc),
        Expression::ScalarMul(a, _) => queries_into(*a, acc),
    }
}

/// The distinct queries of `e`, in order of first occurrence.
pub open spec fn queries(e: Expression) -> Seq<Query> {
    queries_into(e, Seq::empty())
}

/// The queries gathered from `e` onto `acc` are those of `acc` and those
/// that `e` makes.
pub proof fn lemma_queries_into(e: Expression, acc: Seq<Query>, q: Query)
    ensures
        queries_into(e, acc).contains(q) <==> acc.contains(q) || reads(e, q),
    decreases e,
{
    match e {
        Expression::Constant(_) => {},
        Expression::ColumnQuery(column, rotation) => {
            let own = Query { column, rotation };
            if !acc.contains(own) {
                let after = acc.push(own);
                assert(after[acc.len() as int] == own);
                if acc.contains(q) {
                    let k = choose|k: int| 0 <= k < acc.len() && acc[k] == q;
                    assert(after[k] == q);
                }
                if after.contains(q) {
                    let k = choose|k: int| 0 <= k < after.len() && after[k] == q;
                    if k < acc.len() {
                        assert(acc[k] == q);
                    }
                }
            }
        },
        Expression::Selector(_) => {},
        Expression::Sum(a, b) => {
            lemma_queries_into(*a, acc, q);
            lemma_queries_into(*b, queries_into(*a, acc), q);
        },
        Expression::Product(a, b) => {
            lemma_queries_into(*a, acc, q);
            lemma_queries_into(*b, queries_into(*a, acc), q);
        },
        Expression::Negate(a) => {
            lemma_queries_into(*a, acc, q);
        },
        Expression::ScalarMul(a, _) => {
            lemma_queries_into(*a, acc, q);
        },
    }
}

/// The queries of `e` are those that it makes.
pub proof fn lemma_queries(e: Expression, q: Query)
    ensures
        queries(e).contains(q) <==> reads(e, q),
{
    lemma_queries_into(e, Seq::empty(), q);
}

fn contains_query(list: &Vec<Query>, q: Query) -> (r: bool)
    ensures
        r == list@.contains(q),
{
    let mut i: usize = 0;
    while i < list.len()
        invariant
            0 <= i <= list.len(),
            forall|j: int| 0 <= j < i ==> list@[j] != q,
        decreases list.len() - i,
    {
        if list[i] == q {
            return true;
        }
        i += 1;
    }
    false
}

impl Expression {
    /// The constant `c`.
    pub fn constant(c: FieldElement) -> (r: Expression)
        ensures
            r == Expression::Constant(c),
    {
        Expression::Constant(c)
    }

    /// The cell of `column` at the current row plus `rotation`.
    pub fn query(column: Column, rotation: i32) -> (r: Expression)
        ensures
            r == Expression::ColumnQuery(column, rotation),
    {
        Expression::ColumnQuery(column, rotation)
    }

    /// The selector `column` at the current row.
    pub fn selector(column: Column) -> (r: Expression)
        ensures
            r == Expression::Selector(column),
    {
        Expression::Selector(column)
    }

    /// `a + b`.
    pub fn sum(a: Expression, b: Expression) -> (r: Expression)
        ensures
            r == Expression::Sum(Box::new(a), Box::new(b)),
    {
        Expression::Sum(Box::new(a), Box::new(b))
    }

    /// `a * b`.
    pub fn product(a: Expression, b: Expression) -> (r: Expression)
        ensures
            r == Expression::Product(Box::new(a), Box::new(b)),
    {
        Expression::Product(Box::new(a), Box::new(b))
    }

    /// `-a`.
    pub fn negate(a: Expression) -> (r: Expression)
        ensures
            r == Expression::Negate(Box::new(a)),
    {
        Expression::Negate(Box::new(a))
    }

    /// `a - b`, written as `a + (-b)`.
    pub fn difference(a: Expression, b: Expression) -> (r: Expression)
        ensures
            r == Expression::Sum(Box::new(a), Box::new(Expression::Negate(Box::new(b)))),
    {
        Expression::Sum(Box::new(a), Box::new(Expression::Negate(Box::new(b))))
    }

    /// `a` times the constant `c`.
    pub fn scale(a: Expression, c: FieldElement) -> (r: Expression)
        ensures
            r == Expression::ScalarMul(Box::new(a), c),
    {
        Expression::ScalarMul(Box::new(a), c)
    }

    /// A copy of the expression.
    pub fn duplicate(&self) -> (r: Expression)
        ensures
            r == *self,
        decreases *self,
    {
        match self {
            Expression::Constant(c) => Expression::Constant(*c),
            Expression::ColumnQuery(column, rotation) => Expression::ColumnQuery(*column, *rotation),
            Expression::Selector(column) => Expression::Selector(*column),
            Expression::Sum(a, b) => Expression::Sum(Box::new(a.duplicate()), Box::new(b.duplicate())),
            Expression::Product(a, b) => Expression::Product(
                Box::new(a.duplicate()),
                Box::new(b.duplicate()),
            ),
            Expression::Negate(a) => Expression::Negate(Box::new(a.duplicate())),
            Expression::ScalarMul(a, c) => Expression::ScalarMul(Box::new(a.duplicate()), *c),
        }
    }

    /// Whether the expression is well kinded.
    pub fn is_well_kinded(&self) -> (r: bool)
        ensures
            r == well_kinded(*self),
        decreases *self,
    {
        match self {
            Expression::Constant(_) => true,
            Expression::ColumnQuery(column, _) => !matches!(column.kind, ColumnKind::Selector),
            Expression::Selector(column) => matches!(column.kind, ColumnKind::Selector),
            Expression::Sum(a, b) => a.is_well_kinded() && b.is_well_kinded(),
            Expression::Product(a, b) => a.is_well_kinded() && b.is_well_kinded(),
            Expression::Negate(a) => a.is_well_kinded(),
            Expression::ScalarMul(a, _) => a.is_well_kinded(),
        }
    }

    /// Appends to `acc` the queries of the expression that it does not hold
    /// yet.
    pub fn collect_queries(&self, acc: &mut Vec<Query>)
        ensures
            final(acc)@ == queries_into(*self, old(acc)@),
        decreases *self,
    {
        match self {
            Expression::Constant(_) => {},
            Expression::ColumnQuery(column, rotation) => {
                let q = Query { column: *column, rotation: *rotation };
                if !contains_query(acc, q) {
                    acc.push(q);
                }
            },
            Expression::Selector(_) => {},
            Expression::Sum(a, b) => {
                a.collect_queries(acc);
                b.collect_queries(acc);
            },
            Expression::Product(a, b) => {
                a.collect_queries(acc);
                b.collect_queries(acc);
            },
            Expression::Negate(a) => {
                a.collect_queries(acc);
            },
            Expression::ScalarMul(a, _) => {
                a.collect_queries(acc);
            },
        }
    }
}

} // verus!
