//! The recurrence itself, and what both layouts share: the terms, the
//! value of the constraint on three terms in a row, and the report of the
//! three cells that a circuit binds to the public input.

use crate::column::{Cell, Column};
use crate::field::{lemma_sum_below, lemma_sum_negation, negation_mod, sum_mod, FieldElement};
use crate::layout::Binding;
use crate::verification::{binding_report, FailureView};
use crate::witness::{stored, TableView};
use vstd::prelude::*;

verus! {

/// The sequence that starts with `a` and `b` and goes on by the
/// recurrence: term `n`.
pub open spec fn fib(a: nat, b: nat, n: nat) -> nat
    decreases n,
{
    if n == 0 {
        a
    } else if n == 1 {
        b
    } else {
        sum_mod(fib(a, b, (n - 2) as nat), fib(a, b, (n - 1) as nat))
    }
}

/// The record of a bound cell that does not hold row `row` of `check`;
/// nothing where the row is there and holds `expected`.
pub open spec fn mismatch(
    binding: int,
    cell: Cell,
    instance: Column,
    row: int,
    check: Seq<FieldElement>,
    expected: nat,
) -> Seq<
    FailureView,
> {
    if 0 <= row < check.len() && check[row]@ == expected {
        Seq::empty()
    } else {
        seq![
            FailureView::PublicInputMismatch {
                binding: binding as usize,
                cell,
                instance,
                row: row as usize,
            },
        ]
    }
}

/// The recurrence gate is zero on three terms in a row.
pub proof fn lemma_recurrence_holds(x: nat, y: nat)
    ensures
        sum_mod(sum_mod(x, y), negation_mod(sum_mod(x, y))) == 0,
{
    lemma_sum_below(x, y);
    lemma_sum_negation(sum_mod(x, y));
}

/// The report of three bindings: each bound cell that does not hold its
/// row of `check` has a record, in the order of the bindings.
pub proof fn lemma_three_bindings(
    t: TableView,
    check: Seq<FieldElement>,
    first: Binding,
    second: Binding,
    third: Binding,
    x: nat,
    y: nat,
    z: nat,
)
    requires
        t.bindings == seq![first, second, third],
        stored(t.cells, first.cell) is Some && stored(t.cells, first.cell).unwrap()@ == x,
        stored(t.cells, second.cell) is Some && stored(t.cells, second.cell).unwrap()@ == y,
        stored(t.cells, third.cell) is Some && stored(t.cells, third.cell).unwrap()@ == z,
    ensures
        binding_report(t, check, 3) == mismatch(
            0,
            first.cell,
            first.instance,
            first.row as int,
            check,
            x,
        ) + mismatch(1, second.cell, second.instance, second.row as int, check, y) + mismatch(
            2,
            third.cell,
            third.instance,
            third.row as int,
            check,
            z,
        ),
{
    reveal_with_fuel(binding_report, 4);
    assert(binding_report(t, check, 3) =~= mismatch(
        0,
        first.cell,
        first.instance,
        first.row as int,
        check,
        x,
    ) + mismatch(1, second.cell, second.instance, second.row as int, check, y) + mismatch(
        2,
        third.cell,
        third.instance,
        third.row as int,
        check,
        z,
    ));
}

} // verus!
