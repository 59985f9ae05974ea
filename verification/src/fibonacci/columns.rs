//! The recurrence over three advice columns: each row holds `a`, `b` and
//! `c = a + b`, and the next row starts from the `b` and `c` of this one.
//!
//! ```text
//!   a | b | c | selector
//!  ---+---+---+----------
//!   1 | 1 | 2 |    1
//!   1 | 2 | 3 |    1
//!   2 | 3 | 5 |    1
//! ```

use crate::column::{Cell, Column, ColumnKind, Query};
use crate::diagnosis::{lemma_constraint_report_empty, lemma_lookup_report_empty};
use crate::expression::{reads, well_kinded, Expression};
use crate::fibonacci::recurrence::{fib, lemma_recurrence_holds, lemma_three_bindings, mismatch};
use crate::field::{negation_mod, sum_mod, FieldElement};
use crate::layout::{
    assigned, binding_outcome, copied, cursor, distinct_cells, empty_layout, holds,
    lemma_copied_assigned, lemma_copied_linked, lemma_fresh_row, lemma_position,
    lemma_position_unique, lemma_with_selector, lemma_with_value_assigned, lemma_with_value_linked,
    linked, position, row_added, touched, with_slot, with_value, AssignmentError, Binding,
    LayoutView, Region, Slot, SynthesisError,
};
use crate::layouter::Layouter;
use crate::prover::{run_ends, run_outcome, Circuit, ProverView};
use crate::resolution::{
    consistent, first_unresolved, has_value, lemma_all_resolved, lemma_copy_consistent,
    lemma_fresh_value_consistent, lemma_resolves_to_assigned, lemma_stored_resolved,
    resolution_error, resolved_table,
};
use crate::system::{
    count_of_kind, empty_system, lemma_count_other_kind, lemma_count_same_kind, with_column,
    ConfigurationError, Constraint, ConstraintSystem, Gate, SystemView,
};
use crate::verification::{
    constraint_report, constraint_violated, lookup_report, report, FailureView,
};
use crate::witness::{
    answered, cell_state_at, enabled, eval, first_incomplete_row, gate_answered,
    lemma_rows_complete, row_answered, stored, CellValue, TableView,
};
use vstd::prelude::*;
use vstd::string::StringExecFns;

verus! {

/// A cell that was assigned, with its value.
#[derive(Clone, Copy, Debug, PartialEq, Eq)]
pub struct ACell {
    pub cell: Cell,
    pub value: FieldElement,
}

/// The columns of the chip.
#[derive(Clone, Copy, Debug, PartialEq, Eq)]
pub struct FiboConfig {
    pub advice: [Column; 3],
    pub selector: Column,
    pub instance: Column,
}

/// The chip that lays the recurrence out over three columns.
#[derive(Clone, Copy, Debug, PartialEq, Eq)]
pub struct FiboChip {
    pub config: FiboConfig,
}

/// The constraint of the recurrence: `a + b - c`, each read on the current
/// row.
pub open spec fn add_expression(a: Column, b: Column, c: Column) -> Expression {
    Expression::Sum(
        Box::new(
            Expression::Sum(
                Box::new(Expression::ColumnQuery(a, 0)),
                Box::new(Expression::ColumnQuery(b, 0)),
            ),
        ),
        Box::new(Expression::Negate(Box::new(Expression::ColumnQuery(c, 0)))),
    )
}

/// Whether `gate` is the recurrence gate of `config`.
pub open spec fn is_add_gate(gate: Gate, config: FiboConfig) -> bool {
    &&& gate.name@ == "add"@
    &&& gate.selector == config.selector
    &&& gate.constraints@.len() == 1
    &&& gate.constraints@[0].name@ == "add"@
    &&& gate.constraints@[0].expression == add_expression(
        config.advice[0],
        config.advice[1],
        config.advice[2],
    )
}

/// What assigning the first row at `row` comes to.
pub open spec fn first_row_result(
    config: FiboConfig,
    row: int,
    a: Option<FieldElement>,
    b: Option<FieldElement>,
) -> Result<
    (),
    SynthesisError,
> {
    let wrong = Err(SynthesisError::Configuration(ConfigurationError::WrongColumnKind));
    let taken = Err(SynthesisError::Assignment(AssignmentError::CellAlreadyAssigned));
    if config.selector.kind != ColumnKind::Selector {
        wrong
    } else if row >= usize::MAX {
        Err(SynthesisError::Assignment(AssignmentError::RegionOverlap))
    } else if config.advice[0].kind != ColumnKind::Advice {
        wrong
    } else if a is None {
        Err(
            SynthesisError::UnassignedCell {
                column: config.advice[0],
                row: row as usize,
                rotation: 0,
            },
        )
    } else if config.advice[1].kind != ColumnKind::Advice {
        wrong
    } else if config.advice[1] == config.advice[0] {
        taken
    } else if b is None {
        Err(
            SynthesisError::UnassignedCell {
                column: config.advice[1],
                row: row as usize,
                rotation: 0,
            },
        )
    } else if config.advice[2].kind != ColumnKind::Advice {
        wrong
    } else if config.advice[2] == config.advice[0] || config.advice[2] == config.advice[1] {
        taken
    } else {
        Ok(())
    }
}

/// What assigning a next row at `row` comes to, after the cells `prev_b`
/// and `prev_c`, for a layout whose columns enabled for equality are
/// `equality`.
pub open spec fn next_row_result(
    config: FiboConfig,
    equality: Seq<Column>,
    row: int,
    prev_b: Cell,
    prev_c: Cell,
) -> Result<(), SynthesisError> {
    let wrong = Err(SynthesisError::Configuration(ConfigurationError::WrongColumnKind));
    let taken = Err(SynthesisError::Assignment(AssignmentError::CellAlreadyAssigned));
    let outside = Err(SynthesisError::Assignment(AssignmentError::RegionOverlap));
    if config.selector.kind != ColumnKind::Selector {
        wrong
    } else if row >= usize::MAX {
        outside
    } else if config.advice[0].kind != ColumnKind::Advice {
        wrong
    } else if prev_b.column.kind != ColumnKind::Advice || !equality.contains(config.advice[0])
        || !equality.contains(prev_b.column) {
        wrong
    } else if prev_b.row > row {
        outside
    } else if config.advice[1].kind != ColumnKind::Advice {
        wrong
    } else if config.advice[1] == config.advice[0] {
        taken
    } else if prev_c.column.kind != ColumnKind::Advice || !equality.contains(config.advice[1])
        || !equality.contains(prev_c.column) {
        wrong
    } else if prev_c.row > row {
        outside
    } else if config.advice[2].kind != ColumnKind::Advice {
        wrong
    } else if config.advice[2] == config.advice[0] || config.advice[2] == config.advice[1] {
        taken
    } else {
        Ok(())
    }
}

/// The slots after a next row was assigned: the first two cells take the
/// values of the cells they are tied to, the third their sum.
pub open spec fn next_row_slots(
    slots: Seq<Slot>,
    a: Cell,
    b: Cell,
    c: Cell,
    prev_b: ACell,
    prev_c: ACell,
    sum: FieldElement,
) -> Seq<Slot> {
    with_value(
        copied(
            with_value(
                copied(with_value(slots, a, Some(prev_b.value)), a, prev_b.cell),
                b,
                Some(prev_c.value),
            ),
            b,
            prev_c.cell,
        ),
        c,
        Some(sum),
    )
}

/// The cell of column `j` of the chip on row `row0 + i`.
pub open spec fn cell_at(config: FiboConfig, row0: int, i: int, j: int) -> Cell {
    Cell { column: config.advice[j], row: (row0 + i) as usize }
}

/// The selector cell of the chip on row `row0 + i`.
pub open spec fn gate_at(config: FiboConfig, row0: int, i: int) -> Cell {
    Cell { column: config.selector, row: (row0 + i) as usize }
}

/// Whether `cell` lies in the `n` rows from `row0` of the columns of the
/// chip.
pub open spec fn in_rows(config: FiboConfig, row0: int, n: int, cell: Cell) -> bool {
    row0 <= cell.row < row0 + n && (cell.column == config.advice[0] || cell.column
        == config.advice[1] || cell.column == config.advice[2])
}

/// What binding a cell of `column` to the public input comes to.
pub open spec fn exposure_result(
    config: FiboConfig,
    equality: Seq<Column>,
    column: Column,
) -> Result<
    (),
    SynthesisError,
> {
    if column.kind == ColumnKind::Advice && config.instance.kind == ColumnKind::Instance
        && equality.contains(column) && equality.contains(config.instance) {
        Ok(())
    } else {
        Err(SynthesisError::Configuration(ConfigurationError::WrongColumnKind))
    }
}

/// What assigning `k` next rows from `row` comes to.
pub open spec fn rows_result(
    config: FiboConfig,
    equality: Seq<Column>,
    row: int,
    k: nat,
    prev_b: Cell,
    prev_c: Cell,
) -> Result<(), SynthesisError>
    decreases k,
{
    if k == 0 {
        Ok(())
    } else {
        match next_row_result(config, equality, row, prev_b, prev_c) {
            Err(e) => Err(e),
            Ok(()) => rows_result(
                config,
                equality,
                row + 1,
                (k - 1) as nat,
                prev_c,
                Cell { column: config.advice[2], row: row as usize },
            ),
        }
    }
}

/// What the synthesis of the eight rows from `row` comes to.
pub open spec fn synthesis_result(
    config: FiboConfig,
    equality: Seq<Column>,
    row: int,
    a: Option<FieldElement>,
    b: Option<FieldElement>,
) -> Result<(), SynthesisError> {
    let first = first_row_result(config, row, a, b);
    let first_a = exposure_result(config, equality, config.advice[0]);
    let first_b = exposure_result(config, equality, config.advice[1]);
    let rest = rows_result(
        config,
        equality,
        row + 1,
        7,
        Cell { column: config.advice[1], row: row as usize },
        Cell { column: config.advice[2], row: row as usize },
    );
    if first is Err {
        first
    } else if first_a is Err {
        first_a
    } else if first_b is Err {
        first_b
    } else if rest is Err {
        rest
    } else {
        exposure_result(config, equality, config.advice[2])
    }
}

/// Whether `region` is the region of row `i` of the recurrence laid out
/// from `row0`: one row, named "first row" or "next row".
pub open spec fn is_row_region(region: Region, row0: int, i: int) -> bool {
    &&& region.start == row0 + i
    &&& region.rows == 1
    &&& region.name@ == if i == 0 {
        "first row"@
    } else {
        "next row"@
    }
}

/// Whether `after` is `before` with the first `n` rows of the recurrence
/// from `a` and `b` laid out past its regions: row `i` holds terms `i`,
/// `i + 1` and `i + 2`, the recurrence gate is enabled on it, and its first two cells
/// are tied to the cells of the rows before that hold the same terms.
#[verifier::opaque]
pub open spec fn rows_laid_out(
    before: LayoutView,
    after: LayoutView,
    config: FiboConfig,
    a: nat,
    b: nat,
    n: int,
) -> bool {
    let row0 = cursor(before.regions);
    &&& after.regions.len() == before.regions.len() + n
    &&& after.regions.take(before.regions.len() as int) == before.regions
    &&& forall|i: int|
        0 <= i < n ==> is_row_region(#[trigger] after.regions[before.regions.len() + i], row0, i)
    &&& cursor(after.regions) == row0 + n
    &&& forall|i: int, j: int|
        0 <= i < n && 0 <= j < 3 ==> holds(
            after.slots,
            #[trigger] cell_at(config, row0, i, j),
            fib(a, b, (i + j) as nat),
        )
    &&& forall|cell: Cell|
        !in_rows(config, row0, n, cell) ==> #[trigger] assigned(after.slots, cell) == assigned(
            before.slots,
            cell,
        )
    &&& n > 1 ==> linked(after.slots, cell_at(config, row0, 1, 0), cell_at(config, row0, 0, 1))
    &&& forall|i: int|
        2 <= i < n ==> linked(
            after.slots,
            #[trigger] cell_at(config, row0, i, 0),
            cell_at(config, row0, i - 2, 2),
        )
    &&& forall|i: int|
        1 <= i < n ==> linked(
            after.slots,
            #[trigger] cell_at(config, row0, i, 1),
            cell_at(config, row0, i - 1, 2),
        )
    &&& forall|x: Cell, y: Cell| linked(before.slots, x, y) ==> #[trigger] linked(after.slots, x, y)
    &&& forall|cell: Cell| #[trigger]
        touched(after.slots, cell) ==> touched(before.slots, cell) || in_rows(config, row0, n, cell)
    &&& consistent(before.slots) ==> consistent(after.slots)
    &&& forall|i: int|
        0 <= i < n ==> after.selectors.contains(#[trigger] gate_at(config, row0, i))
    &&& forall|cell: Cell| before.selectors.contains(cell) ==> after.selectors.contains(cell)
    &&& forall|cell: Cell|
        after.selectors.contains(cell) ==> before.selectors.contains(cell) || (cell.column
            == config.selector && row0 <= cell.row < row0 + n)
    &&& after.public_input == before.public_input
    &&& after.equality == before.equality
    &&& after.tables == before.tables
}

/// What a next row does to the slots: its three cells take their values,
/// the first two are tied to the cells they copy, no other cell changes
/// and no tie is undone.
pub proof fn lemma_next_row_slots(
    slots: Seq<Slot>,
    a: Cell,
    b: Cell,
    c: Cell,
    prev_b: ACell,
    prev_c: ACell,
    sum: FieldElement,
)
    requires
        distinct_cells(slots),
        a != b,
        a != c,
        b != c,
    ensures
        distinct_cells(next_row_slots(slots, a, b, c, prev_b, prev_c, sum)),
        assigned(next_row_slots(slots, a, b, c, prev_b, prev_c, sum), a) == Some(prev_b.value),
        assigned(next_row_slots(slots, a, b, c, prev_b, prev_c, sum), b) == Some(prev_c.value),
        assigned(next_row_slots(slots, a, b, c, prev_b, prev_c, sum), c) == Some(sum),
        forall|other: Cell|
            other != a && other != b && other != c ==> #[trigger] assigned(
                next_row_slots(slots, a, b, c, prev_b, prev_c, sum),
                other,
            ) == assigned(slots, other),
        linked(next_row_slots(slots, a, b, c, prev_b, prev_c, sum), a, prev_b.cell),
        linked(next_row_slots(slots, a, b, c, prev_b, prev_c, sum), b, prev_c.cell),
        forall|x: Cell, y: Cell|
            linked(slots, x, y) ==> #[trigger] linked(
                next_row_slots(slots, a, b, c, prev_b, prev_c, sum),
                x,
                y,
            ),
{
    let s1 = with_value(slots, a, Some(prev_b.value));
    let s2 = copied(s1, a, prev_b.cell);
    let s3 = with_value(s2, b, Some(prev_c.value));
    let s4 = copied(s3, b, prev_c.cell);
    let s5 = with_value(s4, c, Some(sum));
    lemma_with_value_assigned(slots, a, Some(prev_b.value));
    lemma_with_value_linked(slots, a, Some(prev_b.value));
    lemma_copied_assigned(s1, a, prev_b.cell);
    lemma_copied_linked(s1, a, prev_b.cell);
    lemma_with_value_assigned(s2, b, Some(prev_c.value));
    lemma_with_value_linked(s2, b, Some(prev_c.value));
    lemma_copied_assigned(s3, b, prev_c.cell);
    lemma_copied_linked(s3, b, prev_c.cell);
    lemma_with_value_assigned(s4, c, Some(sum));
    lemma_with_value_linked(s4, c, Some(sum));
    assert(assigned(s5, a) == Some(prev_b.value)) by {
        assert(assigned(s5, a) == assigned(s4, a));
        assert(assigned(s4, a) == assigned(s3, a));
        assert(assigned(s3, a) == assigned(s2, a));
        assert(assigned(s2, a) == assigned(s1, a));
    }
    assert(assigned(s5, b) == Some(prev_c.value)) by {
        assert(assigned(s5, b) == assigned(s4, b));
        assert(assigned(s4, b) == assigned(s3, b));
    }
    assert forall|other: Cell| other != a && other != b && other != c implies #[trigger] assigned(
        s5,
        other,
    ) == assigned(slots, other) by {
        assert(assigned(s5, other) == assigned(s4, other));
        assert(assigned(s4, other) == assigned(s3, other));
        assert(assigned(s3, other) == assigned(s2, other));
        assert(assigned(s2, other) == assigned(s1, other));
        assert(assigned(s1, other) == assigned(slots, other));
    }
    assert(linked(s5, a, prev_b.cell)) by {
        assert(linked(s2, a, prev_b.cell));
        assert(linked(s3, a, prev_b.cell));
        assert(linked(s4, a, prev_b.cell));
    }
    assert(linked(s5, b, prev_c.cell)) by {
        assert(linked(s4, b, prev_c.cell));
    }
    assert forall|x: Cell, y: Cell| linked(slots, x, y) implies #[trigger] linked(s5, x, y) by {
        assert(linked(s1, x, y));
        assert(linked(s2, x, y));
        assert(linked(s3, x, y));
        assert(linked(s4, x, y));
    }
}

/// What a next row does to the touched cells and to the groups: its three
/// cells are touched, and no group comes to hold two values.
pub proof fn lemma_next_row_groups(
    slots: Seq<Slot>,
    a: Cell,
    b: Cell,
    c: Cell,
    prev_b: ACell,
    prev_c: ACell,
    sum: FieldElement,
)
    requires
        distinct_cells(slots),
        forall|i: int| 0 <= i < slots.len() ==> (#[trigger] slots[i]).group < slots.len(),
        slots.len() + 3 <= usize::MAX,
        a != b,
        a != c,
        b != c,
        !touched(slots, a),
        !touched(slots, b),
        !touched(slots, c),
        assigned(slots, prev_b.cell) == Some(prev_b.value),
        assigned(slots, prev_c.cell) == Some(prev_c.value),
    ensures
        forall|other: Cell| #[trigger]
            touched(next_row_slots(slots, a, b, c, prev_b, prev_c, sum), other) <==> other == a
                || other == b || other == c || touched(slots, other),
        consistent(slots) ==> consistent(next_row_slots(slots, a, b, c, prev_b, prev_c, sum)),
{
    let s1 = with_value(slots, a, Some(prev_b.value));
    let s2 = copied(s1, a, prev_b.cell);
    let s3 = with_value(s2, b, Some(prev_c.value));
    let s4 = copied(s3, b, prev_c.cell);
    let s5 = with_value(s4, c, Some(sum));
    lemma_position(slots, prev_b.cell);
    lemma_position(slots, prev_c.cell);
    lemma_with_value_assigned(slots, a, Some(prev_b.value));
    lemma_copied_assigned(s1, a, prev_b.cell);
    lemma_with_value_assigned(s2, b, Some(prev_c.value));
    lemma_copied_assigned(s3, b, prev_c.cell);
    lemma_with_value_assigned(s4, c, Some(sum));
    assert forall|other: Cell| #[trigger] touched(s5, other) <==> other == a || other == b || other
        == c || touched(slots, other) by {
        assert(touched(s5, other) <==> other == c || touched(s4, other));
        assert(touched(s4, other) <==> other == b || other == prev_c.cell || touched(s3, other));
        assert(touched(s3, other) <==> other == b || touched(s2, other));
        assert(touched(s2, other) <==> other == a || other == prev_b.cell || touched(s1, other));
        assert(touched(s1, other) <==> other == a || touched(slots, other));
        assert(touched(slots, prev_b.cell));
        assert(touched(slots, prev_c.cell));
    }
    if consistent(slots) {
        lemma_fresh_value_consistent(slots, a, Some(prev_b.value));
        assert(assigned(s1, prev_b.cell) == assigned(slots, prev_b.cell));
        lemma_copy_consistent(s1, a, prev_b.cell);
        lemma_labels(s1, a, prev_b.cell);
        assert(!touched(s2, b));
        lemma_fresh_value_consistent(s2, b, Some(prev_c.value));
        assert(assigned(s3, prev_c.cell) == assigned(s2, prev_c.cell));
        assert(assigned(s2, prev_c.cell) == assigned(s1, prev_c.cell));
        assert(assigned(s1, prev_c.cell) == assigned(slots, prev_c.cell));
        lemma_copy_consistent(s3, b, prev_c.cell);
        lemma_labels(s3, b, prev_c.cell);
        assert(!touched(s4, c));
        lemma_fresh_value_consistent(s4, c, Some(sum));
    }
}

/// After a next row its third cell holds the sum, and the cell that held
/// the second term still holds it.
proof fn lemma_next_row_keeps(
    mid: LayoutView,
    a: Cell,
    b: Cell,
    c: Cell,
    prev_b: ACell,
    prev_c: ACell,
    sum: FieldElement,
)
    requires
        mid.wf(),
        a != b,
        a != c,
        b != c,
        a.row >= cursor(mid.regions),
        b.row >= cursor(mid.regions),
        c.row >= cursor(mid.regions),
        a.column.kind == ColumnKind::Advice,
        b.column.kind == ColumnKind::Advice,
        c.column.kind == ColumnKind::Advice,
        assigned(mid.slots, prev_c.cell) == Some(prev_c.value),
    ensures
        assigned(next_row_slots(mid.slots, a, b, c, prev_b, prev_c, sum), c) == Some(sum),
        assigned(next_row_slots(mid.slots, a, b, c, prev_b, prev_c, sum), prev_c.cell) == Some(
            prev_c.value,
        ),
{
    lemma_next_row_slots(mid.slots, a, b, c, prev_b, prev_c, sum);
    lemma_fresh_row(mid, a);
    lemma_fresh_row(mid, b);
    lemma_fresh_row(mid, c);
}

/// A next row adds three slots where its cells were not touched and the
/// cells that it copies were.
proof fn lemma_next_row_length(
    slots: Seq<Slot>,
    a: Cell,
    b: Cell,
    c: Cell,
    prev_b: ACell,
    prev_c: ACell,
    sum: FieldElement,
)
    requires
        distinct_cells(slots),
        a != b,
        a != c,
        b != c,
        !touched(slots, a),
        !touched(slots, b),
        !touched(slots, c),
        assigned(slots, prev_b.cell) is Some,
        assigned(slots, prev_c.cell) is Some,
    ensures
        next_row_slots(slots, a, b, c, prev_b, prev_c, sum).len() == slots.len() + 3,
{
    let s1 = with_value(slots, a, Some(prev_b.value));
    let s2 = copied(s1, a, prev_b.cell);
    let s3 = with_value(s2, b, Some(prev_c.value));
    let s4 = copied(s3, b, prev_c.cell);
    lemma_with_value_assigned(slots, a, Some(prev_b.value));
    lemma_copied_assigned(s1, a, prev_b.cell);
    lemma_with_value_assigned(s2, b, Some(prev_c.value));
    lemma_copied_assigned(s3, b, prev_c.cell);
    assert(touched(s1, a) && touched(s1, prev_b.cell));
    assert(!touched(s2, b));
    assert(touched(s3, b) && touched(s3, prev_c.cell));
    assert(!touched(s4, c));
}

/// A copy constraint between touched cells keeps every label the index of
/// a slot, and the number of slots.
proof fn lemma_labels(slots: Seq<Slot>, a: Cell, b: Cell)
    requires
        forall|i: int| 0 <= i < slots.len() ==> (#[trigger] slots[i]).group < slots.len(),
        touched(slots, a),
        touched(slots, b),
    ensures
        copied(slots, a, b).len() == slots.len(),
        forall|i: int|
            0 <= i < slots.len() ==> (#[trigger] copied(slots, a, b)[i]).group < slots.len(),
{
    lemma_position(slots, a);
    lemma_position(slots, b);
    assert(slots[position(slots, a)].group < slots.len());
}

/// The first row is the recurrence laid out over one row.
pub proof fn lemma_first_row_laid_out(
    before: LayoutView,
    after: LayoutView,
    config: FiboConfig,
    a: FieldElement,
    b: FieldElement,
    c: FieldElement,
)
    requires
        before.wf(),
        after.wf(),
        first_row_result(config, cursor(before.regions), Some(a), Some(b)) is Ok,
        row_added(before, after, "first row"@, config.selector),
        c@ == sum_mod(a@, b@),
        after.slots == with_value(
            with_value(
                with_value(before.slots, cell_at(config, cursor(before.regions), 0, 0), Some(a)),
                cell_at(config, cursor(before.regions), 0, 1),
                Some(b),
            ),
            cell_at(config, cursor(before.regions), 0, 2),
            Some(c),
        ),
    ensures
        rows_laid_out(before, after, config, a@, b@, 1),
{
    reveal(rows_laid_out);
    let row0 = cursor(before.regions);
    let ca = cell_at(config, row0, 0, 0);
    let cb = cell_at(config, row0, 0, 1);
    let cc = cell_at(config, row0, 0, 2);
    let s1 = with_value(before.slots, ca, Some(a));
    let s2 = with_value(s1, cb, Some(b));
    let s3 = with_value(s2, cc, Some(c));
    lemma_with_value_assigned(before.slots, ca, Some(a));
    lemma_with_value_linked(before.slots, ca, Some(a));
    lemma_with_value_assigned(s1, cb, Some(b));
    lemma_with_value_linked(s1, cb, Some(b));
    lemma_with_value_assigned(s2, cc, Some(c));
    lemma_with_value_linked(s2, cc, Some(c));
    assert(after.regions.take(before.regions.len() as int) =~= after.regions.drop_last());
    assert forall|i: int| 0 <= i < 1 implies is_row_region(
        #[trigger] after.regions[before.regions.len() + i],
        row0,
        i,
    ) by {}
    assert(assigned(s3, ca) == Some(a)) by {
        assert(assigned(s3, ca) == assigned(s2, ca));
        assert(assigned(s2, ca) == assigned(s1, ca));
    }
    assert(assigned(s3, cb) == Some(b)) by {
        assert(assigned(s3, cb) == assigned(s2, cb));
    }
    reveal_with_fuel(fib, 3);
    assert forall|i: int, j: int| 0 <= i < 1 && 0 <= j < 3 implies holds(
        after.slots,
        #[trigger] cell_at(config, row0, i, j),
        fib(a@, b@, (i + j) as nat),
    ) by {}
    assert forall|cell: Cell| !in_rows(config, row0, 1, cell) implies #[trigger] assigned(
        after.slots,
        cell,
    ) == assigned(before.slots, cell) by {
        assert(assigned(s3, cell) == assigned(s2, cell));
        assert(assigned(s2, cell) == assigned(s1, cell));
        assert(assigned(s1, cell) == assigned(before.slots, cell));
    }
    assert forall|x: Cell, y: Cell| linked(before.slots, x, y) implies #[trigger] linked(
        after.slots,
        x,
        y,
    ) by {
        assert(linked(s1, x, y));
        assert(linked(s2, x, y));
    }
    lemma_with_selector(before.selectors, gate_at(config, row0, 0));
    assert forall|i: int| 0 <= i < 1 implies after.selectors.contains(
        #[trigger] gate_at(config, row0, i),
    ) by {}
    lemma_fresh_row(before, ca);
    lemma_fresh_row(before, cb);
    lemma_fresh_row(before, cc);
    assert forall|cell: Cell| #[trigger] touched(after.slots, cell) implies touched(
        before.slots,
        cell,
    ) || in_rows(config, row0, 1, cell) by {
        assert(touched(s3, cell) <==> cell == cc || touched(s2, cell));
        assert(touched(s2, cell) <==> cell == cb || touched(s1, cell));
        assert(touched(s1, cell) <==> cell == ca || touched(before.slots, cell));
    }
    if consistent(before.slots) {
        assert(after.slots.len() == before.slots.len() + 3) by {
            lemma_position(before.slots, ca);
            lemma_position(s1, cb);
            lemma_position(s2, cc);
            assert(!touched(s1, cb));
            assert(!touched(s2, cc));
        }
        lemma_fresh_value_consistent(before.slots, ca, Some(a));
        assert(!touched(s1, cb));
        lemma_fresh_value_consistent(s1, cb, Some(b));
        assert(!touched(s2, cc));
        lemma_fresh_value_consistent(s2, cc, Some(c));
    }
}

/// Rows laid out end at the cursor, hold their terms, and leave the
/// columns enabled for equality as they were.
pub proof fn lemma_laid_out(
    before: LayoutView,
    after: LayoutView,
    config: FiboConfig,
    a: nat,
    b: nat,
    n: int,
)
    requires
        rows_laid_out(before, after, config, a, b, n),
    ensures
        cursor(after.regions) == cursor(before.regions) + n,
        after.equality == before.equality,
        after.public_input == before.public_input,
        after.tables == before.tables,
        forall|i: int, j: int|
            0 <= i < n && 0 <= j < 3 ==> holds(
                after.slots,
                #[trigger] cell_at(config, cursor(before.regions), i, j),
                fib(a, b, (i + j) as nat),
            ),
{
    reveal(rows_laid_out);
}

/// Rows laid out stay laid out where only the bindings change.
pub proof fn lemma_laid_out_bound(
    before: LayoutView,
    after: LayoutView,
    bound: LayoutView,
    config: FiboConfig,
    a: nat,
    b: nat,
    n: int,
)
    requires
        rows_laid_out(before, after, config, a, b, n),
        bound == (LayoutView { bindings: bound.bindings, ..after }),
    ensures
        rows_laid_out(before, bound, config, a, b, n),
{
    reveal(rows_laid_out);
}

/// One more row after `k` rows of the recurrence is `k + 1` rows of it.
#[verifier::rlimit(20)]
pub proof fn lemma_next_row_laid_out(
    before: LayoutView,
    mid: LayoutView,
    after: LayoutView,
    config: FiboConfig,
    a: nat,
    b: nat,
    k: int,
    prev_b: ACell,
    prev_c: ACell,
    sum: FieldElement,
)
    requires
        before.wf(),
        mid.wf(),
        after.wf(),
        k >= 1,
        rows_laid_out(before, mid, config, a, b, k),
        next_row_result(config, mid.equality, cursor(mid.regions), prev_b.cell, prev_c.cell) is Ok,
        row_added(mid, after, "next row"@, config.selector),
        after.slots == next_row_slots(
            mid.slots,
            cell_at(config, cursor(before.regions), k, 0),
            cell_at(config, cursor(before.regions), k, 1),
            cell_at(config, cursor(before.regions), k, 2),
            prev_b,
            prev_c,
            sum,
        ),
        prev_b.cell == if k == 1 {
            cell_at(config, cursor(before.regions), 0, 1)
        } else {
            cell_at(config, cursor(before.regions), k - 2, 2)
        },
        prev_c.cell == cell_at(config, cursor(before.regions), k - 1, 2),
        prev_b.value@ == fib(a, b, k as nat),
        prev_c.value@ == fib(a, b, (k + 1) as nat),
        assigned(mid.slots, prev_b.cell) == Some(prev_b.value),
        assigned(mid.slots, prev_c.cell) == Some(prev_c.value),
        sum@ == sum_mod(prev_b.value@, prev_c.value@),
    ensures
        rows_laid_out(before, after, config, a, b, k + 1),
{
    reveal(rows_laid_out);
    let row0 = cursor(before.regions);
    let ca = cell_at(config, row0, k, 0);
    let cb = cell_at(config, row0, k, 1);
    let cc = cell_at(config, row0, k, 2);
    lemma_next_row_slots(mid.slots, ca, cb, cc, prev_b, prev_c, sum);
    lemma_fresh_row(mid, ca);
    lemma_fresh_row(mid, cb);
    lemma_fresh_row(mid, cc);
    assert(mid.slots.len() + 3 <= usize::MAX) by {
        lemma_next_row_length(mid.slots, ca, cb, cc, prev_b, prev_c, sum);
    }
    lemma_next_row_groups(mid.slots, ca, cb, cc, prev_b, prev_c, sum);
    assert forall|cell: Cell| #[trigger] touched(after.slots, cell) implies touched(
        before.slots,
        cell,
    ) || in_rows(config, row0, k + 1, cell) by {
        if cell != ca && cell != cb && cell != cc {
            assert(touched(mid.slots, cell));
        }
    }
    let n = before.regions.len() as int;
    assert(after.regions.take(n) =~= mid.regions.take(n)) by {
        assert(after.regions.drop_last() == mid.regions);
        assert forall|i: int| 0 <= i < n implies after.regions.take(n)[i] == mid.regions.take(
            n,
        )[i] by {
            assert(after.regions.drop_last()[i] == after.regions[i]);
        }
    }
    assert forall|i: int| 0 <= i < k + 1 implies is_row_region(
        #[trigger] after.regions[n + i],
        row0,
        i,
    ) by {
        if i < k {
            assert(is_row_region(mid.regions[n + i], row0, i));
            assert(after.regions.drop_last()[n + i] == after.regions[n + i]);
        }
    }
    assert forall|i: int, j: int| 0 <= i < k + 1 && 0 <= j < 3 implies holds(
        after.slots,
        #[trigger] cell_at(config, row0, i, j),
        fib(a, b, (i + j) as nat),
    ) by {
        let cell = cell_at(config, row0, i, j);
        if i < k {
            assert(holds(mid.slots, cell, fib(a, b, (i + j) as nat)));
            assert(cell != ca && cell != cb && cell != cc);
            assert(assigned(after.slots, cell) == assigned(mid.slots, cell));
        } else {
            reveal_with_fuel(fib, 2);
        }
    }
    assert forall|cell: Cell| !in_rows(config, row0, k + 1, cell) implies #[trigger] assigned(
        after.slots,
        cell,
    ) == assigned(before.slots, cell) by {
        assert(cell != ca && cell != cb && cell != cc);
        assert(assigned(after.slots, cell) == assigned(mid.slots, cell));
        assert(!in_rows(config, row0, k, cell));
        assert(assigned(mid.slots, cell) == assigned(before.slots, cell));
    }
    assert forall|i: int| 2 <= i < k + 1 implies linked(
        after.slots,
        #[trigger] cell_at(config, row0, i, 0),
        cell_at(config, row0, i - 2, 2),
    ) by {
        if i < k {
            assert(linked(mid.slots, cell_at(config, row0, i, 0), cell_at(config, row0, i - 2, 2)));
        }
    }
    assert forall|i: int| 1 <= i < k + 1 implies linked(
        after.slots,
        #[trigger] cell_at(config, row0, i, 1),
        cell_at(config, row0, i - 1, 2),
    ) by {
        if i < k {
            assert(linked(mid.slots, cell_at(config, row0, i, 1), cell_at(config, row0, i - 1, 2)));
        }
    }
    if k > 1 {
        assert(linked(mid.slots, cell_at(config, row0, 1, 0), cell_at(config, row0, 0, 1)));
    }
    assert forall|x: Cell, y: Cell| linked(before.slots, x, y) implies #[trigger] linked(
        after.slots,
        x,
        y,
    ) by {
        assert(linked(mid.slots, x, y));
    }
    lemma_with_selector(mid.selectors, gate_at(config, row0, k));
    assert forall|i: int| 0 <= i < k + 1 implies after.selectors.contains(
        #[trigger] gate_at(config, row0, i),
    ) by {
        if i < k {
            assert(mid.selectors.contains(gate_at(config, row0, i)));
        }
    }
    assert forall|cell: Cell| before.selectors.contains(cell) implies after.selectors.contains(
        cell,
    ) by {
        assert(mid.selectors.contains(cell));
    }
    assert forall|cell: Cell| after.selectors.contains(cell) implies before.selectors.contains(cell)
        || (cell.column == config.selector && row0 <= cell.row < row0 + k + 1) by {
        if mid.selectors.contains(cell) {
        }
    }
}

impl FiboChip {
    /// The chip of `config`.
    pub fn construct(config: FiboConfig) -> (r: Self)
        ensures
            r.config == config,
    {
        FiboChip { config }
    }

    /// Allocates the selector, enables the four columns for equality and
    /// registers a gate `a + b - c = 0` over the three advice columns.
    /// Refused on a frozen system, and where a column is neither an advice
    /// nor an instance column.
    pub fn configure(
        meta: &mut ConstraintSystem,
        advice: [Column; 3],
        instance: Column,
    ) -> (r: Result<
        FiboConfig,
        ConfigurationError,
    >)
        ensures
            match r {
                Ok(config) => {
                    &&& !old(meta)@.frozen
                    &&& config.advice == advice
                    &&& config.instance == instance
                    &&& config.selector == (Column {
                        kind: ColumnKind::Selector,
                        index: count_of_kind(
                            old(meta)@.columns,
                            ColumnKind::Selector,
                            old(meta)@.columns.len(),
                        ) as usize,
                    })
                    &&& final(meta)@.columns == old(meta)@.columns.push(config.selector)
                    &&& final(meta)@.equality == with_column(
                        with_column(
                            with_column(with_column(old(meta)@.equality, advice[0]), advice[1]),
                            advice[2],
                        ),
                        instance,
                    )
                    &&& final(meta)@.gates.len() == old(meta)@.gates.len() + 1
                    &&& final(meta)@.gates.drop_last() == old(meta)@.gates
                    &&& is_add_gate(final(meta)@.gates.last(), config)
                    &&& final(meta)@.lookups == old(meta)@.lookups
                    &&& !final(meta)@.frozen
                },
                Err(e) => {
                    &&& final(meta)@ == old(meta)@
                    &&& e == if old(meta)@.frozen {
                        ConfigurationError::Frozen
                    } else {
                        ConfigurationError::WrongColumnKind
                    }
                    &&& old(meta)@.frozen || !advice[0].equality_capable()
                        || !advice[1].equality_capable() || !advice[2].equality_capable()
                        || !instance.equality_capable()
                },
            },
    {
        if meta.is_frozen() {
            return Err(ConfigurationError::Frozen);
        }
        let col_a = advice[0];
        let col_b = advice[1];
        let col_c = advice[2];
        if !capable(col_a) || !capable(col_b) || !capable(col_c) || !capable(instance) {
            return Err(ConfigurationError::WrongColumnKind);
        }
        let ghost before = meta@;
        let selector = match meta.allocate_column(ColumnKind::Selector) {
            Ok(column) => column,
            Err(e) => {
                return Err(e);
            },
        };
        match meta.enable_equality(col_a) {
            Ok(()) => {},
            Err(e) => {
                return Err(e);
            },
        }
        match meta.enable_equality(col_b) {
            Ok(()) => {},
            Err(e) => {
                return Err(e);
            },
        }
        match meta.enable_equality(col_c) {
            Ok(()) => {},
            Err(e) => {
                return Err(e);
            },
        }
        match meta.enable_equality(instance) {
            Ok(()) => {},
            Err(e) => {
                return Err(e);
            },
        }
        let a = Expression::query(col_a, 0);
        let b = Expression::query(col_b, 0);
        let c = Expression::query(col_c, 0);
        let expression = Expression::difference(Expression::sum(a, b), c);
        proof {
            reveal_with_fuel(well_kinded, 4);
        }
        let mut constraints: Vec<Constraint> = Vec::new();
        constraints.push(Constraint { name: String::from_str("add"), expression });
        let created = meta.create_gate(String::from_str("add"), selector, constraints);
        proof {
            assert(created is Ok);
            assert(meta@.gates.drop_last() =~= before.gates);
        }
        Ok(FiboConfig { advice: [col_a, col_b, col_c], selector, instance })
    }

    /// Opens the region "first row", enables the recurrence gate on it and assigns
    /// `a`, `b` and `a + b` to the three columns. Returns the three cells.
    pub fn assign_first_row(
        &self,
        layouter: &mut Layouter,
        a: Option<FieldElement>,
        b: Option<FieldElement>,
    ) -> (r:
        Result<(ACell, ACell, ACell), SynthesisError>)
        requires
            old(layouter)@.wf(),
        ensures
            final(layouter)@.wf(),
            match r {
                Ok((a_cell, b_cell, c_cell)) => {
                    let row = cursor(old(layouter)@.regions) as usize;
                    &&& first_row_result(self.config, row as int, a, b) is Ok
                    &&& a_cell == (ACell {
                        cell: Cell { column: self.config.advice[0], row },
                        value: a.unwrap(),
                    })
                    &&& b_cell == (ACell {
                        cell: Cell { column: self.config.advice[1], row },
                        value: b.unwrap(),
                    })
                    &&& c_cell.cell == (Cell { column: self.config.advice[2], row })
                    &&& c_cell.value@ == sum_mod(a.unwrap()@, b.unwrap()@)
                    &&& row_added(
                        old(layouter)@,
                        final(layouter)@,
                        "first row"@,
                        self.config.selector,
                    )
                    &&& final(layouter)@.slots == with_value(
                        with_value(
                            with_value(old(layouter)@.slots, a_cell.cell, Some(a_cell.value)),
                            b_cell.cell,
                            Some(b_cell.value),
                        ),
                        c_cell.cell,
                        Some(c_cell.value),
                    )
                },
                Err(e) => first_row_result(
                    self.config,
                    cursor(old(layouter)@.regions),
                    a,
                    b,
                ) == Err::<(), SynthesisError>(e),
            },
    {
        let ghost before = layouter@;
        let ghost row = cursor(before.regions) as usize;
        let region = layouter.region(String::from_str("first row"));
        match layouter.enable_selector(region, self.config.selector, 0) {
            Ok(()) => {},
            Err(e) => {
                return Err(e);
            },
        }
        proof {
            assert(layouter@.regions.drop_last() =~= before.regions);
            if self.config.advice[0].kind == ColumnKind::Advice {
                lemma_fresh_row(before, Cell { column: self.config.advice[0], row });
            }
            if self.config.advice[1].kind == ColumnKind::Advice {
                lemma_fresh_row(before, Cell { column: self.config.advice[1], row });
            }
            if self.config.advice[2].kind == ColumnKind::Advice {
                lemma_fresh_row(before, Cell { column: self.config.advice[2], row });
            }
        }
        let a_cell = match layouter.assign_advice(region, self.config.advice[0], 0, a) {
            Ok(cell) => ACell { cell, value: a.unwrap() },
            Err(e) => {
                return Err(e);
            },
        };
        proof {
            let second = Cell { column: self.config.advice[1], row };
            let third = Cell { column: self.config.advice[2], row };
            lemma_with_value_assigned(before.slots, a_cell.cell, a);
            if second != a_cell.cell {
                assert(assigned(layouter@.slots, second) == assigned(before.slots, second));
            }
            if third != a_cell.cell {
                assert(assigned(layouter@.slots, third) == assigned(before.slots, third));
            }
        }
        let ghost with_a = layouter@.slots;
        let b_cell = match layouter.assign_advice(region, self.config.advice[1], 0, b) {
            Ok(cell) => ACell { cell, value: b.unwrap() },
            Err(e) => {
                return Err(e);
            },
        };
        proof {
            let third = Cell { column: self.config.advice[2], row };
            lemma_with_value_assigned(with_a, b_cell.cell, b);
            if third != b_cell.cell {
                assert(assigned(layouter@.slots, third) == assigned(with_a, third));
            }
        }
        let c_val = a_cell.value.plus(&b_cell.value);
        let c_cell = match layouter.assign_advice(region, self.config.advice[2], 0, Some(c_val)) {
            Ok(cell) => ACell { cell, value: c_val },
            Err(e) => {
                return Err(e);
            },
        };
        Ok((a_cell, b_cell, c_cell))
    }

    /// Opens the region "next row", enables the recurrence gate on it, copies the
    /// values of `prev_b` and `prev_c` into the first two columns, tied to
    /// the cells they come from, and assigns their sum to the third.
    /// Returns the cell of the sum.
    #[verifier::rlimit(20)]
    pub fn assign_row(&self, layouter: &mut Layouter, prev_b: &ACell, prev_c: &ACell) -> (r: Result<
        ACell,
        SynthesisError,
    >)
        requires
            old(layouter)@.wf(),
        ensures
            final(layouter)@.wf(),
            match r {
                Ok(c_cell) => {
                    let row = cursor(old(layouter)@.regions) as usize;
                    &&& next_row_result(
                        self.config,
                        old(layouter)@.equality,
                        row as int,
                        prev_b.cell,
                        prev_c.cell,
                    ) is Ok
                    &&& c_cell.cell == (Cell { column: self.config.advice[2], row })
                    &&& c_cell.value@ == sum_mod(prev_b.value@, prev_c.value@)
                    &&& row_added(
                        old(layouter)@,
                        final(layouter)@,
                        "next row"@,
                        self.config.selector,
                    )
                    &&& final(layouter)@.slots == next_row_slots(
                        old(layouter)@.slots,
                        Cell { column: self.config.advice[0], row },
                        Cell { column: self.config.advice[1], row },
                        c_cell.cell,
                        *prev_b,
                        *prev_c,
                        c_cell.value,
                    )
                },
                Err(e) => next_row_result(
                    self.config,
                    old(layouter)@.equality,
                    cursor(old(layouter)@.regions),
                    prev_b.cell,
                    prev_c.cell,
                ) == Err::<(), SynthesisError>(e),
            },
    {
        let ghost before = layouter@;
        let ghost row = cursor(before.regions) as usize;
        let ghost a = Cell { column: self.config.advice[0], row };
        let ghost b = Cell { column: self.config.advice[1], row };
        let ghost c = Cell { column: self.config.advice[2], row };
        let region = layouter.region(String::from_str("next row"));
        match layouter.enable_selector(region, self.config.selector, 0) {
            Ok(()) => {},
            Err(e) => {
                return Err(e);
            },
        }
        proof {
            assert(layouter@.regions.drop_last() =~= before.regions);
            if a.column.kind == ColumnKind::Advice {
                lemma_fresh_row(before, a);
            }
            if b.column.kind == ColumnKind::Advice {
                lemma_fresh_row(before, b);
            }
            if c.column.kind == ColumnKind::Advice {
                lemma_fresh_row(before, c);
            }
        }
        let a_cell = match layouter.assign_advice(region, self.config.advice[0], 0, Some(prev_b.value)) {
            Ok(cell) => cell,
            Err(e) => {
                return Err(e);
            },
        };
        let ghost s1 = layouter@.slots;
        match layouter.copy(a_cell, prev_b.cell) {
            Ok(()) => {},
            Err(e) => {
                return Err(e);
            },
        }
        let ghost s2 = layouter@.slots;
        proof {
            lemma_with_value_assigned(before.slots, a, Some(prev_b.value));
            lemma_copied_assigned(s1, a, prev_b.cell);
            if b != a && b.column.kind == ColumnKind::Advice {
                assert(assigned(s2, b) == assigned(s1, b));
                assert(assigned(s1, b) == assigned(before.slots, b));
            }
        }
        let b_cell = match layouter.assign_advice(region, self.config.advice[1], 0, Some(prev_c.value)) {
            Ok(cell) => cell,
            Err(e) => {
                return Err(e);
            },
        };
        let ghost s3 = layouter@.slots;
        match layouter.copy(b_cell, prev_c.cell) {
            Ok(()) => {},
            Err(e) => {
                return Err(e);
            },
        }
        let ghost s4 = layouter@.slots;
        proof {
            lemma_with_value_assigned(s2, b, Some(prev_c.value));
            lemma_copied_assigned(s3, b, prev_c.cell);
            if c != a && c != b && c.column.kind == ColumnKind::Advice {
                assert(assigned(s4, c) == assigned(s3, c));
                assert(assigned(s3, c) == assigned(s2, c));
                assert(assigned(s2, c) == assigned(s1, c));
                assert(assigned(s1, c) == assigned(before.slots, c));
            }
        }
        let c_val = prev_b.value.plus(&prev_c.value);
        let c_cell = match layouter.assign_advice(region, self.config.advice[2], 0, Some(c_val)) {
            Ok(cell) => ACell { cell, value: c_val },
            Err(e) => {
                return Err(e);
            },
        };
        Ok(c_cell)
    }

    /// Binds `cell` to row `row` of the public input.
    pub fn expose_public(&self, layouter: &mut Layouter, cell: &ACell, row: usize) -> (r: Result<
        (),
        SynthesisError,
    >)
        requires
            old(layouter)@.wf(),
        ensures
            final(layouter)@.wf(),
            r == binding_outcome(old(layouter)@, cell.cell, self.config.instance),
            final(layouter)@ == if r is Ok {
                LayoutView {
                    slots: with_slot(old(layouter)@.slots, cell.cell),
                    bindings: old(layouter)@.bindings.push(
                        Binding { cell: cell.cell, instance: self.config.instance, row },
                    ),
                    ..old(layouter)@
                }
            } else {
                old(layouter)@
            },
    {
        layouter.constrain_instance(cell.cell, self.config.instance, row)
    }
}

/// Whether `column` is an advice or an instance column.
fn capable(column: Column) -> (r: bool)
    ensures
        r == column.equality_capable(),
{
    matches!(column.kind, ColumnKind::Advice) || matches!(column.kind, ColumnKind::Instance)
}

/// Whether `after` is `before` with the selector, the equality of the four
/// columns and the recurrence gate of `config` registered on it.
pub open spec fn chip_configured(
    before: SystemView,
    after: SystemView,
    config: FiboConfig,
) -> bool {
    &&& config.selector == (Column {
        kind: ColumnKind::Selector,
        index: count_of_kind(before.columns, ColumnKind::Selector, before.columns.len()) as usize,
    })
    &&& after.columns == before.columns.push(config.selector)
    &&& after.equality == with_column(
        with_column(
            with_column(with_column(before.equality, config.advice[0]), config.advice[1]),
            config.advice[2],
        ),
        config.instance,
    )
    &&& after.gates.len() == before.gates.len() + 1
    &&& after.gates.drop_last() == before.gates
    &&& is_add_gate(after.gates.last(), config)
    &&& after.lookups == before.lookups
    &&& !after.frozen
}

/// The circuit of the recurrence from two private seeds.
#[derive(Clone, Copy, Debug, PartialEq, Eq)]
pub struct MyCircuit {
    pub a: Option<FieldElement>,
    pub b: Option<FieldElement>,
}

impl Circuit for MyCircuit {
    type Config = FiboConfig;

    /// What `configure` does.
    open spec fn configured(
        before: SystemView,
        after: SystemView,
        r: Result<Self::Config, ConfigurationError>,
    ) -> bool {
        match r {
            Ok(config) => {
                let columns = before.columns;
                let advice = count_of_kind(columns, ColumnKind::Advice, columns.len());
                &&& !before.frozen
                &&& config.advice[0] == (Column {
                    kind: ColumnKind::Advice,
                    index: advice as usize,
                })
                &&& config.advice[1] == (Column {
                    kind: ColumnKind::Advice,
                    index: (advice + 1) as usize,
                })
                &&& config.advice[2] == (Column {
                    kind: ColumnKind::Advice,
                    index: (advice + 2) as usize,
                })
                &&& config.instance == (Column {
                    kind: ColumnKind::Instance,
                    index: count_of_kind(
                        columns,
                        ColumnKind::Instance,
                        columns.len(),
                    ) as usize,
                })
                &&& chip_configured(
                    SystemView {
                        columns: columns.push(config.advice[0]).push(config.advice[1]).push(
                            config.advice[2],
                        ).push(config.instance),
                        ..before
                    },
                    after,
                    config,
                )
            },
            Err(e) => before.frozen && e == ConfigurationError::Frozen && after
                == before,
        }
    }

    /// What `synthesize` does.
    open spec fn synthesized(
        &self,
        config: Self::Config,
        before: LayoutView,
        after: LayoutView,
        r: Result<(), SynthesisError>,
    ) -> bool {
        &&& r == synthesis_result(
            config,
            before.equality,
            cursor(before.regions),
            self.a,
            self.b,
        )
        &&& r is Ok ==> {
            let row0 = cursor(before.regions);
            &&& rows_laid_out(
                before,
                after,
                config,
                self.a.unwrap()@,
                self.b.unwrap()@,
                8,
            )
            &&& after.bindings == before.bindings.push(
                Binding { cell: cell_at(config, row0, 0, 0), instance: config.instance, row: 0 },
            ).push(
                Binding { cell: cell_at(config, row0, 0, 1), instance: config.instance, row: 1 },
            ).push(
                Binding { cell: cell_at(config, row0, 7, 2), instance: config.instance, row: 2 },
            )
        }
    }

    /// The same circuit with no witness.
    fn without_witnesses(&self) -> (r: Self)
        ensures
            r.a is None,
            r.b is None,
    {
        MyCircuit { a: None, b: None }
    }

    /// Allocates three advice columns and an instance column and
    /// configures the chip on them. Refused on a frozen system.
    fn configure(meta: &mut ConstraintSystem) -> (r: Result<Self::Config, ConfigurationError>) {
        let ghost before = meta@;
        let col_a = match meta.allocate_column(ColumnKind::Advice) {
            Ok(column) => column,
            Err(e) => {
                return Err(e);
            },
        };
        let col_b = match meta.allocate_column(ColumnKind::Advice) {
            Ok(column) => column,
            Err(e) => {
                return Err(e);
            },
        };
        let col_c = match meta.allocate_column(ColumnKind::Advice) {
            Ok(column) => column,
            Err(e) => {
                return Err(e);
            },
        };
        proof {
            lemma_count_same_kind(before.columns, col_a);
            lemma_count_same_kind(before.columns.push(col_a), col_b);
            lemma_count_other_kind(before.columns, col_a, ColumnKind::Instance);
            lemma_count_other_kind(before.columns.push(col_a), col_b, ColumnKind::Instance);
            lemma_count_other_kind(
                before.columns.push(col_a).push(col_b),
                col_c,
                ColumnKind::Instance,
            );
        }
        let instance = match meta.allocate_column(ColumnKind::Instance) {
            Ok(column) => column,
            Err(e) => {
                return Err(e);
            },
        };
        FiboChip::configure(meta, [col_a, col_b, col_c], instance)
    }

    /// Lays the recurrence out over eight rows, from the two seeds: the
    /// seeds are bound to rows 0 and 1 of the public input, the last term
    /// to row 2.
    fn synthesize(
        &self,
        config: Self::Config,
        layouter: &mut Layouter,
    ) -> (r: Result<(), SynthesisError>) {
        let ghost before = layouter@;
        let ghost row0 = cursor(before.regions);
        let chip = FiboChip::construct(config);
        let (prev_a, b_cell, c_cell) = match chip.assign_first_row(layouter, self.a, self.b) {
            Ok(cells) => cells,
            Err(e) => {
                return Err(e);
            },
        };
        let ghost a = self.a.unwrap()@;
        let ghost b = self.b.unwrap()@;
        proof {
            lemma_first_row_laid_out(
                before,
                layouter@,
                config,
                prev_a.value,
                b_cell.value,
                c_cell.value,
            );
            lemma_with_value_assigned(before.slots, prev_a.cell, Some(prev_a.value));
        }
        let ghost first = layouter@;
        proof {
            lemma_laid_out(before, first, config, a, b, 1);
            assert(holds(first.slots, cell_at(config, row0, 0, 0), fib(a, b, 0)));
            assert(holds(first.slots, cell_at(config, row0, 0, 1), fib(a, b, 1)));
            lemma_position(first.slots, prev_a.cell);
            lemma_position(first.slots, b_cell.cell);
        }
        match chip.expose_public(layouter, &prev_a, 0) {
            Ok(()) => {},
            Err(e) => {
                return Err(e);
            },
        }
        match chip.expose_public(layouter, &b_cell, 1) {
            Ok(()) => {},
            Err(e) => {
                return Err(e);
            },
        }
        proof {
            assert(layouter@.slots == first.slots);
            lemma_laid_out_bound(before, first, layouter@, config, a, b, 1);
            reveal_with_fuel(fib, 3);
            let s1 = with_value(before.slots, prev_a.cell, Some(prev_a.value));
            let s2 = with_value(s1, b_cell.cell, Some(b_cell.value));
            lemma_with_value_assigned(s1, b_cell.cell, Some(b_cell.value));
            lemma_with_value_assigned(s2, c_cell.cell, Some(c_cell.value));
        }
        let mut prev_b = b_cell;
        let mut prev_c = c_cell;
        let mut i: usize = 3;
        while i < 10
            invariant
                3 <= i <= 10,
                layouter@.wf(),
                before.wf(),
                row0 == cursor(before.regions),
                chip.config == config,
                before == old(layouter)@,
                self.a is Some,
                self.b is Some,
                first_row_result(config, row0, self.a, self.b) is Ok,
                exposure_result(config, before.equality, config.advice[0]) is Ok,
                exposure_result(config, before.equality, config.advice[1]) is Ok,
                rows_laid_out(before, layouter@, config, a, b, i - 2),
                layouter@.bindings == before.bindings.push(
                    Binding { cell: cell_at(config, row0, 0, 0), instance: config.instance, row: 0 },
                ).push(
                    Binding { cell: cell_at(config, row0, 0, 1), instance: config.instance, row: 1 },
                ),
                prev_b.cell == if i == 3 {
                    cell_at(config, row0, 0, 1)
                } else {
                    cell_at(config, row0, i - 4, 2)
                },
                prev_c.cell == cell_at(config, row0, i - 3, 2),
                prev_b.value@ == fib(a, b, (i - 2) as nat),
                prev_c.value@ == fib(a, b, (i - 1) as nat),
                assigned(layouter@.slots, prev_b.cell) == Some(prev_b.value),
                assigned(layouter@.slots, prev_c.cell) == Some(prev_c.value),
                rows_result(
                    config,
                    before.equality,
                    row0 + 1,
                    7,
                    cell_at(config, row0, 0, 1),
                    cell_at(config, row0, 0, 2),
                ) == rows_result(
                    config,
                    before.equality,
                    row0 + i - 2,
                    (10 - i) as nat,
                    prev_b.cell,
                    prev_c.cell,
                ),
            decreases 10 - i,
        {
            let ghost mid = layouter@;
            proof {
                lemma_laid_out(before, mid, config, a, b, i - 2);
            }
            let next = match chip.assign_row(layouter, &prev_b, &prev_c) {
                Ok(cell) => cell,
                Err(e) => {
                    return Err(e);
                },
            };
            proof {
                lemma_next_row_laid_out(
                    before,
                    mid,
                    layouter@,
                    config,
                    a,
                    b,
                    i - 2,
                    prev_b,
                    prev_c,
                    next.value,
                );
                lemma_next_row_keeps(
                    mid,
                    cell_at(config, row0, i - 2, 0),
                    cell_at(config, row0, i - 2, 1),
                    next.cell,
                    prev_b,
                    prev_c,
                    next.value,
                );
            }
            prev_b = prev_c;
            prev_c = next;
            i += 1;
        }
        let ghost laid = layouter@;
        proof {
            lemma_laid_out(before, laid, config, a, b, 8);
            assert(holds(laid.slots, cell_at(config, row0, 7, 2), fib(a, b, 9)));
            lemma_position(laid.slots, prev_c.cell);
        }
        let r = chip.expose_public(layouter, &prev_c, 2);
        proof {
            if r is Ok {
                lemma_laid_out_bound(before, laid, layouter@, config, a, b, 8);
            }
        }
        r
    }
}

/// Whether the table holds `n` rows of the recurrence from `a` and `b`
/// over the advice columns of `config`, the recurrence gate being enabled
/// on those rows only.
pub open spec fn holds_rows(t: TableView, config: FiboConfig, a: nat, b: nat, n: int) -> bool {
    &&& config.advice[0].kind == ColumnKind::Advice
    &&& config.advice[1].kind == ColumnKind::Advice
    &&& config.advice[2].kind == ColumnKind::Advice
    &&& t.rows == n
    &&& forall|i: int, j: int|
        0 <= i < n && 0 <= j < 3 ==> stored(t.cells, #[trigger] cell_at(config, 0, i, j)) is Some
            && stored(t.cells, cell_at(config, 0, i, j)).unwrap()@ == fib(a, b, (i + j) as nat)
    &&& forall|row: int| #[trigger] enabled(t, config.selector, row) ==> 0 <= row < n
}

/// The value of the recurrence constraint where the three cells that it
/// reads hold `x`, `y` and `z`: `x + y - z`.
pub proof fn lemma_add_value(
    config: FiboConfig,
    t: TableView,
    public: Seq<FieldElement>,
    row: int,
    x: nat,
    y: nat,
    z: nat,
)
    requires
        cell_state_at(t, public, config.advice[0], row + 0)@ == CellValue::Known(x),
        cell_state_at(t, public, config.advice[1], row + 0)@ == CellValue::Known(y),
        cell_state_at(t, public, config.advice[2], row + 0)@ == CellValue::Known(z),
    ensures
        eval(
            add_expression(config.advice[0], config.advice[1], config.advice[2]),
            t,
            public,
            row,
        ) == CellValue::Known(sum_mod(sum_mod(x, y), negation_mod(z))),
{
    reveal_with_fuel(eval, 4);
}

/// The queries of the recurrence constraint: the three columns on the
/// current row.
pub proof fn lemma_add_reads(config: FiboConfig, q: Query)
    ensures
        reads(add_expression(config.advice[0], config.advice[1], config.advice[2]), q) <==> q.rotation
            == 0 && (q.column == config.advice[0] || q.column == config.advice[1] || q.column
            == config.advice[2]),
{
    reveal_with_fuel(reads, 4);
}

/// A cell of a table of rows reads as its term.
proof fn lemma_cell_read(
    t: TableView,
    config: FiboConfig,
    a: nat,
    b: nat,
    n: int,
    public: Seq<FieldElement>,
    i: int,
    j: int,
)
    requires
        holds_rows(t, config, a, b, n),
        0 <= i < n <= usize::MAX,
        0 <= j < 3,
    ensures
        cell_state_at(t, public, config.advice[j], i)@ == CellValue::Known(
            fib(a, b, (i + j) as nat),
        ),
{
    assert(stored(t.cells, cell_at(config, 0, i, j)) is Some);
}

/// The value of the recurrence constraint on a row of a table of rows.
proof fn lemma_constraint_value(
    gate: Gate,
    t: TableView,
    config: FiboConfig,
    a: nat,
    b: nat,
    n: int,
    public: Seq<FieldElement>,
    row: int,
)
    requires
        is_add_gate(gate, config),
        holds_rows(t, config, a, b, n),
        0 <= row < n <= usize::MAX,
    ensures
        eval(gate.constraints@[0].expression, t, public, row) == CellValue::Known(0),
        gate_answered(gate, t, public, row),
{
    let x = fib(a, b, row as nat);
    let y = fib(a, b, (row + 1) as nat);
    let z = fib(a, b, (row + 2) as nat);
    assert(z == sum_mod(x, y)) by {
        reveal_with_fuel(fib, 2);
    }
    lemma_recurrence_holds(x, y);
    lemma_cell_read(t, config, a, b, n, public, row, 0);
    lemma_cell_read(t, config, a, b, n, public, row, 1);
    lemma_cell_read(t, config, a, b, n, public, row, 2);
    lemma_add_value(config, t, public, row, x, y, z);
    assert forall|q: Query| #[trigger] reads(gate.constraints@[0].expression, q) implies answered(
        q,
        t,
        public,
        row,
    ) by {
        lemma_add_reads(config, q);
    }
}

/// A table of rows satisfies the recurrence gate on every row, and every
/// cell that its constraint reads has a value.
pub proof fn lemma_rows_satisfy(
    sys: SystemView,
    t: TableView,
    config: FiboConfig,
    a: nat,
    b: nat,
    n: int,
    public: Seq<FieldElement>,
)
    requires
        sys.gates.len() == 1,
        sys.lookups.len() == 0,
        is_add_gate(sys.gates[0], config),
        holds_rows(t, config, a, b, n),
        n <= usize::MAX,
    ensures
        constraint_report(sys.gates, t, public, n) == Seq::<FailureView>::empty(),
        lookup_report(sys.lookups, t, public, n) == Seq::<FailureView>::empty(),
        first_incomplete_row(sys, t, public, n) < 0,
{
    let gate = sys.gates[0];
    assert forall|row: int, g: int, c: int|
        0 <= row < n && 0 <= g < sys.gates.len() && 0 <= c < sys.gates[g].constraints@.len()
        implies !#[trigger] constraint_violated(sys.gates[g], c, t, public, row) by {
        lemma_constraint_value(gate, t, config, a, b, n, public, row);
    }
    lemma_constraint_report_empty(sys.gates, t, public, n);
    lemma_lookup_report_empty(sys.lookups, t, public, n);
    assert forall|row: int| 0 <= row < n implies #[trigger] row_answered(sys, t, public, row) by {
        lemma_constraint_value(gate, t, config, a, b, n, public, row);
    }
    lemma_rows_complete(sys, t, public, n);
}

/// What the rows laid out from an empty layout resolve to: every touched
/// cell resolves, and the table holds the rows.
pub proof fn lemma_resolved_rows(
    start: LayoutView,
    layout: LayoutView,
    config: FiboConfig,
    a: nat,
    b: nat,
    n: int,
)
    requires
        start == empty_layout(start.equality, start.public_input),
        layout.wf(),
        n >= 1,
        rows_laid_out(start, layout, config, a, b, n),
        config.advice[0].kind == ColumnKind::Advice,
        config.advice[1].kind == ColumnKind::Advice,
        config.advice[2].kind == ColumnKind::Advice,
    ensures
        first_unresolved(layout.slots, layout.slots.len() as int) < 0,
        holds_rows(resolved_table(layout), config, a, b, n),
{
    reveal(rows_laid_out);
    let slots = layout.slots;
    let t = resolved_table(layout);
    assert(cursor(start.regions) == 0);
    assert(consistent(start.slots));
    assert forall|k: int| 0 <= k < slots.len() implies has_value(
        slots,
        (#[trigger] slots[k]).group,
    ) by {
        let cell = slots[k].cell;
        lemma_position_unique(slots, cell, k);
        assert(touched(slots, cell));
        assert(!touched(start.slots, cell));
        assert(in_rows(config, 0, n, cell));
        let i = cell.row as int;
        let j: int = if cell.column == config.advice[0] {
            0
        } else if cell.column == config.advice[1] {
            1
        } else {
            2
        };
        assert(cell == cell_at(config, 0, i, j));
        assert(holds(slots, cell_at(config, 0, i, j), fib(a, b, (i + j) as nat)));
        assert(slots[k].group == slots[k].group && slots[k].value is Some);
    }
    lemma_all_resolved(slots, slots.len() as int);
    assert forall|i: int, j: int| 0 <= i < n && 0 <= j < 3 implies stored(
        t.cells,
        #[trigger] cell_at(config, 0, i, j),
    ) is Some && stored(t.cells, cell_at(config, 0, i, j)).unwrap()@ == fib(a, b, (i + j) as nat) by {
        let cell = cell_at(config, 0, i, j);
        assert(holds(slots, cell, fib(a, b, (i + j) as nat)));
        lemma_position(slots, cell);
        lemma_stored_resolved(slots, cell, slots.len() as int);
        lemma_resolves_to_assigned(slots, cell, cell);
    }
    assert forall|row: int| #[trigger] enabled(t, config.selector, row) implies 0 <= row < n by {
        assert(t.selectors.contains(Cell { column: config.selector, row: row as usize }));
    }
}

/// The rows after a row are laid out without error where the columns are
/// advice columns, different from one another and enabled for equality,
/// the cells to copy lie on the row before, and the table has rows left.
proof fn lemma_rows_result(
    config: FiboConfig,
    equality: Seq<Column>,
    row: int,
    k: nat,
    prev_b: Cell,
    prev_c: Cell,
)
    requires
        config.selector.kind == ColumnKind::Selector,
        config.advice[0].kind == ColumnKind::Advice,
        config.advice[1].kind == ColumnKind::Advice,
        config.advice[2].kind == ColumnKind::Advice,
        config.advice[0] != config.advice[1],
        config.advice[0] != config.advice[2],
        config.advice[1] != config.advice[2],
        equality.contains(config.advice[0]),
        equality.contains(config.advice[1]),
        equality.contains(config.advice[2]),
        prev_b.column == config.advice[1] || prev_b.column == config.advice[2],
        prev_c.column == config.advice[2],
        prev_b.row < row,
        prev_c.row < row,
        1 <= row,
        row + k < usize::MAX,
    ensures
        rows_result(config, equality, row, k, prev_b, prev_c) is Ok,
    decreases k,
{
    if k > 0 {
        lemma_rows_result(
            config,
            equality,
            row + 1,
            (k - 1) as nat,
            prev_c,
            Cell { column: config.advice[2], row: row as usize },
        );
    }
}

/// What the layout of a run resolves to: without error, to a table of
/// eight rows from the two seeds, with the two seeds and the last term
/// bound.
proof fn lemma_run_resolves(
    sys: SystemView,
    config: FiboConfig,
    start: LayoutView,
    layout: LayoutView,
    a: nat,
    b: nat,
)
    requires
        start == empty_layout(start.equality, start.public_input),
        layout.wf(),
        rows_laid_out(start, layout, config, a, b, 8),
        config.advice[0].kind == ColumnKind::Advice,
        config.advice[1].kind == ColumnKind::Advice,
        config.advice[2].kind == ColumnKind::Advice,
        sys.gates.len() == 1,
        sys.lookups.len() == 0,
        is_add_gate(sys.gates[0], config),
    ensures
        resolution_error(layout, sys) is None,
        holds_rows(resolved_table(layout), config, a, b, 8),
{
    let t = resolved_table(layout);
    lemma_resolved_rows(start, layout, config, a, b, 8);
    lemma_laid_out(start, layout, config, a, b, 8);
    lemma_rows_satisfy(sys, t, config, a, b, 8, start.public_input);
}

/// What a run of the circuit comes to. Without a seed it ends in
/// synthesis, on the first cell that has no value. With both it succeeds,
/// and verification against `check` reports the bound cells that `check`
/// does not match, and nothing else: the two seeds against rows 0 and 1,
/// and the tenth term of the recurrence against row 2.
pub proof fn lemma_run(
    circuit: MyCircuit,
    public_input: Seq<FieldElement>,
    r: Result<ProverView, SynthesisError>,
    check: Seq<FieldElement>,
)
    requires
        run_outcome(circuit, public_input, r),
    ensures
        circuit.a is None ==> r == Err::<ProverView, SynthesisError>(
            SynthesisError::UnassignedCell {
                column: Column { kind: ColumnKind::Advice, index: 0 },
                row: 0,
                rotation: 0,
            },
        ),
        circuit.a is Some && circuit.b is None ==> r == Err::<ProverView, SynthesisError>(
            SynthesisError::UnassignedCell {
                column: Column { kind: ColumnKind::Advice, index: 1 },
                row: 0,
                rotation: 0,
            },
        ),
        circuit.a is Some && circuit.b is Some ==> r is Ok && report(
            r.unwrap().system,
            r.unwrap().table,
            check,
        ) == {
            let first = Column { kind: ColumnKind::Advice, index: 0 };
            let second = Column { kind: ColumnKind::Advice, index: 1 };
            let third = Column { kind: ColumnKind::Advice, index: 2 };
            let instance = Column { kind: ColumnKind::Instance, index: 0 };
            let a = circuit.a.unwrap()@;
            let b = circuit.b.unwrap()@;
            mismatch(0, Cell { column: first, row: 0 }, instance, 0, check, a) + mismatch(
                1,
                Cell { column: second, row: 0 },
                instance,
                1,
                check,
                b,
            ) + mismatch(2, Cell { column: third, row: 7 }, instance, 2, check, fib(a, b, 9))
        },
{
    let (sys, config, layout, filled) = choose|
        sys: SystemView,
        config: Result<FiboConfig, ConfigurationError>,
        layout: LayoutView,
        filled: Result<(), SynthesisError>,
    |
        MyCircuit::configured(empty_system(), sys, config) && #[trigger] run_ends(
            circuit,
            public_input,
            sys,
            config,
            layout,
            filled,
            r,
        );
    let columns = config.unwrap();
    let start = empty_layout(sys.equality, public_input);
    let first = Column { kind: ColumnKind::Advice, index: 0 };
    let second = Column { kind: ColumnKind::Advice, index: 1 };
    let third = Column { kind: ColumnKind::Advice, index: 2 };
    let instance = Column { kind: ColumnKind::Instance, index: 0 };
    reveal_with_fuel(count_of_kind, 5);
    assert(columns.advice[0] == first);
    assert(columns.advice[1] == second);
    assert(columns.advice[2] == third);
    assert(columns.instance == instance);
    assert(columns.selector == Column { kind: ColumnKind::Selector, index: 0 });
    assert(cursor(start.regions) == 0);
    lemma_enabled_columns(first, second, third, instance);
    assert(sys.equality.contains(first) && sys.equality.contains(second) && sys.equality.contains(
        third,
    ) && sys.equality.contains(instance));
    lemma_rows_result(
        columns,
        sys.equality,
        1,
        7,
        Cell { column: second, row: 0 },
        Cell { column: third, row: 0 },
    );
    if circuit.a is Some && circuit.b is Some {
        let frozen = SystemView { frozen: true, ..sys };
        let t = resolved_table(layout);
        let a = circuit.a.unwrap()@;
        let b = circuit.b.unwrap()@;
        assert(sys.gates.last() == sys.gates[0]);
        lemma_run_resolves(frozen, columns, start, layout, a, b);
        lemma_rows_satisfy(frozen, t, columns, a, b, 8, check);
        assert(stored(t.cells, cell_at(columns, 0, 0, 0)) is Some);
        assert(stored(t.cells, cell_at(columns, 0, 0, 1)) is Some);
        assert(stored(t.cells, cell_at(columns, 0, 7, 2)) is Some);
        reveal_with_fuel(fib, 2);
        assert(t.bindings =~= seq![
            Binding { cell: cell_at(columns, 0, 0, 0), instance, row: 0 },
            Binding { cell: cell_at(columns, 0, 0, 1), instance, row: 1 },
            Binding { cell: cell_at(columns, 0, 7, 2), instance, row: 2 },
        ]);
        lemma_three_bindings(
            t,
            check,
            Binding { cell: cell_at(columns, 0, 0, 0), instance, row: 0 },
            Binding { cell: cell_at(columns, 0, 0, 1), instance, row: 1 },
            Binding { cell: cell_at(columns, 0, 7, 2), instance, row: 2 },
            a,
            b,
            fib(a, b, 9),
        );
    }
}

/// Four different columns enabled on an empty list are the list of the
/// four.
proof fn lemma_enabled_columns(a: Column, b: Column, c: Column, d: Column)
    requires
        a != b,
        a != c,
        a != d,
        b != c,
        b != d,
        c != d,
    ensures
        with_column(
            with_column(with_column(with_column(Seq::<Column>::empty(), a), b), c),
            d,
        ) == seq![a, b, c, d],
{
    let one = with_column(Seq::<Column>::empty(), a);
    assert(one =~= seq![a]);
    let two = with_column(one, b);
    assert(two =~= seq![a, b]);
    let three = with_column(two, c);
    assert(three =~= seq![a, b, c]);
    let four = with_column(three, d);
    assert(four =~= seq![a, b, c, d]);
}

} // verus!
