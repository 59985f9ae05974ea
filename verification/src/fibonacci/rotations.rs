//! The recurrence over one advice column: each row holds one term, and a
//! gate reads the current row and the two after it. The two seeds come
//! from the public input.
//!
//! ```text
//!   advice | selector
//!  --------+----------
//!     a    |    1
//!     b    |    1
//!     c    |    1
//!     d    |
//!     e    |
//! ```

use crate::column::{Cell, Column, ColumnKind, Query};
use crate::diagnosis::{lemma_constraint_report_empty, lemma_lookup_report_empty};
use crate::expression::{reads, well_kinded, Expression};
use crate::fibonacci::recurrence::{fib, lemma_recurrence_holds, lemma_three_bindings, mismatch};
use crate::field::{negation_mod, sum_mod, FieldElement};
use crate::layout::{
    assigned, binding_allowed, binding_outcome, cursor, empty_layout, holds, lemma_fresh_row,
    lemma_position, lemma_position_unique, lemma_region_below_cursor, lemma_with_selector,
    lemma_with_value_assigned, lemma_with_value_linked, linked, public_value, touched,
    with_selector, with_slot, with_value, AssignmentError, Binding, LayoutView, Slot,
    SynthesisError,
};
use crate::layouter::Layouter;
use crate::prover::{run_ends, run_outcome, Circuit, ProverView};
use crate::resolution::{
    consistent, first_unresolved, has_value, lemma_all_resolved, lemma_fresh_value_consistent,
    lemma_resolves_to_assigned, lemma_stored_resolved, resolution_error, resolved_table,
};
use crate::system::{
    count_of_kind, empty_system, lemma_count_other_kind, with_column, ConfigurationError,
    Constraint, ConstraintSystem, Gate, SystemView,
};
use crate::verification::{
    constraint_report, constraint_violated, lookup_report, report, FailureView,
};
use crate::witness::{
    answered, cell_state_at, enabled, eval, first_incomplete_row, gate_answered,
    lemma_rows_complete, row_answered, stored, CellValue, TableView,
};
use vstd::prelude::*;
use vstd::string::StringExecFns;

verus! {

/// A cell that was assigned, with its value where it has one.
#[derive(Clone, Copy, Debug, PartialEq, Eq)]
pub struct ACell {
    pub cell: Cell,
    pub value: Option<FieldElement>,
}

/// The columns of the chip.
#[derive(Clone, Copy, Debug, PartialEq, Eq)]
pub struct FibonacciConfig {
    pub advice: Column,
    pub selector: Column,
    pub instance: Column,
}

/// The chip that lays the recurrence out down one column.
#[derive(Clone, Copy, Debug, PartialEq, Eq)]
pub struct FibonacciChip {
    pub config: FibonacciConfig,
}

/// The constraint of the recurrence: `a + b - c`, read on the current row
/// and the two rows after it.
pub open spec fn add_expression(advice: Column) -> Expression {
    Expression::Sum(
        Box::new(
            Expression::Sum(
                Box::new(Expression::ColumnQuery(advice, 0)),
                Box::new(Expression::ColumnQuery(advice, 1)),
            ),
        ),
        Box::new(Expression::Negate(Box::new(Expression::ColumnQuery(advice, 2)))),
    )
}

/// Whether `gate` is the recurrence gate of `config`.
pub open spec fn is_add_gate(gate: Gate, config: FibonacciConfig) -> bool {
    &&& gate.name@ == "add"@
    &&& gate.selector == config.selector
    &&& gate.constraints@.len() == 1
    &&& gate.constraints@[0].name@ == "add"@
    &&& gate.constraints@[0].expression == add_expression(config.advice)
}

/// Whether `after` is `before` with the selector, the equality of the two
/// columns and the recurrence gate of `config` registered on it.
pub open spec fn chip_configured(
    before: SystemView,
    after: SystemView,
    config: FibonacciConfig,
) -> bool {
    &&& config.selector == (Column {
        kind: ColumnKind::Selector,
        index: count_of_kind(before.columns, ColumnKind::Selector, before.columns.len()) as usize,
    })
    &&& after.columns == before.columns.push(config.selector)
    &&& after.equality == with_column(with_column(before.equality, config.advice), config.instance)
    &&& after.gates.len() == before.gates.len() + 1
    &&& after.gates.drop_last() == before.gates
    &&& is_add_gate(after.gates.last(), config)
    &&& after.lookups == before.lookups
    &&& !after.frozen
}

/// The number of rows that a table of `nrows` terms takes: the two seeds
/// are always there.
pub open spec fn table_rows(nrows: int) -> int {
    if nrows < 2 {
        2
    } else {
        nrows
    }
}

/// What laying out `nrows` terms from `row` comes to.
pub open spec fn assign_result(config: FibonacciConfig, layout: LayoutView, nrows: int) -> Result<
    (),
    SynthesisError,
> {
    let row = cursor(layout.regions);
    let outside = Err(SynthesisError::Assignment(AssignmentError::RegionOverlap));
    if config.selector.kind != ColumnKind::Selector {
        Err(SynthesisError::Configuration(ConfigurationError::WrongColumnKind))
    } else if row + 1 >= usize::MAX {
        outside
    } else if !binding_allowed(layout, config.advice, config.instance) {
        Err(SynthesisError::Configuration(ConfigurationError::WrongColumnKind))
    } else if nrows <= 2 {
        Ok(())
    } else if row + 2 >= usize::MAX {
        outside
    } else if layout.public_input.len() < 2 {
        Err(
            SynthesisError::UnassignedCell {
                column: config.advice,
                row: (row + 2) as usize,
                rotation: 0,
            },
        )
    } else if row + nrows > usize::MAX {
        outside
    } else {
        Ok(())
    }
}

/// The cell of the chip on row `row0 + i`.
pub open spec fn cell_at(config: FibonacciConfig, row0: int, i: int) -> Cell {
    Cell { column: config.advice, row: (row0 + i) as usize }
}

/// The selector cell of the chip on row `row0 + i`.
pub open spec fn gate_at(config: FibonacciConfig, row0: int, i: int) -> Cell {
    Cell { column: config.selector, row: (row0 + i) as usize }
}

/// The term `i` of the recurrence from the first two rows of the public
/// input, where the public input has them and `i` is past them; else the
/// row `i` of the public input itself.
pub open spec fn term_assigned(
    slots: Seq<Slot>,
    cell: Cell,
    public: Seq<FieldElement>,
    i: int,
) -> bool {
    if i < 2 {
        assigned(slots, cell) == public_value(public, i)
    } else {
        public.len() >= 2 && holds(slots, cell, fib(public[0]@, public[1]@, i as nat))
    }
}

/// Whether `after` is `before` with one more region of `rows` rows, of
/// which the first `terms` hold the terms of the recurrence, its gate
/// being enabled on the first two rows and on the rows below `gated`.
#[verifier::opaque]
pub open spec fn terms_laid_out(
    before: LayoutView,
    after: LayoutView,
    config: FibonacciConfig,
    rows: int,
    terms: int,
    gated: int,
) -> bool {
    let row0 = cursor(before.regions);
    &&& after.regions.len() == before.regions.len() + 1
    &&& after.regions.drop_last() == before.regions
    &&& after.regions.last().name@ == "entire fibonacci table"@
    &&& after.regions.last().start == row0
    &&& after.regions.last().rows == rows
    &&& forall|i: int|
        0 <= i < terms ==> term_assigned(
            after.slots,
            #[trigger] cell_at(config, row0, i),
            before.public_input,
            i,
        )
    &&& forall|cell: Cell|
        !(cell.column == config.advice && row0 <= cell.row < row0 + terms) ==> #[trigger] assigned(
            after.slots,
            cell,
        ) == assigned(before.slots, cell)
    &&& forall|x: Cell, y: Cell| linked(before.slots, x, y) ==> #[trigger] linked(after.slots, x, y)
    &&& forall|cell: Cell| #[trigger]
        touched(after.slots, cell) ==> touched(before.slots, cell) || (cell.column
            == config.advice && row0 <= cell.row < row0 + terms)
    &&& consistent(before.slots) ==> consistent(after.slots)
    &&& forall|i: int|
        0 <= i < 2 || 2 <= i < gated ==> after.selectors.contains(
            #[trigger] gate_at(config, row0, i),
        )
    &&& forall|cell: Cell| before.selectors.contains(cell) ==> after.selectors.contains(cell)
    &&& forall|cell: Cell|
        after.selectors.contains(cell) ==> before.selectors.contains(cell) || (cell.column
            == config.selector && (row0 <= cell.row < row0 + 2 || row0 + 2 <= cell.row < row0
            + gated))
    &&& after.public_input == before.public_input
    &&& after.equality == before.equality
    &&& after.tables == before.tables
}

/// The bindings with the two seeds bound to rows 0 and 1 of the public
/// input.
pub open spec fn seeds_bound(
    bindings: Seq<Binding>,
    config: FibonacciConfig,
    row0: int,
) -> Seq<Binding> {
    bindings.push(
        Binding { cell: cell_at(config, row0, 0), instance: config.instance, row: 0 },
    ).push(Binding { cell: cell_at(config, row0, 1), instance: config.instance, row: 1 })
}

/// Whether `column` is an advice or an instance column.
fn capable(column: Column) -> (r: bool)
    ensures
        r == column.equality_capable(),
{
    matches!(column.kind, ColumnKind::Advice) || matches!(column.kind, ColumnKind::Instance)
}

/// One more term below the terms laid out so far is one more term laid
/// out.
pub proof fn lemma_term_laid_out(
    before: LayoutView,
    mid: LayoutView,
    after: LayoutView,
    config: FibonacciConfig,
    row: int,
    gated: int,
    next_gated: int,
    value: FieldElement,
)
    requires
        before.wf(),
        mid.wf(),
        after.wf(),
        row >= 2,
        cursor(before.regions) + row < usize::MAX,
        config.advice.kind == ColumnKind::Advice,
        terms_laid_out(before, mid, config, row, row, gated),
        gated <= row,
        next_gated == gated || (next_gated == row + 1 && gated == row),
        before.public_input.len() >= 2,
        holds(
            mid.slots,
            cell_at(config, cursor(before.regions), row - 2),
            fib(before.public_input[0]@, before.public_input[1]@, (row - 2) as nat),
        ),
        holds(
            mid.slots,
            cell_at(config, cursor(before.regions), row - 1),
            fib(before.public_input[0]@, before.public_input[1]@, (row - 1) as nat),
        ),
        value@ == fib(before.public_input[0]@, before.public_input[1]@, row as nat),
        after.regions.len() == mid.regions.len(),
        after.regions.drop_last() == mid.regions.drop_last(),
        after.regions.last().name == mid.regions.last().name,
        after.regions.last().start == mid.regions.last().start,
        after.regions.last().rows == row + 1,
        after.slots == with_value(
            mid.slots,
            cell_at(config, cursor(before.regions), row),
            Some(value),
        ),
        !touched(mid.slots, cell_at(config, cursor(before.regions), row)),
        after.selectors == if next_gated == gated {
            mid.selectors
        } else {
            with_selector(mid.selectors, gate_at(config, cursor(before.regions), row))
        },
        after.bindings == mid.bindings,
        after.public_input == mid.public_input,
        after.equality == mid.equality,
        after.tables == mid.tables,
    ensures
        terms_laid_out(before, after, config, row + 1, row + 1, next_gated),
{
    reveal(terms_laid_out);
    let row0 = cursor(before.regions);
    let cell = cell_at(config, row0, row);
    lemma_with_value_assigned(mid.slots, cell, Some(value));
    lemma_with_value_linked(mid.slots, cell, Some(value));
    if consistent(before.slots) {
        lemma_fresh_value_consistent(mid.slots, cell, Some(value));
    }
    assert forall|c: Cell| #[trigger] touched(after.slots, c) implies touched(before.slots, c) || (
    c.column == config.advice && row0 <= c.row < row0 + row + 1) by {
        if c != cell {
            assert(touched(mid.slots, c));
        }
    }
    assert forall|i: int| 0 <= i < row + 1 implies term_assigned(
        after.slots,
        #[trigger] cell_at(config, row0, i),
        before.public_input,
        i,
    ) by {
        if i < row {
            assert(term_assigned(mid.slots, cell_at(config, row0, i), before.public_input, i));
            assert(cell_at(config, row0, i) != cell);
            assert(assigned(after.slots, cell_at(config, row0, i)) == assigned(
                mid.slots,
                cell_at(config, row0, i),
            ));
        }
    }
    assert forall|other: Cell|
        !(other.column == config.advice && row0 <= other.row < row0 + row + 1) implies #[trigger] assigned(
        after.slots,
        other,
    ) == assigned(before.slots, other) by {
        assert(other != cell);
        assert(assigned(after.slots, other) == assigned(mid.slots, other));
        assert(assigned(mid.slots, other) == assigned(before.slots, other));
    }
    assert forall|x: Cell, y: Cell| linked(before.slots, x, y) implies #[trigger] linked(
        after.slots,
        x,
        y,
    ) by {
        assert(linked(mid.slots, x, y));
    }
    lemma_with_selector(mid.selectors, gate_at(config, row0, row));
    assert forall|i: int| 0 <= i < 2 || 2 <= i < next_gated implies after.selectors.contains(
        #[trigger] gate_at(config, row0, i),
    ) by {
        if i < 2 || i < gated {
            assert(mid.selectors.contains(gate_at(config, row0, i)));
        }
    }
    assert forall|c: Cell| before.selectors.contains(c) implies after.selectors.contains(c) by {
        assert(mid.selectors.contains(c));
    }
}

/// What the terms laid out say of the layout after them.
pub proof fn lemma_terms(
    before: LayoutView,
    after: LayoutView,
    config: FibonacciConfig,
    rows: int,
    terms: int,
    gated: int,
)
    requires
        terms_laid_out(before, after, config, rows, terms, gated),
    ensures
        cursor(after.regions) == cursor(before.regions) + rows || after.regions.last().rows != rows,
        after.regions.len() == before.regions.len() + 1,
        after.regions.last().start == cursor(before.regions),
        after.regions.last().rows == rows,
        forall|cell: Cell|
            after.selectors.contains(cell) ==> before.selectors.contains(cell) || (cell.column
                == config.selector && (cursor(before.regions) <= cell.row < cursor(before.regions) + 2
                || cursor(before.regions) + 2 <= cell.row < cursor(before.regions) + gated)),
        forall|i: int|
            0 <= i < 2 || 2 <= i < gated ==> after.selectors.contains(
                #[trigger] gate_at(config, cursor(before.regions), i),
            ),
        after.equality == before.equality,
        after.public_input == before.public_input,
        after.tables == before.tables,
{
    reveal(terms_laid_out);
}

/// What the terms laid out from an empty layout resolve to: every touched
/// cell resolves, and the cell of term `i` holds term `i`.
pub proof fn lemma_resolved_terms(
    start: LayoutView,
    layout: LayoutView,
    config: FibonacciConfig,
    terms: int,
    gated: int,
)
    requires
        start == empty_layout(start.equality, start.public_input),
        layout.wf(),
        terms >= 2,
        start.public_input.len() >= 2,
        terms_laid_out(start, layout, config, terms, terms, gated),
        config.advice.kind == ColumnKind::Advice,
    ensures
        first_unresolved(layout.slots, layout.slots.len() as int) < 0,
        resolved_table(layout).rows == terms,
        forall|i: int|
            0 <= i < terms ==> stored(
                resolved_table(layout).cells,
                #[trigger] cell_at(config, 0, i),
            ) is Some && stored(resolved_table(layout).cells, cell_at(config, 0, i)).unwrap()@ == fib(
                start.public_input[0]@,
                start.public_input[1]@,
                i as nat,
            ),
        stored(resolved_table(layout).cells, cell_at(config, 0, 0)) == Some(start.public_input[0]),
        stored(resolved_table(layout).cells, cell_at(config, 0, 1)) == Some(start.public_input[1]),
{
    reveal(terms_laid_out);
    let slots = layout.slots;
    let public = start.public_input;
    let t = resolved_table(layout);
    assert(cursor(start.regions) == 0);
    assert(consistent(start.slots));
    assert forall|i: int| 0 <= i < terms implies assigned(slots, #[trigger] cell_at(config, 0, i)) is Some
        && assigned(slots, cell_at(config, 0, i)).unwrap()@ == fib(public[0]@, public[1]@, i as nat) && (i
        < 2 ==> assigned(slots, cell_at(config, 0, i)) == Some(public[i])) by {
        assert(term_assigned(slots, cell_at(config, 0, i), public, i));
        reveal_with_fuel(fib, 2);
    }
    assert forall|k: int| 0 <= k < slots.len() implies has_value(
        slots,
        (#[trigger] slots[k]).group,
    ) by {
        let cell = slots[k].cell;
        lemma_position_unique(slots, cell, k);
        assert(touched(slots, cell));
        assert(!touched(start.slots, cell));
        let i = cell.row as int;
        assert(cell == cell_at(config, 0, i));
        assert(assigned(slots, cell_at(config, 0, i)) is Some);
        assert(slots[k].group == slots[k].group && slots[k].value is Some);
    }
    lemma_all_resolved(slots, slots.len() as int);
    assert forall|i: int| 0 <= i < terms implies stored(t.cells, #[trigger] cell_at(config, 0, i))
        == assigned(slots, cell_at(config, 0, i)) by {
        let cell = cell_at(config, 0, i);
        assert(assigned(slots, cell) is Some);
        assert(consistent(slots));
        lemma_position(slots, cell);
        lemma_stored_resolved(slots, cell, slots.len() as int);
        lemma_resolves_to_assigned(slots, cell, cell);
    }
    assert(layout.regions.last().start + layout.regions.last().rows == terms);
}

impl FibonacciChip {
    /// Opens the region "entire fibonacci table" and lays `nrows` terms of
    /// the recurrence out in it, one per row: the first two are copied
    /// from rows 0 and 1 of the public input and bound to them, each later
    /// one is the sum of the two before it. The recurrence gate is enabled on the
    /// first two rows and on every row with two terms after it. Returns
    /// the cell of the last term.
    #[verifier::rlimit(20)]
    pub fn assign(&self, layouter: &mut Layouter, nrows: usize) -> (r: Result<
        ACell,
        SynthesisError,
    >)
        requires
            old(layouter)@.wf(),
        ensures
            final(layouter)@.wf(),
            match r {
                Ok(out) => {
                    &&& assign_result(self.config, old(layouter)@, nrows as int) is Ok
                    &&& terms_laid_out(
                        old(layouter)@,
                        final(layouter)@,
                        self.config,
                        table_rows(nrows as int),
                        table_rows(nrows as int),
                        nrows - 2,
                    )
                    &&& out.cell == cell_at(
                        self.config,
                        cursor(old(layouter)@.regions),
                        table_rows(nrows as int) - 1,
                    )
                    &&& out.value == assigned(final(layouter)@.slots, out.cell)
                    &&& final(layouter)@.bindings == seeds_bound(
                        old(layouter)@.bindings,
                        self.config,
                        cursor(old(layouter)@.regions),
                    )
                },
                Err(e) => assign_result(self.config, old(layouter)@, nrows as int) == Err::<
                    (),
                    SynthesisError,
                >(e),
            },
    {
        proof {
            reveal(terms_laid_out);
        }
        let config = self.config;
        let ghost before = layouter@;
        let ghost row0 = cursor(before.regions);
        let region = layouter.region(String::from_str("entire fibonacci table"));
        match layouter.enable_selector(region, config.selector, 0) {
            Ok(()) => {},
            Err(e) => {
                return Err(e);
            },
        }
        let ghost opened = layouter@;
        match layouter.enable_selector(region, config.selector, 1) {
            Ok(()) => {},
            Err(e) => {
                return Err(e);
            },
        }
        let ghost gated = layouter@;
        proof {
            assert(opened.regions.drop_last() =~= before.regions);
            assert(gated.regions.drop_last() =~= before.regions);
            if config.advice.kind == ColumnKind::Advice {
                lemma_fresh_row(before, cell_at(config, row0, 0));
                lemma_fresh_row(before, cell_at(config, row0, 1));
            }
        }
        match layouter.assign_from_instance(region, config.instance, 0, config.advice, 0) {
            Ok(_) => {},
            Err(e) => {
                return Err(e);
            },
        }
        let ghost with_first = layouter@;
        proof {
            lemma_with_value_assigned(
                before.slots,
                cell_at(config, row0, 0),
                public_value(before.public_input, 0),
            );
            lemma_with_value_linked(
                before.slots,
                cell_at(config, row0, 0),
                public_value(before.public_input, 0),
            );
            assert(assigned(with_first.slots, cell_at(config, row0, 1)) == assigned(
                before.slots,
                cell_at(config, row0, 1),
            ));
        }
        let second = match layouter.assign_from_instance(region, config.instance, 1, config.advice, 1) {
            Ok(cell) => cell,
            Err(e) => {
                return Err(e);
            },
        };
        let public = layouter.public_input();
        let mut a_val: Option<FieldElement> = if 0 < public.len() {
            Some(public[0])
        } else {
            None
        };
        let mut b_val: Option<FieldElement> = if 1 < public.len() {
            Some(public[1])
        } else {
            None
        };
        let mut out = ACell { cell: second, value: b_val };
        proof {
            let seeded = layouter@;
            lemma_with_value_assigned(
                with_first.slots,
                cell_at(config, row0, 1),
                public_value(before.public_input, 1),
            );
            lemma_with_value_linked(
                with_first.slots,
                cell_at(config, row0, 1),
                public_value(before.public_input, 1),
            );
            lemma_with_selector(before.selectors, gate_at(config, row0, 0));
            lemma_with_selector(opened.selectors, gate_at(config, row0, 1));
            assert(seeded.regions.drop_last() =~= before.regions);
            assert forall|i: int| 0 <= i < 2 implies term_assigned(
                seeded.slots,
                #[trigger] cell_at(config, row0, i),
                before.public_input,
                i,
            ) by {
                if i == 0 {
                    assert(assigned(seeded.slots, cell_at(config, row0, 0)) == assigned(
                        with_first.slots,
                        cell_at(config, row0, 0),
                    ));
                }
            }
            assert forall|other: Cell|
                !(other.column == config.advice && row0 <= other.row < row0 + 2) implies #[trigger] assigned(
                seeded.slots,
                other,
            ) == assigned(before.slots, other) by {
                assert(other != cell_at(config, row0, 0) && other != cell_at(config, row0, 1));
                assert(assigned(seeded.slots, other) == assigned(with_first.slots, other));
                assert(assigned(with_first.slots, other) == assigned(before.slots, other));
            }
            assert forall|x: Cell, y: Cell| linked(before.slots, x, y) implies #[trigger] linked(
                seeded.slots,
                x,
                y,
            ) by {
                assert(linked(with_first.slots, x, y));
            }
            assert forall|c: Cell| before.selectors.contains(c) implies seeded.selectors.contains(
                c,
            ) by {
                assert(opened.selectors.contains(c));
            }
            assert forall|i: int| 0 <= i < 2 || 2 <= i < 2 implies seeded.selectors.contains(
                #[trigger] gate_at(config, row0, i),
            ) by {
                if i == 0 {
                    assert(opened.selectors.contains(gate_at(config, row0, 0)));
                }
            }
            if consistent(before.slots) {
                lemma_fresh_value_consistent(
                    before.slots,
                    cell_at(config, row0, 0),
                    public_value(before.public_input, 0),
                );
                lemma_fresh_value_consistent(
                    with_first.slots,
                    cell_at(config, row0, 1),
                    public_value(before.public_input, 1),
                );
            }
            assert forall|c: Cell| #[trigger] touched(seeded.slots, c) implies touched(
                before.slots,
                c,
            ) || (c.column == config.advice && row0 <= c.row < row0 + 2) by {
                if c != cell_at(config, row0, 0) && c != cell_at(config, row0, 1) {
                    assert(touched(with_first.slots, c));
                }
            }
            assert(terms_laid_out(before, seeded, config, 2, 2, 2));
            reveal_with_fuel(fib, 3);
        }
        let mut row: usize = 2;
        while row < nrows
            invariant
                2 <= row,
                row <= nrows || row == 2,
                layouter@.wf(),
                before.wf(),
                before == old(layouter)@,
                row0 == cursor(before.regions),
                config == self.config,
                region == before.regions.len(),
                config.selector.kind == ColumnKind::Selector,
                binding_allowed(before, config.advice, config.instance),
                row0 + 1 < usize::MAX,
                terms_laid_out(
                    before,
                    layouter@,
                    config,
                    row as int,
                    row as int,
                    if row <= nrows - 2 {
                        row as int
                    } else if nrows <= 4 {
                        2
                    } else {
                        nrows - 2
                    },
                ),
                a_val == assigned(layouter@.slots, cell_at(config, row0, row - 2)),
                b_val == assigned(layouter@.slots, cell_at(config, row0, row - 1)),
                out == (ACell { cell: cell_at(config, row0, row - 1), value: b_val }),
                layouter@.bindings == seeds_bound(before.bindings, config, row0),
                row > 2 ==> before.public_input.len() >= 2,
            decreases nrows - row,
        {
            let ghost mid = layouter@;
            let ghost gated_before: int = if row <= nrows - 2 {
                row as int
            } else if nrows <= 4 {
                2
            } else {
                nrows - 2
            };
            proof {
                reveal(terms_laid_out);
                lemma_fresh_row(mid, cell_at(config, row0, row as int));
            }
            if row < nrows - 2 {
                match layouter.enable_selector(region, config.selector, row) {
                    Ok(()) => {},
                    Err(e) => {
                        return Err(e);
                    },
                }
            }
            let c_val = match (a_val, b_val) {
                (Some(a), Some(b)) => Some(a.plus(&b)),
                _ => None,
            };
            let cell = match layouter.assign_advice(region, config.advice, row, c_val) {
                Ok(cell) => cell,
                Err(e) => {
                    return Err(e);
                },
            };
            proof {
                let gated_after: int = if row + 1 <= nrows - 2 {
                    row + 1
                } else if nrows <= 4 {
                    2
                } else {
                    nrows - 2
                };
                assert(layouter@.regions.drop_last() =~= mid.regions.drop_last());
                lemma_term_laid_out(
                    before,
                    mid,
                    layouter@,
                    config,
                    row as int,
                    gated_before,
                    gated_after,
                    c_val.unwrap(),
                );
                lemma_with_value_assigned(mid.slots, cell_at(config, row0, row as int), c_val);
            }
            a_val = b_val;
            b_val = c_val;
            out = ACell { cell, value: c_val };
            row += 1;
        }
        Ok(out)
    }

    /// The chip of `config`.
    pub fn construct(config: FibonacciConfig) -> (r: Self)
        ensures
            r.config == config,
    {
        FibonacciChip { config }
    }

    /// Allocates the selector, enables the two columns for equality and
    /// registers a gate `a + b - c = 0` over the current row and the two
    /// after it. Refused on a frozen system, and where a column is neither
    /// an advice nor an instance column.
    pub fn configure(meta: &mut ConstraintSystem, advice: Column, instance: Column) -> (r: Result<
        FibonacciConfig,
        ConfigurationError,
    >)
        ensures
            match r {
                Ok(config) => {
                    &&& !old(meta)@.frozen
                    &&& config.advice == advice
                    &&& config.instance == instance
                    &&& chip_configured(old(meta)@, final(meta)@, config)
                },
                Err(e) => {
                    &&& final(meta)@ == old(meta)@
                    &&& e == if old(meta)@.frozen {
                        ConfigurationError::Frozen
                    } else {
                        ConfigurationError::WrongColumnKind
                    }
                    &&& old(meta)@.frozen || !advice.equality_capable()
                        || !instance.equality_capable()
                },
            },
    {
        if meta.is_frozen() {
            return Err(ConfigurationError::Frozen);
        }
        if !capable(advice) || !capable(instance) {
            return Err(ConfigurationError::WrongColumnKind);
        }
        let ghost before = meta@;
        let selector = match meta.allocate_column(ColumnKind::Selector) {
            Ok(column) => column,
            Err(e) => {
                return Err(e);
            },
        };
        match meta.enable_equality(advice) {
            Ok(()) => {},
            Err(e) => {
                return Err(e);
            },
        }
        match meta.enable_equality(instance) {
            Ok(()) => {},
            Err(e) => {
                return Err(e);
            },
        }
        let a = Expression::query(advice, 0);
        let b = Expression::query(advice, 1);
        let c = Expression::query(advice, 2);
        let expression = Expression::difference(Expression::sum(a, b), c);
        proof {
            reveal_with_fuel(well_kinded, 4);
        }
        let mut constraints: Vec<Constraint> = Vec::new();
        constraints.push(Constraint { name: String::from_str("add"), expression });
        let created = meta.create_gate(String::from_str("add"), selector, constraints);
        proof {
            assert(created is Ok);
            assert(meta@.gates.drop_last() =~= before.gates);
        }
        Ok(FibonacciConfig { advice, selector, instance })
    }

    /// Binds `cell` to row `row` of the public input.
    pub fn expose_public(&self, layouter: &mut Layouter, cell: ACell, row: usize) -> (r: Result<
        (),
        SynthesisError,
    >)
        requires
            old(layouter)@.wf(),
        ensures
            final(layouter)@.wf(),
            r == binding_outcome(old(layouter)@, cell.cell, self.config.instance),
            final(layouter)@ == if r is Ok {
                LayoutView {
                    slots: with_slot(old(layouter)@.slots, cell.cell),
                    bindings: old(layouter)@.bindings.push(
                        Binding { cell: cell.cell, instance: self.config.instance, row },
                    ),
                    ..old(layouter)@
                }
            } else {
                old(layouter)@
            },
    {
        layouter.constrain_instance(cell.cell, self.config.instance, row)
    }
}

/// The circuit of the recurrence from two public seeds.
#[derive(Clone, Copy, Debug, PartialEq, Eq)]
pub struct MyCircuit {
    pub a: Option<FieldElement>,
    pub b: Option<FieldElement>,
}

impl Circuit for MyCircuit {
    type Config = FibonacciConfig;

    /// What `configure` does.
    open spec fn configured(
        before: SystemView,
        after: SystemView,
        r: Result<Self::Config, ConfigurationError>,
    ) -> bool {
        match r {
            Ok(config) => {
                let columns = before.columns;
                &&& !before.frozen
                &&& config.advice == (Column {
                    kind: ColumnKind::Advice,
                    index: count_of_kind(columns, ColumnKind::Advice, columns.len()) as usize,
                })
                &&& config.instance == (Column {
                    kind: ColumnKind::Instance,
                    index: count_of_kind(
                        columns,
                        ColumnKind::Instance,
                        columns.len(),
                    ) as usize,
                })
                &&& chip_configured(
                    SystemView {
                        columns: columns.push(config.advice).push(config.instance),
                        ..before
                    },
                    after,
                    config,
                )
            },
            Err(e) => before.frozen && e == ConfigurationError::Frozen && after
                == before,
        }
    }

    /// What `synthesize` does.
    open spec fn synthesized(
        &self,
        config: Self::Config,
        before: LayoutView,
        after: LayoutView,
        r: Result<(), SynthesisError>,
    ) -> bool {
        &&& r == assign_result(config, before, 10)
        &&& r is Ok ==> {
            let row0 = cursor(before.regions);
            &&& terms_laid_out(before, after, config, 10, 10, 8)
            &&& after.bindings == seeds_bound(
                before.bindings,
                config,
                row0,
            ).push(Binding { cell: cell_at(config, row0, 9), instance: config.instance, row: 2 })
        }
    }

    /// The same circuit with no witness.
    fn without_witnesses(&self) -> (r: Self)
        ensures
            r.a is None,
            r.b is None,
    {
        MyCircuit { a: None, b: None }
    }

    /// Allocates an advice and an instance column and configures the chip
    /// on them. Refused on a frozen system.
    fn configure(meta: &mut ConstraintSystem) -> (r: Result<Self::Config, ConfigurationError>) {
        let ghost before = meta@;
        let advice = match meta.allocate_column(ColumnKind::Advice) {
            Ok(column) => column,
            Err(e) => {
                return Err(e);
            },
        };
        proof {
            lemma_count_other_kind(
                before.columns,
                advice,
                ColumnKind::Instance,
            );
        }
        let instance = match meta.allocate_column(ColumnKind::Instance) {
            Ok(column) => column,
            Err(e) => {
                return Err(e);
            },
        };
        FibonacciChip::configure(meta, advice, instance)
    }

    /// Lays ten terms of the recurrence out, from the first two rows of
    /// the public input, and binds the last term to row 2 of it.
    fn synthesize(
        &self,
        config: Self::Config,
        layouter: &mut Layouter,
    ) -> (r: Result<(), SynthesisError>) {
        let ghost before = layouter@;
        let chip = FibonacciChip::construct(config);
        let out_cell = match chip.assign(layouter, 10) {
            Ok(cell) => cell,
            Err(e) => {
                return Err(e);
            },
        };
        proof {
            reveal(terms_laid_out);
            let row0 = cursor(before.regions);
            assert(term_assigned(layouter@.slots, cell_at(config, row0, 9), before.public_input, 9));
            lemma_region_below_cursor(
                layouter@.regions,
                layouter@.regions.len() - 1,
            );
        }
        let ghost laid = layouter@;
        let r = chip.expose_public(layouter, out_cell, 2);
        proof {
            lemma_position(laid.slots, out_cell.cell);
            assert(layouter@.slots == laid.slots || r is Err);
        }
        r
    }
}

/// Whether the table holds `terms` terms of the recurrence from `a` and
/// `b` down the advice column of `config`, the recurrence gate being
/// enabled on rows with two terms after them only.
pub open spec fn holds_terms(
    t: TableView,
    config: FibonacciConfig,
    a: nat,
    b: nat,
    terms: int,
) -> bool {
    &&& config.advice.kind == ColumnKind::Advice
    &&& t.rows == terms
    &&& forall|i: int|
        0 <= i < terms ==> stored(t.cells, #[trigger] cell_at(config, 0, i)) is Some && stored(
            t.cells,
            cell_at(config, 0, i),
        ).unwrap()@ == fib(a, b, i as nat)
    &&& forall|row: int| #[trigger] enabled(t, config.selector, row) ==> 0 <= row < terms - 2
}

/// The value of the recurrence constraint where the three cells that it
/// reads hold `x`, `y` and `z`: `x + y - z`.
pub proof fn lemma_add_value(
    advice: Column,
    t: TableView,
    public: Seq<FieldElement>,
    row: int,
    x: nat,
    y: nat,
    z: nat,
)
    requires
        cell_state_at(t, public, advice, row + 0)@ == CellValue::Known(x),
        cell_state_at(t, public, advice, row + 1)@ == CellValue::Known(y),
        cell_state_at(t, public, advice, row + 2)@ == CellValue::Known(z),
    ensures
        eval(add_expression(advice), t, public, row) == CellValue::Known(
            sum_mod(sum_mod(x, y), negation_mod(z)),
        ),
{
    reveal_with_fuel(eval, 4);
}

/// The queries of the recurrence constraint: the current row and the two
/// after it.
pub proof fn lemma_add_reads(advice: Column, q: Query)
    ensures
        reads(add_expression(advice), q) <==> q.column == advice && 0 <= q.rotation <= 2,
{
    reveal_with_fuel(reads, 4);
}

/// The value of the recurrence constraint on a row of a table of terms.
proof fn lemma_constraint_value(
    gate: Gate,
    t: TableView,
    config: FibonacciConfig,
    a: nat,
    b: nat,
    terms: int,
    public: Seq<FieldElement>,
    row: int,
)
    requires
        is_add_gate(gate, config),
        holds_terms(t, config, a, b, terms),
        0 <= row < terms - 2,
        terms <= usize::MAX,
    ensures
        eval(gate.constraints@[0].expression, t, public, row) == CellValue::Known(0),
        gate_answered(gate, t, public, row),
{
    let x = fib(a, b, row as nat);
    let y = fib(a, b, (row + 1) as nat);
    let z = fib(a, b, (row + 2) as nat);
    assert(z == sum_mod(x, y)) by {
        reveal_with_fuel(fib, 2);
    }
    lemma_recurrence_holds(x, y);
    lemma_term_read(t, config, a, b, terms, public, row);
    lemma_term_read(t, config, a, b, terms, public, row + 1);
    lemma_term_read(t, config, a, b, terms, public, row + 2);
    lemma_add_value(config.advice, t, public, row, x, y, z);
    assert forall|q: Query| #[trigger] reads(gate.constraints@[0].expression, q) implies answered(
        q,
        t,
        public,
        row,
    ) by {
        lemma_add_reads(config.advice, q);
        lemma_term_read(t, config, a, b, terms, public, row + q.rotation);
    }
}

/// A row of a table of terms reads as its term.
proof fn lemma_term_read(
    t: TableView,
    config: FibonacciConfig,
    a: nat,
    b: nat,
    terms: int,
    public: Seq<FieldElement>,
    i: int,
)
    requires
        holds_terms(t, config, a, b, terms),
        0 <= i < terms <= usize::MAX,
    ensures
        cell_state_at(t, public, config.advice, i)@ == CellValue::Known(fib(a, b, i as nat)),
{
    assert(stored(t.cells, cell_at(config, 0, i)) is Some);
}

/// A table of terms satisfies the recurrence gate on every row, and every
/// cell that its constraint reads has a value.
pub proof fn lemma_terms_satisfy(
    sys: SystemView,
    t: TableView,
    config: FibonacciConfig,
    a: nat,
    b: nat,
    terms: int,
    public: Seq<FieldElement>,
)
    requires
        sys.gates.len() == 1,
        sys.lookups.len() == 0,
        is_add_gate(sys.gates[0], config),
        holds_terms(t, config, a, b, terms),
        terms <= usize::MAX,
    ensures
        constraint_report(sys.gates, t, public, terms) == Seq::<FailureView>::empty(),
        lookup_report(sys.lookups, t, public, terms) == Seq::<FailureView>::empty(),
        first_incomplete_row(sys, t, public, terms) < 0,
{
    let gate = sys.gates[0];
    assert forall|row: int, g: int, c: int|
        0 <= row < terms && 0 <= g < sys.gates.len() && 0 <= c < sys.gates[g].constraints@.len()
        implies !#[trigger] constraint_violated(sys.gates[g], c, t, public, row) by {
        if enabled(t, gate.selector, row) {
            lemma_constraint_value(gate, t, config, a, b, terms, public, row);
        }
    }
    lemma_constraint_report_empty(sys.gates, t, public, terms);
    lemma_lookup_report_empty(sys.lookups, t, public, terms);
    assert forall|row: int| 0 <= row < terms implies #[trigger] row_answered(sys, t, public, row) by {
        if enabled(t, gate.selector, row) {
            lemma_constraint_value(gate, t, config, a, b, terms, public, row);
        }
    }
    lemma_rows_complete(sys, t, public, terms);
}

/// What the layout of a run resolves to: without error, to a table of ten
/// terms from the first two rows of the public input, with the two seeds
/// and the tenth term bound.
proof fn lemma_run_resolves(
    sys: SystemView,
    config: FibonacciConfig,
    start: LayoutView,
    layout: LayoutView,
)
    requires
        start == empty_layout(start.equality, start.public_input),
        start.public_input.len() >= 2,
        layout.wf(),
        terms_laid_out(start, layout, config, 10, 10, 8),
        layout.bindings == seeds_bound(start.bindings, config, 0).push(
            Binding { cell: cell_at(config, 0, 9), instance: config.instance, row: 2 },
        ),
        config.advice.kind == ColumnKind::Advice,
        sys.gates.len() == 1,
        sys.lookups.len() == 0,
        is_add_gate(sys.gates[0], config),
    ensures
        resolution_error(layout, sys) is None,
        holds_terms(
            resolved_table(layout),
            config,
            start.public_input[0]@,
            start.public_input[1]@,
            10,
        ),
        resolved_table(layout).bindings == seq![
            Binding { cell: cell_at(config, 0, 0), instance: config.instance, row: 0 },
            Binding { cell: cell_at(config, 0, 1), instance: config.instance, row: 1 },
            Binding { cell: cell_at(config, 0, 9), instance: config.instance, row: 2 },
        ],
{
    let t = resolved_table(layout);
    let a = start.public_input[0]@;
    let b = start.public_input[1]@;
    lemma_resolved_terms(start, layout, config, 10, 8);
    lemma_terms(start, layout, config, 10, 10, 8);
    assert forall|row: int| #[trigger] enabled(t, config.selector, row) implies 0 <= row < 8 by {
        assert(t.selectors.contains(Cell { column: config.selector, row: row as usize }));
    }
    assert(holds_terms(t, config, a, b, 10));
    lemma_terms_satisfy(sys, t, config, a, b, 10, start.public_input);
    assert(t.bindings =~= seq![
        Binding { cell: cell_at(config, 0, 0), instance: config.instance, row: 0 },
        Binding { cell: cell_at(config, 0, 1), instance: config.instance, row: 1 },
        Binding { cell: cell_at(config, 0, 9), instance: config.instance, row: 2 },
    ]);
}

/// What a run of the circuit comes to. On a public input without the two
/// seeds it ends in synthesis, on the first term that has no value. On
/// any other it succeeds, and verification against `check` reports the
/// bound cells that `check` does not match, and nothing else: the two
/// seeds against rows 0 and 1, and the tenth term of the recurrence
/// against row 2.
pub proof fn lemma_run(
    circuit: MyCircuit,
    public_input: Seq<FieldElement>,
    r: Result<ProverView, SynthesisError>,
    check: Seq<FieldElement>,
)
    requires
        run_outcome(circuit, public_input, r),
    ensures
        public_input.len() < 2 ==> r == Err::<ProverView, SynthesisError>(
            SynthesisError::UnassignedCell {
                column: Column { kind: ColumnKind::Advice, index: 0 },
                row: 2,
                rotation: 0,
            },
        ),
        public_input.len() >= 2 ==> r is Ok && report(r.unwrap().system, r.unwrap().table, check) == {
            let advice = Column { kind: ColumnKind::Advice, index: 0 };
            let instance = Column { kind: ColumnKind::Instance, index: 0 };
            let a = public_input[0]@;
            let b = public_input[1]@;
            mismatch(0, Cell { column: advice, row: 0 }, instance, 0, check, a) + mismatch(
                1,
                Cell { column: advice, row: 1 },
                instance,
                1,
                check,
                b,
            ) + mismatch(2, Cell { column: advice, row: 9 }, instance, 2, check, fib(a, b, 9))
        },
{
    let (sys, config, layout, filled) = choose|
        sys: SystemView,
        config: Result<FibonacciConfig, ConfigurationError>,
        layout: LayoutView,
        filled: Result<(), SynthesisError>,
    |
        MyCircuit::configured(empty_system(), sys, config) && #[trigger] run_ends(
            circuit,
            public_input,
            sys,
            config,
            layout,
            filled,
            r,
        );
    let columns = config.unwrap();
    let start = empty_layout(sys.equality, public_input);
    let advice = Column { kind: ColumnKind::Advice, index: 0 };
    let instance = Column { kind: ColumnKind::Instance, index: 0 };
    reveal_with_fuel(count_of_kind, 3);
    assert(columns.advice == advice);
    assert(columns.instance == instance);
    assert(columns.selector == Column { kind: ColumnKind::Selector, index: 0 });
    assert(cursor(start.regions) == 0);
    let enabled_advice = with_column(empty_system().equality, advice);
    assert(enabled_advice[0] == advice);
    assert(sys.equality[0] == advice && sys.equality[1] == instance);
    assert(binding_allowed(start, advice, instance));
    if public_input.len() >= 2 {
        let frozen = SystemView { frozen: true, ..sys };
        let t = resolved_table(layout);
        let a = public_input[0]@;
        let b = public_input[1]@;
        assert(sys.gates.last() == sys.gates[0]);
        lemma_run_resolves(frozen, columns, start, layout);
        lemma_terms_satisfy(frozen, t, columns, a, b, 10, check);
        assert(stored(t.cells, cell_at(columns, 0, 0)) is Some);
        assert(stored(t.cells, cell_at(columns, 0, 1)) is Some);
        assert(stored(t.cells, cell_at(columns, 0, 9)) is Some);
        reveal_with_fuel(fib, 2);
        lemma_three_bindings(
            t,
            check,
            Binding { cell: cell_at(columns, 0, 0), instance, row: 0 },
            Binding { cell: cell_at(columns, 0, 1), instance, row: 1 },
            Binding { cell: cell_at(columns, 0, 9), instance, row: 2 },
            a,
            b,
            fib(a, b, 9),
        );
    }
}

} // verus!
