//! A lookup table of the values `0..RANGE`.

use crate::column::{Cell, Column, ColumnKind};
use crate::field::{element, FieldElement};
use crate::layout::{first_gap, table_slots, AssignmentError, LayoutView, SynthesisError};
use crate::layouter::{Layouter, Table};
use crate::system::{count_of_kind, ConfigurationError, ConstraintSystem, SystemView};
use crate::verification::table_holds;
use crate::witness::AssignedCell;
use vstd::prelude::*;

verus! {

/// A fixed column that holds the values `0..RANGE`, one per row.
#[derive(Clone, Copy, Debug, PartialEq, Eq)]
pub struct RangeCheckTable<const RANGE: usize> {
    pub value: Column,
}

/// The rows of the table: row `i` holds `i`.
pub open spec fn range_cells(range: nat) -> Seq<Option<FieldElement>> {
    Seq::new(range, |i: int| Some(element(i as nat)))
}

/// A table of the values of a range has no gap.
pub proof fn lemma_range_cells_complete(range: nat, n: int)
    requires
        0 <= n <= range,
    ensures
        first_gap(range_cells(range), n) < 0,
    decreases n,
{
    if n > 0 {
        lemma_range_cells_complete(range, n - 1);
    }
}

/// Whether `cells` has row `row` of `column`.
pub open spec fn has_row(cells: Seq<AssignedCell>, column: Column, row: nat) -> bool {
    exists|k: int|
        0 <= k < cells.len() && (#[trigger] cells[k]).cell == (Cell { column, row: row as usize })
}

/// Whether the cells of `column` in `cells` are the rows `0..range`, row
/// `i` holding `i`.
pub open spec fn holds_range(cells: Seq<AssignedCell>, column: Column, range: nat) -> bool {
    &&& forall|k: int|
        0 <= k < cells.len() && (#[trigger] cells[k]).cell.column == column ==> cells[k].cell.row
            < range && cells[k].value@ == cells[k].cell.row
    &&& forall|i: nat| i < range ==> #[trigger] has_row(cells, column, i)
}

/// A value is found in a column that holds the range `0..range` exactly
/// when it is below `range`.
pub proof fn lemma_membership(cells: Seq<AssignedCell>, column: Column, range: nat, v: nat)
    requires
        holds_range(cells, column, range),
        range <= usize::MAX,
    ensures
        table_holds(cells, column, v) <==> v < range,
{
    if v < range {
        assert(has_row(cells, column, v));
        let k = choose|k: int|
            0 <= k < cells.len() && (#[trigger] cells[k]).cell == (Cell {
                column,
                row: v as usize,
            });
        assert(cells[k].cell.column == column && cells[k].value@ == v);
    }
}

impl<const RANGE: usize> RangeCheckTable<RANGE> {
    /// Allocates the fixed column of the table.
    pub fn configure(meta: &mut ConstraintSystem) -> (r: Result<Self, ConfigurationError>)
        ensures
            old(meta)@.frozen ==> r == Err::<Self, ConfigurationError>(ConfigurationError::Frozen)
                && final(meta)@ == old(meta)@,
            !old(meta)@.frozen ==> r is Ok && r.unwrap().value == (Column {
                kind: ColumnKind::Fixed,
                index: count_of_kind(
                    old(meta)@.columns,
                    ColumnKind::Fixed,
                    old(meta)@.columns.len(),
                ) as usize,
            }) && final(meta)@ == (SystemView {
                columns: old(meta)@.columns.push(r.unwrap().value),
                ..old(meta)@
            }),
    {
        match meta.allocate_column(ColumnKind::Fixed) {
            Ok(value) => Ok(RangeCheckTable { value }),
            Err(e) => Err(e),
        }
    }

    /// Loads the table: row `i` of the column takes the value `i`, for
    /// every `i` below `RANGE`. Refused where the column is not a fixed
    /// column, or was loaded before.
    pub fn load(&self, layouter: &mut Layouter) -> (r: Result<(), SynthesisError>)
        requires
            old(layouter)@.wf(),
        ensures
            final(layouter)@.wf(),
            r == if self.value.kind != ColumnKind::Fixed {
                Err::<(), SynthesisError>(
                    SynthesisError::Configuration(ConfigurationError::WrongColumnKind),
                )
            } else if old(layouter)@.tables.contains(self.value) {
                Err(SynthesisError::Assignment(AssignmentError::CellAlreadyAssigned))
            } else {
                Ok(())
            },
            final(layouter)@ == if r is Ok {
                LayoutView {
                    slots: table_slots(
                        old(layouter)@.slots,
                        self.value,
                        range_cells(RANGE as nat),
                        RANGE as int,
                    ),
                    tables: old(layouter)@.tables.push(self.value),
                    ..old(layouter)@
                }
            } else {
                old(layouter)@
            },
    {
        let mut table = Table::new(self.value, RANGE);
        let mut i: usize = 0;
        while i < RANGE
            invariant
                0 <= i <= RANGE,
                table.column == self.value,
                table.cells@.len() == RANGE,
                forall|j: int| 0 <= j < i ==> table.cells@[j] == Some(element(j as nat)),
                forall|j: int| i <= j < RANGE ==> table.cells@[j] is None,
            decreases RANGE - i,
        {
            let filled = table.assign_cell(i, FieldElement::from_u64(i as u64));
            assert(filled is Ok);
            i += 1;
        }
        proof {
            assert(table.cells@ =~= range_cells(RANGE as nat));
            lemma_range_cells_complete(RANGE as nat, RANGE as int);
        }
        layouter.assign_table(&table)
    }
}

} // verus!
