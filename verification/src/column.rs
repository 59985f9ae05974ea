//! Columns of the constraint table and the cells in them.

use vstd::prelude::*;

verus! {

/// What a column holds.
#[derive(Clone, Copy, Debug, PartialEq, Eq, Structural)]
pub enum ColumnKind {
    /// Private witness values, one per row.
    Advice,
    /// Public values, one per row.
    Instance,
    /// Constants fixed at setup; lookup tables live here.
    Fixed,
    /// A switch per row, turned on only by an explicit enable.
    Selector,
}

/// A column: its kind and its index among the columns of that kind.
#[derive(Clone, Copy, Debug, PartialEq, Eq, Structural)]
pub struct Column {
    pub kind: ColumnKind,
    pub index: usize,
}

/// A cell by absolute coordinates.
#[derive(Clone, Copy, Debug, PartialEq, Eq, Structural)]
pub struct Cell {
    pub column: Column,
    pub row: usize,
}

/// A column read at an offset relative to the row under evaluation.
#[derive(Clone, Copy, Debug, PartialEq, Eq, Structural)]
pub struct Query {
    pub column: Column,
    pub rotation: i32,
}

impl Column {
    /// Whether the column may take part in copy constraints at all.
    pub open spec fn equality_capable(&self) -> bool {
        self.kind == ColumnKind::Advice || self.kind == ColumnKind::Instance
    }
}

/// Whether `column` occurs in `list`.
pub fn contains_column(list: &Vec<Column>, column: Column) -> (r: bool)
    ensures
        r == list@.contains(column),
{
    let mut i: usize = 0;
    while i < list.len()
        invariant
            0 <= i <= list.len(),
            forall|j: int| 0 <= j < i ==> list@[j] != column,
        decreases list.len() - i,
    {
        if list[i] == column {
            return true;
        }
        i += 1;
    }
    false
}

/// Whether `cell` occurs in `list`.
pub fn contains_cell(list: &Vec<Cell>, cell: Cell) -> (r: bool)
    ensures
        r == list@.contains(cell),
{
    let mut i: usize = 0;
    while i < list.len()
        invariant
            0 <= i <= list.len(),
            forall|j: int| 0 <= j < i ==> list@[j] != cell,
        decreases list.len() - i,
    {
        if list[i] == cell {
            return true;
        }
        i += 1;
    }
    false
}

} // verus!
