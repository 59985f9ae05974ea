//! Synthesis: regions are requested one after another, cells are assigned
//! by local offset, selectors enabled, cells tied by copy constraints and
//! bound to the public input, and at the end the table is frozen.

use crate::column::{contains_cell, contains_column, Cell, Column, ColumnKind};
use crate::field::FieldElement;
use crate::layout::{
    assign_outcome, binding_allowed, binding_outcome, claim_row, claimed, copied, copy_outcome,
    cursor, empty_layout, enable_outcome, first_gap, lemma_claimed, lemma_first_gap_stable,
    lemma_merged, lemma_position, lemma_position_unique, lemma_region_added,
    lemma_region_below_cursor, lemma_table_loaded, lemma_with_slot, lemma_with_value, merged,
    placement, position, public_value, table_outcome, table_slots, with_selector, with_slot,
    with_value, AssignmentError, Binding, CellState, LayoutView, Region, Slot, SynthesisError,
};
use crate::resolution::{
    conflicting, first_unloaded, first_unresolved, first_value, group_state,
    lemma_first_unloaded_stable, lemma_first_unresolved_stable, lemma_first_value,
    resolution_error, resolved_cells, resolved_state, resolved_table,
};
use crate::system::{ConfigurationError, ConstraintSystem};
use crate::witness::{AssignedCell, WitnessTable};
use vstd::prelude::*;

verus! {

/// Moves every slot labelled `from` into the group labelled `into`.
fn relabel(slots: &mut Vec<Slot>, into: usize, from: usize)
    ensures
        final(slots)@ == merged(old(slots)@, into, from),
{
    let ghost before = slots@;
    let mut i: usize = 0;
    while i < slots.len()
        invariant
            0 <= i <= slots.len(),
            slots@.len() == before.len(),
            forall|j: int| 0 <= j < i ==> slots@[j] == merged(before, into, from)[j],
            forall|j: int| i <= j < slots.len() ==> slots@[j] == before[j],
        decreases slots.len() - i,
    {
        if slots[i].group == from {
            let slot = slots[i];
            slots[i] = Slot { cell: slot.cell, value: slot.value, group: into };
        }
        i += 1;
    }
    assert(slots@ =~= merged(before, into, from));
}

/// The state of synthesis.
pub struct Layouter {
    public_input: Vec<FieldElement>,
    equality: Vec<Column>,
    regions: Vec<Region>,
    slots: Vec<Slot>,
    selectors: Vec<Cell>,
    bindings: Vec<Binding>,
    tables: Vec<Column>,
}

/// A lookup table under construction: one fixed column of a given length,
/// filled cell by cell.
#[derive(Debug, PartialEq, Eq)]
pub struct Table {
    pub column: Column,
    pub cells: Vec<Option<FieldElement>>,
}

impl Table {
    /// A table of `len` rows in `column`, no row filled yet.
    pub fn new(column: Column, len: usize) -> (r: Table)
        ensures
            r.column == column,
            r.cells@.len() == len,
            forall|i: int| 0 <= i < len ==> r.cells@[i] is None,
    {
        let mut cells: Vec<Option<FieldElement>> = Vec::new();
        let mut i: usize = 0;
        while i < len
            invariant
                0 <= i <= len,
                cells@.len() == i,
                forall|j: int| 0 <= j < i ==> cells@[j] is None,
            decreases len - i,
        {
            cells.push(None);
            i += 1;
        }
        Table { column, cells }
    }

    /// Fills row `offset` with `value`. Refused where the table has no such
    /// row, or the row is filled already.
    pub fn assign_cell(&mut self, offset: usize, value: FieldElement) -> (r: Result<
        (),
        SynthesisError,
    >)
        ensures
            r == if offset >= old(self).cells@.len() {
                Err::<(), SynthesisError>(SynthesisError::Assignment(AssignmentError::RegionOverlap))
            } else if old(self).cells@[offset as int] is Some {
                Err(SynthesisError::Assignment(AssignmentError::CellAlreadyAssigned))
            } else {
                Ok(())
            },
            final(self).column == old(self).column,
            final(self).cells@ == if r is Ok {
                old(self).cells@.update(offset as int, Some(value))
            } else {
                old(self).cells@
            },
    {
        if offset >= self.cells.len() {
            return Err(SynthesisError::Assignment(AssignmentError::RegionOverlap));
        }
        if self.cells[offset].is_some() {
            return Err(SynthesisError::Assignment(AssignmentError::CellAlreadyAssigned));
        }
        self.cells[offset] = Some(value);
        Ok(())
    }

    /// The first row without a value, if there is one.
    pub fn gap(&self) -> (r: Option<usize>)
        ensures
            match r {
                Some(row) => first_gap(self.cells@, self.cells@.len() as int) == row,
                None => first_gap(self.cells@, self.cells@.len() as int) < 0,
            },
    {
        let n = self.cells.len();
        let mut i: usize = 0;
        while i < n
            invariant
                0 <= i <= n,
                n == self.cells@.len(),
                first_gap(self.cells@, i as int) < 0,
            decreases n - i,
        {
            if self.cells[i].is_none() {
                proof {
                    lemma_first_gap_stable(self.cells@, i + 1, n as int);
                }
                return Some(i);
            }
            i += 1;
        }
        None
    }
}

impl View for Layouter {
    type V = LayoutView;

    closed spec fn view(&self) -> LayoutView {
        LayoutView {
            public_input: self.public_input@,
            equality: self.equality@,
            regions: self.regions@,
            slots: self.slots@,
            selectors: self.selectors@,
            bindings: self.bindings@,
            tables: self.tables@,
        }
    }
}

impl Layouter {
    /// A layouter for a circuit of `system`, reading `public_input`.
    pub fn new(system: &ConstraintSystem, public_input: Vec<FieldElement>) -> (r: Layouter)
        ensures
            r@.wf(),
            r@ == empty_layout(system@.equality, public_input@),
    {
        let eligible = system.equality_columns();
        let mut equality: Vec<Column> = Vec::new();
        let mut i: usize = 0;
        while i < eligible.len()
            invariant
                0 <= i <= eligible.len(),
                equality@ == eligible@.take(i as int),
            decreases eligible.len() - i,
        {
            equality.push(eligible[i]);
            assert(eligible@.take(i + 1) == eligible@.take(i as int).push(eligible@[i as int]));
            i += 1;
        }
        assert(eligible@.take(eligible.len() as int) == eligible@);
        Layouter {
            public_input,
            equality,
            regions: Vec::new(),
            slots: Vec::new(),
            selectors: Vec::new(),
            bindings: Vec::new(),
            tables: Vec::new(),
        }
    }

    /// Requests a new region. It starts at the first row past all earlier
    /// regions and has no rows yet. Returns its index.
    pub fn region(&mut self, name: String) -> (r: usize)
        requires
            old(self)@.wf(),
        ensures
            final(self)@.wf(),
            r == old(self)@.regions.len(),
            final(self)@ == (LayoutView {
                regions: old(self)@.regions.push(
                    Region { name, start: cursor(old(self)@.regions) as usize, rows: 0 },
                ),
                ..old(self)@
            }),
    {
        let n = self.regions.len();
        let start = if n == 0 {
            0
        } else {
            self.regions[n - 1].start + self.regions[n - 1].rows
        };
        proof {
            lemma_region_added(self@, Region { name, start, rows: 0 });
        }
        self.regions.push(Region { name, start, rows: 0 });
        n
    }

    /// The first row past all regions.
    pub fn rows(&self) -> (r: usize)
        requires
            self@.wf(),
        ensures
            r == cursor(self@.regions),
    {
        let n = self.regions.len();
        if n == 0 {
            0
        } else {
            self.regions[n - 1].start + self.regions[n - 1].rows
        }
    }

    /// The public input that synthesis reads.
    pub fn public_input(&self) -> (r: &Vec<FieldElement>)
        ensures
            r@ == self@.public_input,
    {
        &self.public_input
    }

    /// The touched cells, in order of first use.
    pub fn slots(&self) -> (r: &Vec<Slot>)
        ensures
            r@ == self@.slots,
    {
        &self.slots
    }

    /// The selector cells that were enabled.
    pub fn selectors(&self) -> (r: &Vec<Cell>)
        ensures
            r@ == self@.selectors,
    {
        &self.selectors
    }

    /// The cells bound to the public input, in order of binding.
    pub fn bindings(&self) -> (r: &Vec<Binding>)
        ensures
            r@ == self@.bindings,
    {
        &self.bindings
    }

    /// The fixed columns loaded as lookup tables.
    pub fn tables(&self) -> (r: &Vec<Column>)
        ensures
            r@ == self@.tables,
    {
        &self.tables
    }

    /// The regions, in order of request.
    pub fn regions(&self) -> (r: &Vec<Region>)
        ensures
            r@ == self@.regions,
    {
        &self.regions
    }

    /// The slot index of `cell`, if it has a slot.
    fn find(&self, cell: Cell) -> (r: Option<usize>)
        ensures
            match r {
                Some(k) => k == position(self@.slots, cell) && k < self@.slots.len()
                    && self@.slots[k as int].cell == cell,
                None => position(self@.slots, cell) < 0,
            },
    {
        let mut i: usize = self.slots.len();
        assert(self.slots@.take(i as int) == self.slots@);
        while i > 0
            invariant
                0 <= i <= self.slots.len(),
                position(self.slots@, cell) == position(self.slots@.take(i as int), cell),
            decreases i,
        {
            i -= 1;
            assert(self.slots@.take(i + 1).drop_last() == self.slots@.take(i as int));
            if self.slots[i].cell == cell {
                return Some(i);
            }
        }
        None
    }

    /// The absolute row for `offset` of region `region`, where the region
    /// has it or can grow to it.
    fn claim(&self, region: usize, offset: usize) -> (r: Option<usize>)
        requires
            self@.wf(),
        ensures
            match r {
                Some(row) => claim_row(self@.regions, region as int, offset as int) == Some(
                    row as int,
                ),
                None => claim_row(self@.regions, region as int, offset as int) is None,
            },
    {
        let n = self.regions.len();
        if region >= n {
            return None;
        }
        let start = self.regions[region].start;
        if offset < self.regions[region].rows {
            proof {
                lemma_region_below_cursor(self@.regions, region as int);
            }
            return Some(start + offset);
        }
        if region == n - 1 && offset < usize::MAX - start {
            return Some(start + offset);
        }
        None
    }

    /// Grows region `region` to hold `offset`, which `claim` has granted.
    fn extend(&mut self, region: usize, offset: usize)
        requires
            old(self)@.wf(),
            claim_row(old(self)@.regions, region as int, offset as int) is Some,
        ensures
            final(self)@.wf(),
            final(self)@ == (LayoutView {
                regions: claimed(old(self)@.regions, region as int, offset as int),
                ..old(self)@
            }),
            claim_row(old(self)@.regions, region as int, offset as int).unwrap() < cursor(
                final(self)@.regions,
            ),
    {
        proof {
            lemma_claimed(self@, region as int, offset as int);
        }
        if offset >= self.regions[region].rows {
            let ghost before = self.regions@;
            self.regions[region].rows = offset + 1;
            assert(self.regions@ =~= claimed(before, region as int, offset as int));
        }
    }

    /// Gives the slot of `cell` the value `value`, making the slot where
    /// there is none.
    fn store(&mut self, cell: Cell, value: Option<FieldElement>)
        requires
            old(self)@.wf(),
            cell.column.kind == ColumnKind::Advice,
            cell.row < cursor(old(self)@.regions),
        ensures
            final(self)@.wf(),
            final(self)@ == (LayoutView {
                slots: with_value(old(self)@.slots, cell, value),
                ..old(self)@
            }),
    {
        let ghost before = self@;
        match self.find(cell) {
            Some(k) => {
                let group = self.slots[k].group;
                self.slots[k] = Slot { cell, value, group };
            },
            None => {
                let group = self.slots.len();
                self.slots.push(Slot { cell, value, group });
            },
        }
        proof {
            assert(self.slots@.len() == self.slots.len());
            assert(self.slots@ =~= with_value(before.slots, cell, value));
            lemma_with_value(before, cell, value);
        }
    }

    /// Assigns `value` to the cell of the advice column `column` at local
    /// offset `offset` of region `region`. An absent value is refused.
    pub fn assign_advice(
        &mut self,
        region: usize,
        column: Column,
        offset: usize,
        value: Option<FieldElement>,
    ) -> (r: Result<Cell, SynthesisError>)
        requires
            old(self)@.wf(),
        ensures
            final(self)@.wf(),
            r == assign_outcome(old(self)@, region as int, column, offset as int, value),
            final(self)@ == match r {
                Ok(cell) => LayoutView {
                    regions: claimed(old(self)@.regions, region as int, offset as int),
                    slots: with_value(old(self)@.slots, cell, value),
                    ..old(self)@
                },
                Err(_) => old(self)@,
            },
    {
        if !matches!(column.kind, ColumnKind::Advice) {
            return Err(SynthesisError::Configuration(ConfigurationError::WrongColumnKind));
        }
        let row = match self.claim(region, offset) {
            Some(row) => row,
            None => {
                return Err(SynthesisError::Assignment(AssignmentError::RegionOverlap));
            },
        };
        let cell = Cell { column, row };
        match self.find(cell) {
            Some(k) => {
                if self.slots[k].value.is_some() {
                    return Err(SynthesisError::Assignment(AssignmentError::CellAlreadyAssigned));
                }
            },
            None => {},
        }
        if value.is_none() {
            return Err(SynthesisError::UnassignedCell { column, row, rotation: 0 });
        }
        self.extend(region, offset);
        self.store(cell, value);
        Ok(cell)
    }

    /// Enables `selector` at local offset `offset` of region `region`.
    /// Enabling it there again changes nothing.
    pub fn enable_selector(&mut self, region: usize, selector: Column, offset: usize) -> (r: Result<
        (),
        SynthesisError,
    >)
        requires
            old(self)@.wf(),
        ensures
            final(self)@.wf(),
            match enable_outcome(old(self)@, region as int, selector, offset as int) {
                Ok(cell) => r is Ok && final(self)@ == (LayoutView {
                    regions: claimed(old(self)@.regions, region as int, offset as int),
                    selectors: with_selector(old(self)@.selectors, cell),
                    ..old(self)@
                }),
                Err(e) => r == Err::<(), SynthesisError>(e) && final(self)@ == old(self)@,
            },
    {
        if !matches!(selector.kind, ColumnKind::Selector) {
            return Err(SynthesisError::Configuration(ConfigurationError::WrongColumnKind));
        }
        let row = match self.claim(region, offset) {
            Some(row) => row,
            None => {
                return Err(SynthesisError::Assignment(AssignmentError::RegionOverlap));
            },
        };
        let cell = Cell { column: selector, row };
        self.extend(region, offset);
        if !contains_cell(&self.selectors, cell) {
            self.selectors.push(cell);
        }
        Ok(())
    }

    /// The slot index of `cell`; the slot is made where there is none.
    fn slot_of(&mut self, cell: Cell) -> (k: usize)
        requires
            old(self)@.wf(),
            cell.column.kind == ColumnKind::Advice,
            cell.row < cursor(old(self)@.regions),
        ensures
            final(self)@.wf(),
            final(self)@ == (LayoutView { slots: with_slot(old(self)@.slots, cell), ..old(self)@ }),
            k == position(final(self)@.slots, cell),
            0 <= k < final(self)@.slots.len(),
    {
        let ghost before = self@;
        let found = self.find(cell);
        let k = match found {
            Some(k) => k,
            None => {
                let k = self.slots.len();
                self.slots.push(Slot { cell, value: None, group: k });
                k
            },
        };
        proof {
            assert(self.slots@.len() == self.slots.len());
            assert(self.slots@ =~= with_slot(before.slots, cell));
            lemma_with_slot(before, cell);
            lemma_position_unique(self.slots@, cell, k as int);
        }
        k
    }

    /// Ties `a` and `b` by a copy constraint: from now on they are in one
    /// group of cells that must hold one value.
    pub fn copy(&mut self, a: Cell, b: Cell) -> (r: Result<(), SynthesisError>)
        requires
            old(self)@.wf(),
        ensures
            final(self)@.wf(),
            r == copy_outcome(old(self)@, a, b),
            final(self)@ == if r is Ok {
                LayoutView { slots: copied(old(self)@.slots, a, b), ..old(self)@ }
            } else {
                old(self)@
            },
    {
        if !matches!(a.column.kind, ColumnKind::Advice) || !matches!(
            b.column.kind,
            ColumnKind::Advice
        ) {
            return Err(SynthesisError::Configuration(ConfigurationError::WrongColumnKind));
        }
        if !contains_column(&self.equality, a.column) || !contains_column(&self.equality, b.column) {
            return Err(SynthesisError::Configuration(ConfigurationError::WrongColumnKind));
        }
        let rows = self.rows();
        if a.row >= rows || b.row >= rows {
            return Err(SynthesisError::Assignment(AssignmentError::RegionOverlap));
        }
        let ia = self.slot_of(a);
        let ghost with_a = self@;
        let ib = self.slot_of(b);
        let ghost both = self@;
        proof {
            lemma_with_slot(with_a, b);
            lemma_position(with_a.slots, a);
            lemma_position_unique(both.slots, a, ia as int);
        }
        let into = self.slots[ia].group;
        let from = self.slots[ib].group;
        relabel(&mut self.slots, into, from);
        proof {
            assert(self.slots@.len() == self.slots.len());
            lemma_merged(both, into, from);
        }
        Ok(())
    }

    /// What the assignments to the slots of group `group` come to.
    fn state_of_group(&self, group: usize) -> (r: CellState)
        ensures
            r == group_state(self@.slots, group),
    {
        let mut first: Option<FieldElement> = None;
        let mut conflict = false;
        let ghost mut witness: int = 0;
        let ghost mut clash: int = 0;
        let mut i: usize = 0;
        while i < self.slots.len()
            invariant
                0 <= i <= self.slots.len(),
                first == first_value(self.slots@, group, i as int),
                first is Some ==> 0 <= witness < i && self.slots@[witness].group == group
                    && self.slots@[witness].value == first,
                conflict ==> first is Some && 0 <= clash < i && self.slots@[clash].group == group
                    && self.slots@[clash].value is Some && self.slots@[clash].value != first,
                !conflict ==> forall|j: int|
                    0 <= j < i && (#[trigger] self.slots@[j]).group == group
                        && self.slots@[j].value is Some ==> self.slots@[j].value == first,
            decreases self.slots.len() - i,
        {
            if self.slots[i].group == group {
                match self.slots[i].value {
                    Some(v) => {
                        match first {
                            None => {
                                proof {
                                    lemma_first_value(self.slots@, group, i as int);
                                    witness = i as int;
                                }
                                first = Some(v);
                            },
                            Some(w) => {
                                proof {
                                    FieldElement::lemma_same_residue(v, w);
                                }
                                if !v.equals(&w) {
                                    conflict = true;
                                    proof {
                                        clash = i as int;
                                    }
                                }
                            },
                        }
                    },
                    None => {},
                }
            }
            i += 1;
        }
        if conflict {
            assert(conflicting(self.slots@, group)) by {
                assert(self.slots@[witness].group == group && self.slots@[clash].group == group);
            }
            CellState::Conflicted
        } else {
            assert(!conflicting(self.slots@, group));
            match first {
                Some(v) => CellState::Known(v),
                None => CellState::Unassigned,
            }
        }
    }

    /// What is known of the value of `cell`.
    pub fn cell_state(&self, cell: Cell) -> (r: CellState)
        ensures
            r == resolved_state(self@.slots, cell),
    {
        match self.find(cell) {
            Some(k) => {
                proof {
                    lemma_position(self@.slots, cell);
                }
                self.state_of_group(self.slots[k].group)
            },
            None => CellState::Unassigned,
        }
    }
    /// Binds `cell` to row `row` of the public input, as seen through the
    /// instance column `instance`: verification compares the two.
    pub fn constrain_instance(&mut self, cell: Cell, instance: Column, row: usize) -> (r: Result<
        (),
        SynthesisError,
    >)
        requires
            old(self)@.wf(),
        ensures
            final(self)@.wf(),
            r == binding_outcome(old(self)@, cell, instance),
            final(self)@ == if r is Ok {
                LayoutView {
                    slots: with_slot(old(self)@.slots, cell),
                    bindings: old(self)@.bindings.push(Binding { cell, instance, row }),
                    ..old(self)@
                }
            } else {
                old(self)@
            },
    {
        if !matches!(cell.column.kind, ColumnKind::Advice) || !matches!(
            instance.kind,
            ColumnKind::Instance
        ) {
            return Err(SynthesisError::Configuration(ConfigurationError::WrongColumnKind));
        }
        if !contains_column(&self.equality, cell.column) || !contains_column(
            &self.equality,
            instance,
        ) {
            return Err(SynthesisError::Configuration(ConfigurationError::WrongColumnKind));
        }
        if cell.row >= self.rows() {
            return Err(SynthesisError::Assignment(AssignmentError::RegionOverlap));
        }
        let _ = self.slot_of(cell);
        self.bindings.push(Binding { cell, instance, row });
        Ok(())
    }

    /// Copies row `public_row` of the public input into the cell of the
    /// advice column `target` at local offset `offset` of region `region`,
    /// and binds the cell to that row. Where the public input has no such
    /// row the cell is left without a value.
    pub fn assign_from_instance(
        &mut self,
        region: usize,
        instance: Column,
        public_row: usize,
        target: Column,
        offset: usize,
    ) -> (r: Result<Cell, SynthesisError>)
        requires
            old(self)@.wf(),
        ensures
            final(self)@.wf(),
            r == if binding_allowed(old(self)@, target, instance) {
                placement(old(self)@, region as int, target, offset as int)
            } else {
                Err(SynthesisError::Configuration(ConfigurationError::WrongColumnKind))
            },
            final(self)@ == match r {
                Ok(cell) => LayoutView {
                    regions: claimed(old(self)@.regions, region as int, offset as int),
                    slots: with_value(
                        old(self)@.slots,
                        cell,
                        public_value(old(self)@.public_input, public_row as int),
                    ),
                    bindings: old(self)@.bindings.push(
                        Binding { cell, instance, row: public_row },
                    ),
                    ..old(self)@
                },
                Err(_) => old(self)@,
            },
    {
        if !matches!(target.kind, ColumnKind::Advice) || !matches!(instance.kind, ColumnKind::Instance) {
            return Err(SynthesisError::Configuration(ConfigurationError::WrongColumnKind));
        }
        if !contains_column(&self.equality, target) || !contains_column(&self.equality, instance) {
            return Err(SynthesisError::Configuration(ConfigurationError::WrongColumnKind));
        }
        let row = match self.claim(region, offset) {
            Some(row) => row,
            None => {
                return Err(SynthesisError::Assignment(AssignmentError::RegionOverlap));
            },
        };
        let cell = Cell { column: target, row };
        match self.find(cell) {
            Some(k) => {
                if self.slots[k].value.is_some() {
                    return Err(SynthesisError::Assignment(AssignmentError::CellAlreadyAssigned));
                }
            },
            None => {},
        }
        let value = if public_row < self.public_input.len() {
            Some(self.public_input[public_row])
        } else {
            None
        };
        self.extend(region, offset);
        self.store(cell, value);
        self.bindings.push(Binding { cell, instance, row: public_row });
        Ok(cell)
    }

    /// Loads `table` into its fixed column, row by row from row zero. The
    /// table must be filled without a gap, and its column not loaded
    /// before.
    pub fn assign_table(&mut self, table: &Table) -> (r: Result<(), SynthesisError>)
        requires
            old(self)@.wf(),
        ensures
            final(self)@.wf(),
            r == table_outcome(old(self)@, table.column, table.cells@),
            final(self)@ == if r is Ok {
                LayoutView {
                    slots: table_slots(
                        old(self)@.slots,
                        table.column,
                        table.cells@,
                        table.cells@.len() as int,
                    ),
                    tables: old(self)@.tables.push(table.column),
                    ..old(self)@
                }
            } else {
                old(self)@
            },
    {
        let column = table.column;
        if !matches!(column.kind, ColumnKind::Fixed) {
            return Err(SynthesisError::Configuration(ConfigurationError::WrongColumnKind));
        }
        if contains_column(&self.tables, column) {
            return Err(SynthesisError::Assignment(AssignmentError::CellAlreadyAssigned));
        }
        let n = table.cells.len();
        match table.gap() {
            Some(row) => {
                return Err(SynthesisError::IncompleteTable { column, row });
            },
            None => {},
        }
        let ghost before = self@;
        self.tables.push(column);
        let mut i: usize = 0;
        while i < n
            invariant
                0 <= i <= n,
                n == table.cells@.len(),
                column == table.column,
                self.slots@ == table_slots(before.slots, column, table.cells@, i as int),
                self.tables@ == before.tables.push(column),
                self.public_input@ == before.public_input,
                self.equality@ == before.equality,
                self.regions@ == before.regions,
                self.selectors@ == before.selectors,
                self.bindings@ == before.bindings,
            decreases n - i,
        {
            let group = self.slots.len();
            self.slots.push(Slot { cell: Cell { column, row: i }, value: table.cells[i], group });
            assert(self.slots@ =~= table_slots(before.slots, column, table.cells@, i + 1));
            i += 1;
        }
        proof {
            assert(self.slots@.len() == self.slots.len());
            lemma_table_loaded(before, column, table.cells@);
        }
        Ok(())
    }

    /// The cells with the values of their groups, or the first slot whose
    /// group does not come to one value.
    fn resolve(&self) -> (r: Result<Vec<AssignedCell>, usize>)
        ensures
            match r {
                Ok(cells) => first_unresolved(self@.slots, self@.slots.len() as int) < 0 && cells@
                    == resolved_cells(self@.slots, self@.slots.len() as int),
                Err(bad) => first_unresolved(self@.slots, self@.slots.len() as int) == bad && bad
                    < self@.slots.len() && !(group_state(
                    self@.slots,
                    self@.slots[bad as int].group,
                ) is Known),
            },
    {
        let mut cells: Vec<AssignedCell> = Vec::new();
        let mut i: usize = 0;
        while i < self.slots.len()
            invariant
                0 <= i <= self.slots.len(),
                first_unresolved(self.slots@, i as int) < 0,
                cells@ == resolved_cells(self.slots@, i as int),
            decreases self.slots.len() - i,
        {
            match self.state_of_group(self.slots[i].group) {
                CellState::Known(value) => {
                    cells.push(AssignedCell { cell: self.slots[i].cell, value });
                    assert(cells@ =~= resolved_cells(self.slots@, i + 1));
                },
                _ => {
                    proof {
                        lemma_first_unresolved_stable(self.slots@, i + 1, self.slots@.len() as int);
                    }
                    return Err(i);
                },
            }
            i += 1;
        }
        Ok(cells)
    }

    /// The first lookup of `system` whose table column was not loaded.
    fn unloaded_table(&self, system: &ConstraintSystem) -> (r: Option<usize>)
        ensures
            match r {
                Some(k) => first_unloaded(
                    system@.lookups,
                    self@.tables,
                    system@.lookups.len() as int,
                ) == k && k < system@.lookups.len(),
                None => first_unloaded(system@.lookups, self@.tables, system@.lookups.len() as int)
                    < 0,
            },
    {
        let lookups = system.lookups();
        let mut k: usize = 0;
        while k < lookups.len()
            invariant
                0 <= k <= lookups.len(),
                lookups@ == system@.lookups,
                first_unloaded(lookups@, self.tables@, k as int) < 0,
            decreases lookups.len() - k,
        {
            if !contains_column(&self.tables, lookups[k].table) {
                proof {
                    lemma_first_unloaded_stable(
                        lookups@,
                        self.tables@,
                        k + 1,
                        lookups@.len() as int,
                    );
                }
                return Some(k);
            }
            k += 1;
        }
        None
    }

    /// Ends synthesis: every copy group collapses to its one value and the
    /// table is frozen. Fails on the first touched cell whose group holds
    /// two values or none, on a lookup whose table was never loaded, and on
    /// the first cell that an active gate or lookup of `system` reads and
    /// that has no value.
    pub fn finalize(self, system: &ConstraintSystem) -> (r: Result<WitnessTable, SynthesisError>)
        requires
            self@.wf(),
        ensures
            match r {
                Ok(table) => resolution_error(self@, system@) is None && table@ == resolved_table(
                    self@,
                ),
                Err(e) => resolution_error(self@, system@) == Some(e),
            },
    {
        let cells = match self.resolve() {
            Ok(cells) => cells,
            Err(bad) => {
                let slot = self.slots[bad];
                return match self.state_of_group(slot.group) {
                    CellState::Conflicted => Err(
                        SynthesisError::ConflictingAssignment { group: slot.cell },
                    ),
                    _ => Err(
                        SynthesisError::UnassignedCell {
                            column: slot.cell.column,
                            row: slot.cell.row,
                            rotation: 0,
                        },
                    ),
                };
            },
        };
        match self.unloaded_table(system) {
            Some(k) => {
                return Err(
                    SynthesisError::IncompleteTable { column: system.lookups()[k].table, row: 0 },
                );
            },
            None => {},
        }
        let n = self.regions.len();
        let rows = if n == 0 {
            0
        } else {
            self.regions[n - 1].start + self.regions[n - 1].rows
        };
        let public_input = self.public_input;
        let table = WitnessTable::new(rows, cells, self.selectors, self.regions, self.bindings);
        match table.missing_reference(system, &public_input) {
            Some((row, q)) => Err(
                SynthesisError::UnassignedCell { column: q.column, row, rotation: q.rotation },
            ),
            None => Ok(table),
        }
    }
}

} // verus!
