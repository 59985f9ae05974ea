//! The state of synthesis as a value: regions placed one after another,
//! the cells that were touched, and the copy groups they belong to.
//!
//! Touched cells live in one arena, in order of first use. Copy groups are
//! a union-find in its plainest form: every slot carries the label of its
//! group, a new slot is a group of its own, and tying two cells relabels
//! the group of the second into the group of the first. Regions store
//! local offsets only: `start + offset` is the one step from the local to
//! the absolute row.

use crate::column::{Cell, Column, ColumnKind};
use crate::field::{formatted, FieldElement};
use crate::system::ConfigurationError;
use vstd::prelude::*;
use vstd::string::StringExecFns;

verus! {

/// A named block of consecutive rows.
#[derive(Debug, PartialEq, Eq)]
pub struct Region {
    pub name: String,
    /// The absolute row of local offset zero.
    pub start: usize,
    /// How many rows the region has claimed.
    pub rows: usize,
}

/// A cell that synthesis has touched: the value assigned to it directly, if
/// any, and the label of the copy group it belongs to.
#[derive(Clone, Copy, Debug, PartialEq, Eq)]
pub struct Slot {
    pub cell: Cell,
    pub value: Option<FieldElement>,
    pub group: usize,
}

/// A cell bound to a row of the public input.
#[derive(Clone, Copy, Debug, PartialEq, Eq, Structural)]
pub struct Binding {
    pub cell: Cell,
    pub instance: Column,
    pub row: usize,
}

/// What is known of the value of a cell or of a copy group.
#[derive(Clone, Copy, Debug, PartialEq, Eq)]
pub enum CellState {
    /// Nothing was assigned.
    Unassigned,
    /// One value was assigned.
    Known(FieldElement),
    /// Two different values were assigned.
    Conflicted,
}

/// How a cell state is written: a known value as the value is written,
/// the other two by name.
pub open spec fn state_formatted(state: CellState) -> Seq<char> {
    match state {
        CellState::Unassigned => "unassigned"@,
        CellState::Known(v) => formatted(v@),
        CellState::Conflicted => "conflicted"@,
    }
}

impl CellState {
    /// Writes the state.
    pub fn format(&self) -> (r: String)
        ensures
            r@ == state_formatted(*self),
    {
        match self {
            CellState::Unassigned => String::from_str("unassigned"),
            CellState::Known(v) => v.format(),
            CellState::Conflicted => String::from_str("conflicted"),
        }
    }
}

/// Why an assignment was refused.
#[derive(Clone, Copy, Debug, PartialEq, Eq, Structural)]
pub enum AssignmentError {
    /// The cell already holds a directly assigned value.
    CellAlreadyAssigned,
    /// The row lies outside the region and cannot be claimed for it: the
    /// region is unknown, or it is followed by another region, or the row
    /// does not fit the table. For a cell given by its absolute row: no
    /// region has claimed the row.
    RegionOverlap,
}

/// A structural error of synthesis. Each one ends synthesis at once.
#[derive(Clone, Copy, Debug, PartialEq, Eq, Structural)]
pub enum SynthesisError {
    /// A column was used against its kind or its configuration.
    Configuration(ConfigurationError),
    /// An assignment was refused.
    Assignment(AssignmentError),
    /// The cell of `column` at `row + rotation` is needed and no value
    /// reaches it.
    UnassignedCell { column: Column, row: usize, rotation: i32 },
    /// Two cells of one copy group were assigned different values. The
    /// group is named by its first cell in order of first use.
    ConflictingAssignment { group: Cell },
    /// Row `row` of the lookup table in `column` was left without a value.
    IncompleteTable { column: Column, row: usize },
}

/// What a layouter holds.
pub struct LayoutView {
    /// The public input that synthesis reads.
    pub public_input: Seq<FieldElement>,
    /// The columns enabled for copy constraints.
    pub equality: Seq<Column>,
    /// The regions, in order of request.
    pub regions: Seq<Region>,
    /// The touched cells, in order of first use.
    pub slots: Seq<Slot>,
    /// The selector cells that were enabled, each once.
    pub selectors: Seq<Cell>,
    /// The cells bound to the public input, in order of binding.
    pub bindings: Seq<Binding>,
    /// The fixed columns loaded as lookup tables.
    pub tables: Seq<Column>,
}

/// The layout with nothing placed, for a system of the columns `equality`
/// enabled for equality and the public input `public_input`.
pub open spec fn empty_layout(
    equality: Seq<Column>,
    public_input: Seq<FieldElement>,
) -> LayoutView {
    LayoutView {
        public_input,
        equality,
        regions: Seq::empty(),
        slots: Seq::empty(),
        selectors: Seq::empty(),
        bindings: Seq::empty(),
        tables: Seq::empty(),
    }
}

/// The index of the slot of `cell`, or `-1` where no slot has it.
pub open spec fn position(slots: Seq<Slot>, cell: Cell) -> int
    decreases slots.len(),
{
    if slots.len() == 0 {
        -1
    } else if slots.last().cell == cell {
        slots.len() - 1
    } else {
        position(slots.drop_last(), cell)
    }
}

/// The first row past all regions.
pub open spec fn cursor(regions: Seq<Region>) -> int {
    if regions.len() == 0 {
        0
    } else {
        regions.last().start + regions.last().rows
    }
}

/// Regions lie one after another from row zero, without gap or overlap.
pub open spec fn regions_sequential(regions: Seq<Region>) -> bool {
    &&& regions.len() > 0 ==> regions[0].start == 0
    &&& forall|i: int|
        0 <= i < regions.len() - 1 ==> (#[trigger] regions[i]).start + regions[i].rows
            == regions[i + 1].start
    &&& cursor(regions) <= usize::MAX
}

/// The rows of the first `n` regions, added up.
pub open spec fn total_rows(regions: Seq<Region>, n: int) -> int
    decreases n,
{
    if n <= 0 {
        0
    } else {
        total_rows(regions, n - 1) + regions[n - 1].rows
    }
}

/// The absolute row that `offset` of region `region` stands for, where the
/// region has it or, being the last one, can grow to it.
pub open spec fn claim_row(regions: Seq<Region>, region: int, offset: int) -> Option<int> {
    if 0 <= region < regions.len() && 0 <= offset && (offset < regions[region].rows || (region
        == regions.len() - 1 && regions[region].start + offset < usize::MAX)) {
        Some(regions[region].start + offset)
    } else {
        None
    }
}

/// The regions after `offset` of region `region` was claimed.
pub open spec fn claimed(regions: Seq<Region>, region: int, offset: int) -> Seq<Region> {
    if claim_row(regions, region, offset) is Some && offset >= regions[region].rows {
        regions.update(
            region,
            Region {
                name: regions[region].name,
                start: regions[region].start,
                rows: (offset + 1) as usize,
            },
        )
    } else {
        regions
    }
}

/// The slots with a slot for `cell` among them: a new one takes a fresh
/// group label and no value.
pub open spec fn with_slot(slots: Seq<Slot>, cell: Cell) -> Seq<Slot> {
    if position(slots, cell) >= 0 {
        slots
    } else {
        slots.push(Slot { cell, value: None, group: slots.len() as usize })
    }
}

/// The slots after `value` was assigned to `cell`.
pub open spec fn with_value(
    slots: Seq<Slot>,
    cell: Cell,
    value: Option<FieldElement>,
) -> Seq<Slot> {
    let p = position(slots, cell);
    if p >= 0 {
        slots.update(p, Slot { cell, value, group: slots[p].group })
    } else {
        slots.push(Slot { cell, value, group: slots.len() as usize })
    }
}

/// The slots after the group labelled `from` was merged into the group
/// labelled `into`.
pub open spec fn merged(slots: Seq<Slot>, into: usize, from: usize) -> Seq<Slot> {
    Seq::new(
        slots.len(),
        |i: int|
            if slots[i].group == from {
                Slot { cell: slots[i].cell, value: slots[i].value, group: into }
            } else {
                slots[i]
            },
    )
}

/// The slots after `a` and `b` were tied: both have a slot, and the group
/// of `b` has joined the group of `a`.
pub open spec fn copied(slots: Seq<Slot>, a: Cell, b: Cell) -> Seq<Slot> {
    let both = with_slot(with_slot(slots, a), b);
    merged(both, both[position(both, a)].group, both[position(both, b)].group)
}

/// Whether `a` and `b` have slots in one copy group.
pub open spec fn linked(slots: Seq<Slot>, a: Cell, b: Cell) -> bool {
    &&& position(slots, a) >= 0
    &&& position(slots, b) >= 0
    &&& slots[position(slots, a)].group == slots[position(slots, b)].group
}

/// The enabled selector cells with `cell` among them: added at the end
/// where it was missing.
pub open spec fn with_selector(selectors: Seq<Cell>, cell: Cell) -> Seq<Cell> {
    if selectors.contains(cell) {
        selectors
    } else {
        selectors.push(cell)
    }
}

/// Whether `after` is `before` with one more region, named `name`, of one
/// row, on which `selector` is enabled; the slots aside.
pub open spec fn row_added(
    before: LayoutView,
    after: LayoutView,
    name: Seq<char>,
    selector: Column,
) -> bool {
    let row = cursor(before.regions) as usize;
    let enabled = Cell { column: selector, row };
    &&& after.regions.len() == before.regions.len() + 1
    &&& after.regions.drop_last() == before.regions
    &&& after.regions.last().name@ == name
    &&& after.regions.last().start == row
    &&& after.regions.last().rows == 1
    &&& after.selectors == with_selector(before.selectors, enabled)
    &&& after.public_input == before.public_input
    &&& after.equality == before.equality
    &&& after.bindings == before.bindings
    &&& after.tables == before.tables
}

/// The value assigned directly to `cell`, if one was.
pub open spec fn assigned(slots: Seq<Slot>, cell: Cell) -> Option<FieldElement> {
    let p = position(slots, cell);
    if p >= 0 {
        slots[p].value
    } else {
        None
    }
}

/// Whether `cell` was assigned the residue `v`.
pub open spec fn holds(slots: Seq<Slot>, cell: Cell, v: nat) -> bool {
    assigned(slots, cell) is Some && assigned(slots, cell).unwrap()@ == v
}

/// Whether synthesis has touched `cell`: given it a value, tied it, or
/// bound it.
pub open spec fn touched(slots: Seq<Slot>, cell: Cell) -> bool {
    position(slots, cell) >= 0
}

/// Whether no cell has two slots.
pub open spec fn distinct_cells(slots: Seq<Slot>) -> bool {
    forall|i: int, j: int|
        0 <= i < j < slots.len() ==> (#[trigger] slots[i]).cell != (#[trigger] slots[j]).cell
}

/// Whether a touched cell is where it may be: an advice cell on a row of a
/// region, or a cell of a loaded table.
pub open spec fn slot_placed(cell: Cell, regions: Seq<Region>, tables: Seq<Column>) -> bool {
    (cell.column.kind == ColumnKind::Advice && cell.row < cursor(regions)) || (cell.column.kind
        == ColumnKind::Fixed && tables.contains(cell.column))
}

/// The advice cell at `offset` of `column` in region `region`, where a
/// value can be placed there, or the reason why none can.
pub open spec fn placement(layout: LayoutView, region: int, column: Column, offset: int) -> Result<
    Cell,
    SynthesisError,
> {
    if column.kind != ColumnKind::Advice {
        Err(SynthesisError::Configuration(ConfigurationError::WrongColumnKind))
    } else {
        match claim_row(layout.regions, region, offset) {
            None => Err(SynthesisError::Assignment(AssignmentError::RegionOverlap)),
            Some(row) => {
                let cell = Cell { column, row: row as usize };
                let p = position(layout.slots, cell);
                if p >= 0 && layout.slots[p].value is Some {
                    Err(SynthesisError::Assignment(AssignmentError::CellAlreadyAssigned))
                } else {
                    Ok(cell)
                }
            },
        }
    }
}

/// What assigning `value` to `offset` of `column` in region `region` comes
/// to: the cell, or the reason why it is refused. An absent value is
/// refused as a cell left unassigned.
pub open spec fn assign_outcome(
    layout: LayoutView,
    region: int,
    column: Column,
    offset: int,
    value: Option<FieldElement>,
) -> Result<Cell, SynthesisError> {
    match placement(layout, region, column, offset) {
        Ok(cell) => if value is None {
            Err(SynthesisError::UnassignedCell { column, row: cell.row, rotation: 0 })
        } else {
            Ok(cell)
        },
        Err(e) => Err(e),
    }
}

/// What enabling `selector` at `offset` of region `region` comes to: the
/// selector cell, or the reason why it is refused.
pub open spec fn enable_outcome(
    layout: LayoutView,
    region: int,
    selector: Column,
    offset: int,
) -> Result<
    Cell,
    SynthesisError,
> {
    if selector.kind != ColumnKind::Selector {
        Err(SynthesisError::Configuration(ConfigurationError::WrongColumnKind))
    } else {
        match claim_row(layout.regions, region, offset) {
            None => Err(SynthesisError::Assignment(AssignmentError::RegionOverlap)),
            Some(row) => Ok(Cell { column: selector, row: row as usize }),
        }
    }
}

/// What tying `a` and `b` by a copy constraint comes to. Both must be
/// advice cells, in columns enabled for equality, on rows of regions.
pub open spec fn copy_outcome(layout: LayoutView, a: Cell, b: Cell) -> Result<(), SynthesisError> {
    if a.column.kind != ColumnKind::Advice || b.column.kind != ColumnKind::Advice
        || !layout.eligible(a.column) || !layout.eligible(b.column) {
        Err(SynthesisError::Configuration(ConfigurationError::WrongColumnKind))
    } else if a.row >= cursor(layout.regions) || b.row >= cursor(layout.regions) {
        Err(SynthesisError::Assignment(AssignmentError::RegionOverlap))
    } else {
        Ok(())
    }
}

/// Whether a cell of `column` may be bound to the instance column
/// `instance`: an advice and an instance column, both enabled for equality.
pub open spec fn binding_allowed(layout: LayoutView, column: Column, instance: Column) -> bool {
    &&& column.kind == ColumnKind::Advice
    &&& instance.kind == ColumnKind::Instance
    &&& layout.eligible(column)
    &&& layout.eligible(instance)
}

/// What binding `cell` to the public input through `instance` comes to.
/// The cell must be an advice cell on a row of a region, and both columns
/// enabled for equality.
pub open spec fn binding_outcome(layout: LayoutView, cell: Cell, instance: Column) -> Result<
    (),
    SynthesisError,
> {
    if !binding_allowed(layout, cell.column, instance) {
        Err(SynthesisError::Configuration(ConfigurationError::WrongColumnKind))
    } else if cell.row >= cursor(layout.regions) {
        Err(SynthesisError::Assignment(AssignmentError::RegionOverlap))
    } else {
        Ok(())
    }
}

/// Row `row` of the public input, where it has that row.
pub open spec fn public_value(public_input: Seq<FieldElement>, row: int) -> Option<FieldElement> {
    if 0 <= row < public_input.len() {
        Some(public_input[row])
    } else {
        None
    }
}

/// The first of the first `n` rows of a table that has no value, or `-1`.
pub open spec fn first_gap(cells: Seq<Option<FieldElement>>, n: int) -> int
    decreases n,
{
    if n <= 0 {
        -1
    } else {
        let earlier = first_gap(cells, n - 1);
        if earlier >= 0 {
            earlier
        } else if n <= cells.len() && cells[n - 1] is None {
            n - 1
        } else {
            -1
        }
    }
}

/// What loading a table comes to.
pub open spec fn table_outcome(
    layout: LayoutView,
    column: Column,
    cells: Seq<Option<FieldElement>>,
) -> Result<
    (),
    SynthesisError,
> {
    if column.kind != ColumnKind::Fixed {
        Err(SynthesisError::Configuration(ConfigurationError::WrongColumnKind))
    } else if layout.tables.contains(column) {
        Err(SynthesisError::Assignment(AssignmentError::CellAlreadyAssigned))
    } else if first_gap(cells, cells.len() as int) >= 0 {
        Err(
            SynthesisError::IncompleteTable {
                column,
                row: first_gap(cells, cells.len() as int) as usize,
            },
        )
    } else {
        Ok(())
    }
}

/// The slots after the first `n` rows of a table were loaded: each row is a
/// cell of its own group.
pub open spec fn table_slots(
    slots: Seq<Slot>,
    column: Column,
    cells: Seq<Option<FieldElement>>,
    n: int,
) -> Seq<
    Slot,
> {
    slots + Seq::new(
        n as nat,
        |i: int|
            Slot {
                cell: Cell { column, row: i as usize },
                value: cells[i],
                group: (slots.len() + i) as usize,
            },
    )
}

impl LayoutView {
    /// The invariant of a layouter: regions lie one after another, no cell
    /// has two slots, every group label is the index of a slot, and every
    /// touched cell lies in a region or in a loaded table.
    pub open spec fn wf(self) -> bool {
        &&& regions_sequential(self.regions)
        &&& self.slots.len() <= usize::MAX
        &&& forall|i: int, j: int|
            0 <= i < j < self.slots.len() ==> (#[trigger] self.slots[i]).cell != (
            #[trigger] self.slots[j]).cell
        &&& forall|i: int| 0 <= i < self.slots.len() ==> (#[trigger] self.slots[i]).group < self.slots.len()
        &&& forall|i: int|
            0 <= i < self.slots.len() ==> slot_placed(
                (#[trigger] self.slots[i]).cell,
                self.regions,
                self.tables,
            )
    }

    /// Whether `column` may take part in copy constraints.
    pub open spec fn eligible(self, column: Column) -> bool {
        self.equality.contains(column)
    }
}

/// `position` finds the slot of `cell` where there is one, and only there.
pub proof fn lemma_position(slots: Seq<Slot>, cell: Cell)
    ensures
        -1 <= position(slots, cell) < slots.len(),
        position(slots, cell) >= 0 ==> slots[position(slots, cell)].cell == cell,
        position(slots, cell) < 0 ==> forall|i: int| 0 <= i < slots.len() ==> slots[i].cell != cell,
        forall|i: int| position(slots, cell) < i < slots.len() ==> slots[i].cell != cell,
    decreases slots.len(),
{
    if slots.len() > 0 && slots.last().cell != cell {
        lemma_position(slots.drop_last(), cell);
        assert forall|i: int| position(slots, cell) < i < slots.len() implies slots[i].cell
            != cell by {
            if i < slots.len() - 1 {
                assert(slots.drop_last()[i] == slots[i]);
            }
        }
        if position(slots, cell) < 0 {
            assert forall|i: int| 0 <= i < slots.len() implies slots[i].cell != cell by {
                if i < slots.len() - 1 {
                    assert(slots.drop_last()[i] == slots[i]);
                }
            }
        }
    }
}

/// Where cells are distinct, `position` is the one index that holds `cell`.
pub proof fn lemma_position_unique(slots: Seq<Slot>, cell: Cell, k: int)
    requires
        0 <= k < slots.len(),
        slots[k].cell == cell,
        forall|i: int, j: int|
            0 <= i < j < slots.len() ==> (#[trigger] slots[i]).cell != (#[trigger] slots[j]).cell,
    ensures
        position(slots, cell) == k,
{
    lemma_position(slots, cell);
    let p = position(slots, cell);
    if p < k {
    } else if p > k {
        assert(slots[k].cell != slots[p].cell);
    }
}

/// Every region ends at or before the cursor.
pub proof fn lemma_region_below_cursor(regions: Seq<Region>, i: int)
    requires
        regions_sequential(regions),
        0 <= i < regions.len(),
    ensures
        regions[i].start + regions[i].rows <= cursor(regions),
    decreases regions.len() - i,
{
    if i < regions.len() - 1 {
        lemma_region_below_cursor(regions, i + 1);
        assert(regions[i].start + regions[i].rows == regions[i + 1].start);
    }
}

/// No advice cell on a row past all regions has a slot.
pub proof fn lemma_fresh_row(layout: LayoutView, cell: Cell)
    requires
        layout.wf(),
        cell.column.kind == ColumnKind::Advice,
        cell.row >= cursor(layout.regions),
    ensures
        position(layout.slots, cell) < 0,
{
    lemma_position(layout.slots, cell);
    let p = position(layout.slots, cell);
    if p >= 0 {
        assert(slot_placed(layout.slots[p].cell, layout.regions, layout.tables));
    }
}

/// A new region leaves a well-formed layout well formed, and the cursor
/// where it was.
pub proof fn lemma_region_added(layout: LayoutView, region: Region)
    requires
        layout.wf(),
        region.start == cursor(layout.regions),
        region.rows == 0,
    ensures
        (LayoutView { regions: layout.regions.push(region), ..layout }).wf(),
        cursor(layout.regions.push(region)) == cursor(layout.regions),
{
    let before = layout.regions;
    let after = before.push(region);
    assert forall|i: int| 0 <= i < after.len() - 1 implies (#[trigger] after[i]).start
        + after[i].rows == after[i + 1].start by {
        if i < before.len() - 1 {
            assert(before[i].start + before[i].rows == before[i + 1].start);
        }
    }
    assert forall|i: int| 0 <= i < layout.slots.len() implies slot_placed(
        (#[trigger] layout.slots[i]).cell,
        after,
        layout.tables,
    ) by {
        assert(slot_placed(layout.slots[i].cell, before, layout.tables));
    }
}

/// Claiming a row leaves a well-formed layout well formed; the row lies
/// below the new cursor, and the cursor does not move back.
pub proof fn lemma_claimed(layout: LayoutView, region: int, offset: int)
    requires
        layout.wf(),
        claim_row(layout.regions, region, offset) is Some,
    ensures
        (LayoutView { regions: claimed(layout.regions, region, offset), ..layout }).wf(),
        claim_row(layout.regions, region, offset).unwrap() < cursor(
            claimed(layout.regions, region, offset),
        ),
        cursor(layout.regions) <= cursor(claimed(layout.regions, region, offset)),
        claimed(layout.regions, region, offset).len() == layout.regions.len(),
        cursor(claimed(layout.regions, region, offset)) == if offset
            >= layout.regions[region].rows {
            layout.regions[region].start + offset + 1
        } else {
            cursor(layout.regions)
        },
{
    let before = layout.regions;
    let after = claimed(before, region, offset);
    lemma_region_below_cursor(before, region);
    assert forall|i: int| 0 <= i < after.len() - 1 implies (#[trigger] after[i]).start
        + after[i].rows == after[i + 1].start by {
        assert(before[i].start + before[i].rows == before[i + 1].start);
    }
    assert forall|i: int| 0 <= i < layout.slots.len() implies slot_placed(
        (#[trigger] layout.slots[i]).cell,
        after,
        layout.tables,
    ) by {
        assert(slot_placed(layout.slots[i].cell, before, layout.tables));
    }
}

/// A value given to an advice cell on a row of a region leaves a
/// well-formed layout well formed.
pub proof fn lemma_with_value(layout: LayoutView, cell: Cell, value: Option<FieldElement>)
    requires
        layout.wf(),
        layout.slots.len() < usize::MAX || position(layout.slots, cell) >= 0,
        cell.column.kind == ColumnKind::Advice,
        cell.row < cursor(layout.regions),
    ensures
        (LayoutView { slots: with_value(layout.slots, cell, value), ..layout }).wf(),
        position(with_value(layout.slots, cell, value), cell) >= 0,
        with_value(layout.slots, cell, value)[position(
            with_value(layout.slots, cell, value),
            cell,
        )].value == value,
{
    let before = layout.slots;
    let after = with_value(before, cell, value);
    lemma_position(before, cell);
    assert forall|i: int| 0 <= i < after.len() implies (#[trigger] after[i]).cell == (if i
        < before.len() {
        before[i].cell
    } else {
        cell
    }) && after[i].group < after.len() by {
        if i < before.len() {
            assert(before[i].group < before.len());
        }
    }
    assert forall|i: int, j: int| 0 <= i < j < after.len() implies (#[trigger] after[i]).cell != (
    #[trigger] after[j]).cell by {
        if j < before.len() {
            assert(before[i].cell != before[j].cell);
        }
    }
    assert forall|i: int| 0 <= i < after.len() implies slot_placed(
        (#[trigger] after[i]).cell,
        layout.regions,
        layout.tables,
    ) by {
        if i < before.len() {
            assert(slot_placed(before[i].cell, layout.regions, layout.tables));
        }
    }
    let k = if position(before, cell) >= 0 {
        position(before, cell)
    } else {
        before.len() as int
    };
    lemma_position_unique(after, cell, k);
}

/// A slot made for an advice cell on a row of a region leaves a
/// well-formed layout well formed.
pub proof fn lemma_with_slot(layout: LayoutView, cell: Cell)
    requires
        layout.wf(),
        layout.slots.len() < usize::MAX || position(layout.slots, cell) >= 0,
        cell.column.kind == ColumnKind::Advice,
        cell.row < cursor(layout.regions),
    ensures
        (LayoutView { slots: with_slot(layout.slots, cell), ..layout }).wf(),
        0 <= position(with_slot(layout.slots, cell), cell) < with_slot(layout.slots, cell).len(),
        forall|i: int| 0 <= i < layout.slots.len() ==> with_slot(layout.slots, cell)[i]
            == layout.slots[i],
{
    let before = layout.slots;
    let after = with_slot(before, cell);
    lemma_position(before, cell);
    if position(before, cell) < 0 {
        assert forall|i: int| 0 <= i < after.len() implies (#[trigger] after[i]).group
            < after.len() by {
            if i < before.len() {
                assert(before[i].group < before.len());
            }
        }
        assert forall|i: int, j: int| 0 <= i < j < after.len() implies (#[trigger] after[i]).cell
            != (#[trigger] after[j]).cell by {
            if j < before.len() {
                assert(before[i].cell != before[j].cell);
            }
        }
        assert forall|i: int| 0 <= i < after.len() implies slot_placed(
            (#[trigger] after[i]).cell,
            layout.regions,
            layout.tables,
        ) by {
            if i < before.len() {
                assert(slot_placed(before[i].cell, layout.regions, layout.tables));
            }
        }
        lemma_position_unique(after, cell, before.len() as int);
    }
}

/// Merging two groups leaves a well-formed layout well formed, and every
/// cell and value where it was.
pub proof fn lemma_merged(layout: LayoutView, into: usize, from: usize)
    requires
        layout.wf(),
        into < layout.slots.len(),
    ensures
        (LayoutView { slots: merged(layout.slots, into, from), ..layout }).wf(),
        forall|cell: Cell| position(merged(layout.slots, into, from), cell) == position(
            layout.slots,
            cell,
        ),
{
    let before = layout.slots;
    let after = merged(before, into, from);
    assert forall|i: int| 0 <= i < after.len() implies (#[trigger] after[i]).cell
        == before[i].cell && after[i].group < after.len() by {
        assert(before[i].group < before.len());
    }
    assert forall|i: int, j: int| 0 <= i < j < after.len() implies (#[trigger] after[i]).cell != (
    #[trigger] after[j]).cell by {
        assert(before[i].cell != before[j].cell);
    }
    assert forall|i: int| 0 <= i < after.len() implies slot_placed(
        (#[trigger] after[i]).cell,
        layout.regions,
        layout.tables,
    ) by {
        assert(slot_placed(before[i].cell, layout.regions, layout.tables));
    }
    assert forall|cell: Cell| position(after, cell) == position(before, cell) by {
        lemma_position(before, cell);
        let p = position(before, cell);
        if p >= 0 {
            lemma_position_unique(after, cell, p);
        } else {
            lemma_position(after, cell);
            if position(after, cell) >= 0 {
                assert(before[position(after, cell)].cell == cell);
            }
        }
    }
}

/// A table loaded into a fixed column that was not loaded before leaves a
/// well-formed layout well formed.
pub proof fn lemma_table_loaded(
    layout: LayoutView,
    column: Column,
    cells: Seq<Option<FieldElement>>,
)
    requires
        layout.wf(),
        column.kind == ColumnKind::Fixed,
        !layout.tables.contains(column),
        layout.slots.len() + cells.len() <= usize::MAX,
    ensures
        (LayoutView {
            slots: table_slots(layout.slots, column, cells, cells.len() as int),
            tables: layout.tables.push(column),
            ..layout
        }).wf(),
{
    let before = layout.slots;
    let after = table_slots(before, column, cells, cells.len() as int);
    let tables = layout.tables.push(column);
    assert(tables.last() == column);
    assert forall|k: int| 0 <= k < before.len() implies (#[trigger] before[k]).cell.column
        != column by {
        assert(slot_placed(before[k].cell, layout.regions, layout.tables));
    }
    assert forall|i: int, j: int| 0 <= i < j < after.len() implies (#[trigger] after[i]).cell != (
    #[trigger] after[j]).cell by {
        if j < before.len() {
            assert(before[i].cell != before[j].cell);
        } else if i < before.len() {
            assert(before[i].cell.column != column);
        }
    }
    assert forall|i: int| 0 <= i < after.len() implies (#[trigger] after[i]).group
        < after.len() by {
        if i < before.len() {
            assert(before[i].group < before.len());
        }
    }
    assert forall|i: int| 0 <= i < after.len() implies slot_placed(
        (#[trigger] after[i]).cell,
        layout.regions,
        tables,
    ) by {
        if i < before.len() {
            let c = before[i].cell.column;
            assert(slot_placed(before[i].cell, layout.regions, layout.tables));
            if c.kind == ColumnKind::Fixed {
                let w = choose|w: int| 0 <= w < layout.tables.len() && layout.tables[w] == c;
                assert(tables[w] == c);
            }
        } else {
            assert(tables[layout.tables.len() as int] == column);
        }
    }
}

/// A value given to a cell is the value assigned to it, and every other
/// cell keeps what was assigned to it.
pub proof fn lemma_with_value_assigned(slots: Seq<Slot>, cell: Cell, value: Option<FieldElement>)
    requires
        distinct_cells(slots),
    ensures
        distinct_cells(with_value(slots, cell, value)),
        assigned(with_value(slots, cell, value), cell) == value,
        forall|other: Cell|
            other != cell ==> #[trigger] assigned(with_value(slots, cell, value), other)
                == assigned(slots, other),
        forall|other: Cell| #[trigger]
            touched(with_value(slots, cell, value), other) <==> other == cell || touched(
                slots,
                other,
            ),
{
    let after = with_value(slots, cell, value);
    assert forall|other: Cell| #[trigger] touched(after, other) <==> other == cell || touched(
        slots,
        other,
    ) by {
        lemma_position(slots, other);
        lemma_position(after, other);
        lemma_position(slots, cell);
        let p = position(slots, other);
        let q = position(after, other);
        if p >= 0 {
            assert(after[p].cell == other);
        }
        if q >= 0 && other != cell {
            if q < slots.len() {
                assert(slots[q].cell == other);
            }
        }
        if other == cell {
            let k = if position(slots, cell) >= 0 {
                position(slots, cell)
            } else {
                slots.len() as int
            };
            assert(after[k].cell == cell);
        }
    }
    lemma_position(slots, cell);
    let k = if position(slots, cell) >= 0 {
        position(slots, cell)
    } else {
        slots.len() as int
    };
    assert forall|i: int, j: int| 0 <= i < j < after.len() implies (#[trigger] after[i]).cell != (
    #[trigger] after[j]).cell by {
        if j < slots.len() {
            assert(slots[i].cell != slots[j].cell);
        }
    }
    lemma_position_unique(after, cell, k);
    assert forall|other: Cell| other != cell implies #[trigger] assigned(after, other) == assigned(
        slots,
        other,
    ) by {
        lemma_position(slots, other);
        lemma_position(after, other);
        let p = position(slots, other);
        if p >= 0 {
            assert(after[p].cell == other);
            lemma_position_unique(after, other, p);
        } else {
            let q = position(after, other);
            if 0 <= q < slots.len() {
                assert(slots[q].cell == other);
            }
        }
    }
}

/// A slot made for a cell changes what is assigned to no cell.
pub proof fn lemma_with_slot_assigned(slots: Seq<Slot>, cell: Cell)
    requires
        distinct_cells(slots),
    ensures
        distinct_cells(with_slot(slots, cell)),
        position(with_slot(slots, cell), cell) >= 0,
        forall|other: Cell| #[trigger]
            assigned(with_slot(slots, cell), other) == assigned(slots, other),
        forall|other: Cell|
            position(slots, other) >= 0 ==> #[trigger] position(with_slot(slots, cell), other)
                == position(slots, other),
        forall|other: Cell| #[trigger]
            touched(with_slot(slots, cell), other) <==> other == cell || touched(slots, other),
{
    let after = with_slot(slots, cell);
    lemma_position(slots, cell);
    assert forall|other: Cell| #[trigger] touched(after, other) <==> other == cell || touched(
        slots,
        other,
    ) by {
        lemma_position(slots, other);
        lemma_position(after, other);
        let p = position(slots, other);
        let q = position(after, other);
        if p >= 0 {
            assert(after[p].cell == other);
        }
        if q >= 0 && other != cell {
            if q < slots.len() {
                assert(slots[q].cell == other);
            }
        }
        if other == cell && position(slots, cell) < 0 {
            assert(after[slots.len() as int].cell == cell);
        }
    }
    if position(slots, cell) < 0 {
        assert forall|i: int, j: int| 0 <= i < j < after.len() implies (#[trigger] after[i]).cell
            != (#[trigger] after[j]).cell by {
            if j < slots.len() {
                assert(slots[i].cell != slots[j].cell);
            }
        }
        lemma_position_unique(after, cell, slots.len() as int);
        assert forall|other: Cell| #[trigger] assigned(after, other) == assigned(slots, other) by {
            lemma_position(slots, other);
            lemma_position(after, other);
            let p = position(slots, other);
            if p >= 0 {
                assert(after[p].cell == other);
                lemma_position_unique(after, other, p);
            } else {
                let q = position(after, other);
                if 0 <= q < slots.len() {
                    assert(slots[q].cell == other);
                }
            }
        }
        assert forall|other: Cell| position(slots, other) >= 0 implies #[trigger] position(
            after,
            other,
        ) == position(slots, other) by {
            lemma_position(slots, other);
            let p = position(slots, other);
            assert(after[p].cell == other);
            lemma_position_unique(after, other, p);
        }
    }
}

/// Merging groups changes the slot of no cell and what is assigned to none.
pub proof fn lemma_merged_assigned(slots: Seq<Slot>, into: usize, from: usize)
    requires
        distinct_cells(slots),
    ensures
        distinct_cells(merged(slots, into, from)),
        forall|other: Cell| #[trigger]
            position(merged(slots, into, from), other) == position(slots, other),
        forall|other: Cell| #[trigger]
            assigned(merged(slots, into, from), other) == assigned(slots, other),
{
    let after = merged(slots, into, from);
    assert forall|i: int, j: int| 0 <= i < j < after.len() implies (#[trigger] after[i]).cell != (
    #[trigger] after[j]).cell by {
        assert(slots[i].cell != slots[j].cell);
    }
    assert forall|other: Cell| #[trigger] position(after, other) == position(slots, other) by {
        lemma_position(slots, other);
        lemma_position(after, other);
        let p = position(slots, other);
        if p >= 0 {
            assert(after[p].cell == other);
            lemma_position_unique(after, other, p);
        } else {
            let q = position(after, other);
            if q >= 0 {
                assert(slots[q].cell == other);
            }
        }
    }
    assert forall|other: Cell| #[trigger] assigned(after, other) == assigned(slots, other) by {
        lemma_position(slots, other);
        assert(position(after, other) == position(slots, other));
    }
}

/// A copy constraint ties its two cells and changes what is assigned to
/// no cell.
pub proof fn lemma_copied_assigned(slots: Seq<Slot>, a: Cell, b: Cell)
    requires
        distinct_cells(slots),
    ensures
        distinct_cells(copied(slots, a, b)),
        linked(copied(slots, a, b), a, b),
        forall|other: Cell| #[trigger] assigned(copied(slots, a, b), other) == assigned(slots, other),
        forall|other: Cell| #[trigger]
            touched(copied(slots, a, b), other) <==> other == a || other == b || touched(
                slots,
                other,
            ),
{
    let with_a = with_slot(slots, a);
    lemma_with_slot_assigned(slots, a);
    let both = with_slot(with_a, b);
    lemma_with_slot_assigned(with_a, b);
    assert(position(both, a) == position(with_a, a));
    lemma_position(both, a);
    lemma_position(both, b);
    let pa = position(both, a);
    let pb = position(both, b);
    let into = both[pa].group;
    let from = both[pb].group;
    lemma_merged_assigned(both, into, from);
    let after = merged(both, into, from);
    assert(position(after, a) == pa);
    assert(position(after, b) == pb);
    assert(after[pa].group == into);
    assert(after[pb].group == into);
    assert forall|other: Cell| #[trigger] assigned(after, other) == assigned(slots, other) by {
        assert(assigned(after, other) == assigned(both, other));
        assert(assigned(both, other) == assigned(with_a, other));
        assert(assigned(with_a, other) == assigned(slots, other));
    }
    assert forall|other: Cell| #[trigger] touched(after, other) <==> other == a || other == b
        || touched(slots, other) by {
        assert(position(after, other) == position(both, other));
        assert(touched(both, other) <==> other == b || touched(with_a, other));
        assert(touched(with_a, other) <==> other == a || touched(slots, other));
    }
}

/// A value given to a cell unties no two cells.
pub proof fn lemma_with_value_linked(slots: Seq<Slot>, cell: Cell, value: Option<FieldElement>)
    requires
        distinct_cells(slots),
    ensures
        forall|x: Cell, y: Cell|
            linked(slots, x, y) ==> #[trigger] linked(with_value(slots, cell, value), x, y),
{
    let after = with_value(slots, cell, value);
    lemma_with_value_assigned(slots, cell, value);
    lemma_position(slots, cell);
    assert forall|i: int| 0 <= i < slots.len() implies (#[trigger] after[i]).cell
        == slots[i].cell && after[i].group == slots[i].group by {}
    assert forall|x: Cell, y: Cell| linked(slots, x, y) implies #[trigger] linked(after, x, y) by {
        lemma_kept_position(slots, after, x);
        lemma_kept_position(slots, after, y);
        lemma_position(slots, x);
        lemma_position(slots, y);
    }
}

/// Where `after` has the cells of `before` in their places, a cell with a
/// slot before has the same slot after.
proof fn lemma_kept_position(before: Seq<Slot>, after: Seq<Slot>, cell: Cell)
    requires
        distinct_cells(after),
        before.len() <= after.len(),
        forall|i: int| 0 <= i < before.len() ==> (#[trigger] after[i]).cell == before[i].cell,
        position(before, cell) >= 0,
    ensures
        position(after, cell) == position(before, cell),
{
    lemma_position(before, cell);
    let p = position(before, cell);
    assert(after[p].cell == cell);
    lemma_position_unique(after, cell, p);
}

/// A copy constraint unties no two cells.
pub proof fn lemma_copied_linked(slots: Seq<Slot>, a: Cell, b: Cell)
    requires
        distinct_cells(slots),
    ensures
        forall|x: Cell, y: Cell| linked(slots, x, y) ==> #[trigger] linked(copied(slots, a, b), x, y),
{
    let with_a = with_slot(slots, a);
    lemma_with_slot_assigned(slots, a);
    let both = with_slot(with_a, b);
    lemma_with_slot_assigned(with_a, b);
    lemma_position(both, a);
    lemma_position(both, b);
    let into = both[position(both, a)].group;
    let from = both[position(both, b)].group;
    lemma_merged_assigned(both, into, from);
    let after = merged(both, into, from);
    assert forall|x: Cell, y: Cell| linked(slots, x, y) implies #[trigger] linked(after, x, y) by {
        let px = position(slots, x);
        let py = position(slots, y);
        lemma_position(slots, x);
        lemma_position(slots, y);
        assert(position(with_a, x) == px);
        assert(position(both, x) == px);
        assert(position(after, x) == px);
        assert(position(with_a, y) == py);
        assert(position(both, y) == py);
        assert(position(after, y) == py);
        assert(both[px] == slots[px]);
        assert(both[py] == slots[py]);
    }
}

/// Enabling a selector cell adds that cell to the enabled ones and nothing
/// else.
pub proof fn lemma_with_selector(selectors: Seq<Cell>, cell: Cell)
    ensures
        with_selector(selectors, cell).contains(cell),
        forall|c: Cell| selectors.contains(c) ==> with_selector(selectors, cell).contains(c),
        forall|c: Cell|
            with_selector(selectors, cell).contains(c) ==> selectors.contains(c) || c == cell,
{
    let after = with_selector(selectors, cell);
    if !selectors.contains(cell) {
        assert(after[selectors.len() as int] == cell);
        assert forall|c: Cell| selectors.contains(c) implies after.contains(c) by {
            let k = choose|k: int| 0 <= k < selectors.len() && selectors[k] == c;
            assert(after[k] == c);
        }
        assert forall|c: Cell| after.contains(c) implies selectors.contains(c) || c == cell by {
            let k = choose|k: int| 0 <= k < after.len() && after[k] == c;
            if k < selectors.len() {
                assert(selectors[k] == c);
            }
        }
    }
}

/// Cells tied in a chain are tied end to end: after `x` is tied to `y` and
/// `y` to `z`, all three are in one group, and what was assigned to any
/// cell is still assigned to it.
pub proof fn lemma_chained_copies(slots: Seq<Slot>, x: Cell, y: Cell, z: Cell)
    requires
        distinct_cells(slots),
    ensures
        linked(copied(copied(slots, x, y), y, z), x, y),
        linked(copied(copied(slots, x, y), y, z), y, z),
        linked(copied(copied(slots, x, y), y, z), x, z),
        forall|cell: Cell| #[trigger]
            assigned(copied(copied(slots, x, y), y, z), cell) == assigned(slots, cell),
{
    let once = copied(slots, x, y);
    lemma_copied_assigned(slots, x, y);
    lemma_copied_linked(once, y, z);
    lemma_copied_assigned(once, y, z);
    let twice = copied(once, y, z);
    assert(linked(twice, x, y));
    assert forall|cell: Cell| #[trigger] assigned(twice, cell) == assigned(slots, cell) by {
        assert(assigned(twice, cell) == assigned(once, cell));
    }
}

/// Being tied is symmetric and transitive.
pub proof fn lemma_linked_equivalence(slots: Seq<Slot>, x: Cell, y: Cell, z: Cell)
    ensures
        linked(slots, x, y) ==> linked(slots, y, x),
        linked(slots, x, y) && linked(slots, y, z) ==> linked(slots, x, z),
{
}

/// Whether `row` is one of the rows of `region`.
pub open spec fn has_row(region: Region, row: int) -> bool {
    region.start <= row < region.start + region.rows
}

/// Two regions requested one after another, or with others between them,
/// share no absolute row: the earlier one ends at or before the start of
/// the later one.
pub proof fn lemma_regions_disjoint(regions: Seq<Region>, i: int, j: int)
    requires
        regions_sequential(regions),
        0 <= i < j < regions.len(),
    ensures
        regions[i].start + regions[i].rows <= regions[j].start,
        forall|row: int| !(has_row(regions[i], row) && has_row(regions[j], row)),
    decreases j - i,
{
    if i + 1 < j {
        lemma_regions_disjoint(regions, i + 1, j);
    }
    assert(regions[i].start + regions[i].rows == regions[i + 1].start);
}

/// The rows consumed are at least, and here exactly, the rows of the
/// regions added up: none is claimed twice and none is lost between
/// regions.
pub proof fn lemma_rows_consumed(regions: Seq<Region>)
    requires
        regions_sequential(regions),
    ensures
        cursor(regions) >= total_rows(regions, regions.len() as int),
        cursor(regions) == total_rows(regions, regions.len() as int),
{
    lemma_rows_prefix(regions, regions.len() as int);
}

/// The first `n` regions take up the rows from zero to the start of the
/// next.
proof fn lemma_rows_prefix(regions: Seq<Region>, n: int)
    requires
        regions_sequential(regions),
        0 <= n <= regions.len(),
    ensures
        total_rows(regions, n) == if n == 0 {
            0
        } else {
            regions[n - 1].start + regions[n - 1].rows
        },
    decreases n,
{
    if n > 1 {
        lemma_rows_prefix(regions, n - 1);
        assert(regions[n - 2].start + regions[n - 2].rows == regions[n - 1].start);
    } else if n == 1 {
        lemma_rows_prefix(regions, 0);
    }
}

/// Once a gap is found among the first `k` rows, it stays the first gap
/// among any more rows.
pub proof fn lemma_first_gap_stable(cells: Seq<Option<FieldElement>>, k: int, m: int)
    requires
        0 <= k <= m,
        first_gap(cells, k) >= 0,
    ensures
        first_gap(cells, m) == first_gap(cells, k),
    decreases m - k,
{
    if k < m {
        lemma_first_gap_stable(cells, k, m - 1);
    }
}

} // verus!
