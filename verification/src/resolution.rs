//! What a layout resolves to: each copy group collapses to the one value
//! assigned in it, and every touched cell takes the value of its group.

use crate::column::{Cell, Column};
use crate::field::FieldElement;
use crate::layout::{
    assigned, copied, cursor, distinct_cells, lemma_position, lemma_position_unique, linked,
    merged, position, touched, with_slot, with_value, CellState, LayoutView, Slot, SynthesisError,
};
use crate::system::{Lookup, SystemView};
use crate::witness::{
    first_incomplete_row, first_missing, references, stored, AssignedCell, TableView,
};
use vstd::prelude::*;

verus! {

/// The value of the first of the first `n` slots that is in group `group`
/// and has a value.
pub open spec fn first_value(slots: Seq<Slot>, group: usize, n: int) -> Option<FieldElement>
    decreases n,
{
    if n <= 0 {
        None
    } else {
        let earlier = first_value(slots, group, n - 1);
        if earlier is Some {
            earlier
        } else if n <= slots.len() && slots[n - 1].group == group {
            slots[n - 1].value
        } else {
            None
        }
    }
}

/// Whether two slots of group `group` were assigned different values.
pub open spec fn conflicting(slots: Seq<Slot>, group: usize) -> bool {
    exists|i: int, j: int|
        0 <= i < slots.len() && 0 <= j < slots.len() && (#[trigger] slots[i]).group == group && (
        #[trigger] slots[j]).group == group && slots[i].value is Some && slots[j].value is Some
            && slots[i].value != slots[j].value
}

/// What the assignments to the slots of group `group` come to.
pub open spec fn group_state(slots: Seq<Slot>, group: usize) -> CellState {
    if conflicting(slots, group) {
        CellState::Conflicted
    } else {
        match first_value(slots, group, slots.len() as int) {
            Some(v) => CellState::Known(v),
            None => CellState::Unassigned,
        }
    }
}

/// What is known of the value of `cell`: the state of its copy group, or
/// nothing where synthesis never touched it.
pub open spec fn resolved_state(slots: Seq<Slot>, cell: Cell) -> CellState {
    let p = position(slots, cell);
    if p >= 0 {
        group_state(slots, slots[p].group)
    } else {
        CellState::Unassigned
    }
}

/// The value under a known state.
pub open spec fn value_of(state: CellState) -> FieldElement {
    match state {
        CellState::Known(v) => v,
        _ => arbitrary(),
    }
}

/// The index of the first of the first `n` slots whose group does not come
/// to one value, or `-1`.
pub open spec fn first_unresolved(slots: Seq<Slot>, n: int) -> int
    decreases n,
{
    if n <= 0 {
        -1
    } else {
        let earlier = first_unresolved(slots, n - 1);
        if earlier >= 0 {
            earlier
        } else if n <= slots.len() && !(group_state(slots, slots[n - 1].group) is Known) {
            n - 1
        } else {
            -1
        }
    }
}

/// The first `n` slots, each with the value of its group.
pub open spec fn resolved_cells(slots: Seq<Slot>, n: int) -> Seq<AssignedCell> {
    Seq::new(
        n as nat,
        |i: int|
            AssignedCell {
                cell: slots[i].cell,
                value: value_of(group_state(slots, slots[i].group)),
            },
    )
}

/// The index of the first of the first `n` lookups whose table column was
/// not loaded, or `-1`.
pub open spec fn first_unloaded(lookups: Seq<Lookup>, tables: Seq<Column>, n: int) -> int
    decreases n,
{
    if n <= 0 {
        -1
    } else {
        let earlier = first_unloaded(lookups, tables, n - 1);
        if earlier >= 0 {
            earlier
        } else if n <= lookups.len() && !tables.contains(lookups[n - 1].table) {
            n - 1
        } else {
            -1
        }
    }
}

/// The table that a layout resolves to: every touched cell with the value
/// of its copy group.
pub open spec fn resolved_table(layout: LayoutView) -> TableView {
    TableView {
        rows: cursor(layout.regions) as nat,
        cells: resolved_cells(layout.slots, layout.slots.len() as int),
        selectors: layout.selectors,
        regions: layout.regions,
        bindings: layout.bindings,
    }
}

/// Why a layout cannot be resolved for `sys`, if it cannot. The first
/// touched cell whose group has no value or two decides; then the first
/// lookup whose table was never loaded; then the first reference of an
/// active gate or lookup that finds no value.
pub open spec fn resolution_error(layout: LayoutView, sys: SystemView) -> Option<SynthesisError> {
    let bad = first_unresolved(layout.slots, layout.slots.len() as int);
    let unloaded = first_unloaded(sys.lookups, layout.tables, sys.lookups.len() as int);
    let t = resolved_table(layout);
    let row = first_incomplete_row(sys, t, layout.public_input, t.rows as int);
    if bad >= 0 {
        let slot = layout.slots[bad];
        if group_state(layout.slots, slot.group) is Conflicted {
            Some(SynthesisError::ConflictingAssignment { group: slot.cell })
        } else {
            Some(
                SynthesisError::UnassignedCell {
                    column: slot.cell.column,
                    row: slot.cell.row,
                    rotation: 0,
                },
            )
        }
    } else if unloaded >= 0 {
        Some(SynthesisError::IncompleteTable { column: sys.lookups[unloaded].table, row: 0 })
    } else if row >= 0 {
        let list = references(sys, t, row);
        let q = list[first_missing(list, list.len() as int, t, layout.public_input, row)];
        Some(
            SynthesisError::UnassignedCell {
                column: q.column,
                row: row as usize,
                rotation: q.rotation,
            },
        )
    } else {
        None
    }
}

/// Whether no copy group holds two values: cells of one group that were
/// assigned were assigned the same value.
pub open spec fn consistent(slots: Seq<Slot>) -> bool {
    forall|i: int, j: int|
        0 <= i < slots.len() && 0 <= j < slots.len() && (#[trigger] slots[i]).group == (
        #[trigger] slots[j]).group && slots[i].value is Some && slots[j].value is Some
            ==> slots[i].value == slots[j].value
}

/// Whether no cell was tied to another: every slot is alone in its group,
/// which is labelled by the index of the slot.
pub open spec fn untied(slots: Seq<Slot>) -> bool {
    forall|i: int| 0 <= i < slots.len() ==> (#[trigger] slots[i]).group == i
}

/// Cells that were never tied hold no two values in one group.
pub proof fn lemma_untied_consistent(slots: Seq<Slot>)
    requires
        untied(slots),
    ensures
        consistent(slots),
{
}

/// In a layout without conflict, a cell that was assigned a value resolves
/// to that value, and so does every cell tied to it.
pub proof fn lemma_resolves_to_assigned(slots: Seq<Slot>, cell: Cell, tied: Cell)
    requires
        distinct_cells(slots),
        consistent(slots),
        assigned(slots, cell) is Some,
        linked(slots, cell, tied),
    ensures
        resolved_state(slots, cell) == CellState::Known(assigned(slots, cell).unwrap()),
        resolved_state(slots, tied) == CellState::Known(assigned(slots, cell).unwrap()),
{
    lemma_position(slots, cell);
    let p = position(slots, cell);
    let group = slots[p].group;
    lemma_first_value(slots, group, slots.len() as int);
    assert(!conflicting(slots, group));
    assert(slots[p].group == group && slots[p].value is Some);
    let k = choose|k: int|
        0 <= k < slots.len() && (#[trigger] slots[k]).group == group && slots[k].value
            == first_value(slots, group, slots.len() as int);
    assert(slots[k].value == slots[p].value);
}

/// The resolved table stores, for every touched cell, the value of its
/// group, and nothing for any other cell.
pub proof fn lemma_stored_resolved(slots: Seq<Slot>, cell: Cell, n: int)
    requires
        distinct_cells(slots),
        0 <= n <= slots.len(),
    ensures
        stored(resolved_cells(slots, n), cell) == if 0 <= position(slots, cell) < n {
            Some(value_of(resolved_state(slots, cell)))
        } else {
            None
        },
    decreases n,
{
    lemma_position(slots, cell);
    let cells = resolved_cells(slots, n);
    if n > 0 {
        lemma_stored_resolved(slots, cell, n - 1);
        assert(cells.drop_last() =~= resolved_cells(slots, n - 1));
        if slots[n - 1].cell == cell {
            lemma_position_unique(slots, cell, n - 1);
        } else if position(slots, cell) == n - 1 {
        }
    }
}

/// Whether a slot of group `group` was assigned a value.
pub open spec fn has_value(slots: Seq<Slot>, group: usize) -> bool {
    exists|j: int| 0 <= j < slots.len() && (#[trigger] slots[j]).group == group && slots[j].value is Some
}

/// Whether every touched cell is in a group with a value.
pub open spec fn all_valued(slots: Seq<Slot>) -> bool {
    forall|i: int| 0 <= i < slots.len() ==> has_value(slots, (#[trigger] slots[i]).group)
}

/// Where no group is in conflict and every touched cell is in a group
/// with a value, every touched cell resolves.
pub proof fn lemma_all_resolved(slots: Seq<Slot>, n: int)
    requires
        distinct_cells(slots),
        consistent(slots),
        all_valued(slots),
        0 <= n <= slots.len(),
    ensures
        first_unresolved(slots, n) < 0,
    decreases n,
{
    if n > 0 {
        lemma_all_resolved(slots, n - 1);
        let i = n - 1;
        assert(has_value(slots, slots[i].group));
        let j = choose|j: int|
            0 <= j < slots.len() && (#[trigger] slots[j]).group == slots[i].group
                && slots[j].value is Some;
        lemma_position_unique(slots, slots[j].cell, j);
        lemma_position_unique(slots, slots[i].cell, i);
        lemma_resolves_to_assigned(slots, slots[j].cell, slots[i].cell);
    }
}

/// A value given to a cell that was not touched leaves the groups without
/// conflict: the cell is alone in a new group.
pub proof fn lemma_fresh_value_consistent(slots: Seq<Slot>, cell: Cell, value: Option<FieldElement>)
    requires
        consistent(slots),
        !touched(slots, cell),
        forall|i: int| 0 <= i < slots.len() ==> (#[trigger] slots[i]).group < slots.len(),
        with_value(slots, cell, value).len() <= usize::MAX,
    ensures
        consistent(with_value(slots, cell, value)),
        untied(slots) ==> untied(with_value(slots, cell, value)),
{
    let after = with_value(slots, cell, value);
    assert forall|i: int, j: int|
        0 <= i < after.len() && 0 <= j < after.len() && (#[trigger] after[i]).group == (
        #[trigger] after[j]).group && after[i].value is Some && after[j].value is Some implies after[i].value
        == after[j].value by {
        if i < slots.len() && j < slots.len() {
            assert(slots[i].group == slots[j].group);
        } else if i < slots.len() {
            assert(slots[i].group < slots.len());
        } else if j < slots.len() {
            assert(slots[j].group < slots.len());
        }
    }
}

/// A copy constraint between two cells that were assigned the same value
/// leaves the groups without conflict.
pub proof fn lemma_copy_consistent(slots: Seq<Slot>, a: Cell, b: Cell)
    requires
        distinct_cells(slots),
        consistent(slots),
        assigned(slots, a) is Some,
        assigned(slots, a) == assigned(slots, b),
    ensures
        consistent(copied(slots, a, b)),
{
    lemma_position(slots, a);
    lemma_position(slots, b);
    let pa = position(slots, a);
    let pb = position(slots, b);
    assert(with_slot(slots, a) == slots);
    assert(with_slot(with_slot(slots, a), b) == slots);
    let into = slots[pa].group;
    let from = slots[pb].group;
    let after = merged(slots, into, from);
    assert forall|i: int, j: int|
        0 <= i < after.len() && 0 <= j < after.len() && (#[trigger] after[i]).group == (
        #[trigger] after[j]).group && after[i].value is Some && after[j].value is Some implies after[i].value
        == after[j].value by {
        assert(slots[i].value == after[i].value && slots[j].value == after[j].value);
        if slots[i].group == from {
            assert(slots[i].group == slots[pb].group);
        } else if after[i].group == into {
            assert(slots[i].group == slots[pa].group);
        }
        if slots[j].group == from {
            assert(slots[j].group == slots[pb].group);
        } else if after[j].group == into {
            assert(slots[j].group == slots[pa].group);
        }
    }
}

/// A value reaches a cell through its copy group: where `x`, `y` and `z`
/// are tied in a chain, `x` and `z` were assigned the same value, `y` was
/// assigned none, and no other cell of the group was assigned another
/// value, all three resolve to that value.
pub proof fn lemma_chain_carries_value(slots: Seq<Slot>, x: Cell, y: Cell, z: Cell, v: FieldElement)
    requires
        distinct_cells(slots),
        linked(slots, x, y),
        linked(slots, y, z),
        assigned(slots, x) == Some(v),
        assigned(slots, z) == Some(v),
        assigned(slots, y) is None,
        forall|i: int|
            0 <= i < slots.len() && (#[trigger] slots[i]).group == slots[position(slots, y)].group
                && slots[i].value is Some ==> slots[i].value == Some(v),
    ensures
        resolved_state(slots, x) == CellState::Known(v),
        resolved_state(slots, y) == CellState::Known(v),
        resolved_state(slots, z) == CellState::Known(v),
{
    lemma_position(slots, x);
    lemma_position(slots, y);
    let group = slots[position(slots, y)].group;
    lemma_first_value(slots, group, slots.len() as int);
    assert(slots[position(slots, x)].group == group && slots[position(slots, x)].value is Some);
}

/// Different values in one copy group are a conflict: where `x`, `y` and
/// `z` are tied in a chain and `x` and `z` were assigned different values,
/// all three are conflicted, and resolution fails.
pub proof fn lemma_chain_conflict(layout: LayoutView, sys: SystemView, x: Cell, y: Cell, z: Cell)
    requires
        distinct_cells(layout.slots),
        linked(layout.slots, x, y),
        linked(layout.slots, y, z),
        assigned(layout.slots, x) is Some,
        assigned(layout.slots, z) is Some,
        assigned(layout.slots, x) != assigned(layout.slots, z),
    ensures
        resolved_state(layout.slots, x) == CellState::Conflicted,
        resolved_state(layout.slots, y) == CellState::Conflicted,
        resolved_state(layout.slots, z) == CellState::Conflicted,
        resolution_error(layout, sys) is Some,
{
    let slots = layout.slots;
    lemma_position(slots, x);
    lemma_position(slots, y);
    lemma_position(slots, z);
    let px = position(slots, x);
    let pz = position(slots, z);
    let group = slots[px].group;
    assert(slots[px].group == group && slots[pz].group == group);
    assert(conflicting(slots, group));
    lemma_unresolved_found(slots, px, slots.len() as int);
}

/// Where the copy group of the chain is the only group that does not come
/// to one value, the error of resolution is the conflict, and it names the
/// group by a cell of it: one tied to `x`, `y` and `z`.
pub proof fn lemma_conflict_names_group(
    layout: LayoutView,
    sys: SystemView,
    x: Cell,
    y: Cell,
    z: Cell,
)
    requires
        distinct_cells(layout.slots),
        linked(layout.slots, x, y),
        linked(layout.slots, y, z),
        assigned(layout.slots, x) is Some,
        assigned(layout.slots, z) is Some,
        assigned(layout.slots, x) != assigned(layout.slots, z),
        forall|i: int|
            0 <= i < layout.slots.len() && (#[trigger] layout.slots[i]).group
                != layout.slots[position(layout.slots, y)].group ==> group_state(
                layout.slots,
                layout.slots[i].group,
            ) is Known,
    ensures
        resolution_error(layout, sys) matches Some(
            SynthesisError::ConflictingAssignment { group },
        ) && linked(layout.slots, group, x) && linked(layout.slots, group, y) && linked(
            layout.slots,
            group,
            z,
        ),
{
    let slots = layout.slots;
    lemma_chain_conflict(layout, sys, x, y, z);
    lemma_position(slots, x);
    lemma_position(slots, y);
    lemma_position(slots, z);
    let px = position(slots, x);
    lemma_unresolved_found(slots, px, slots.len() as int);
    let bad = first_unresolved(slots, slots.len() as int);
    lemma_first_unresolved(slots, slots.len() as int);
    assert(slots[bad].group == slots[position(slots, y)].group);
    lemma_position_unique(slots, slots[bad].cell, bad);
}

/// An unresolved slot among the first `n` makes the first unresolved one
/// exist.
proof fn lemma_unresolved_found(slots: Seq<Slot>, k: int, n: int)
    requires
        0 <= k < n <= slots.len(),
        !(group_state(slots, slots[k].group) is Known),
    ensures
        0 <= first_unresolved(slots, n) <= k,
    decreases n,
{
    if k < n - 1 {
        lemma_unresolved_found(slots, k, n - 1);
    } else {
        lemma_first_unresolved(slots, n - 1);
    }
}

/// The first unresolved slot, where there is one, is unresolved.
proof fn lemma_first_unresolved(slots: Seq<Slot>, n: int)
    requires
        0 <= n <= slots.len(),
    ensures
        first_unresolved(slots, n) < n,
        first_unresolved(slots, n) >= 0 ==> !(group_state(
            slots,
            slots[first_unresolved(slots, n)].group,
        ) is Known),
        first_unresolved(slots, n) >= -1,
    decreases n,
{
    if n > 0 {
        lemma_first_unresolved(slots, n - 1);
    }
}

/// The first value among the first `n` slots of a group is the value of one
/// of its slots, and no slot of the group before that one has a value.
pub proof fn lemma_first_value(slots: Seq<Slot>, group: usize, n: int)
    requires
        0 <= n <= slots.len(),
    ensures
        first_value(slots, group, n) is Some ==> exists|k: int|
            0 <= k < n && (#[trigger] slots[k]).group == group && slots[k].value == first_value(
                slots,
                group,
                n,
            ),
        first_value(slots, group, n) is None ==> forall|k: int|
            0 <= k < n && (#[trigger] slots[k]).group == group ==> slots[k].value is None,
    decreases n,
{
    if n > 0 {
        lemma_first_value(slots, group, n - 1);
        let earlier = first_value(slots, group, n - 1);
        if earlier is Some {
            let k = choose|k: int|
                0 <= k < n - 1 && (#[trigger] slots[k]).group == group && slots[k].value
                    == earlier;
            assert(0 <= k < n && slots[k].group == group && slots[k].value == first_value(
                slots,
                group,
                n,
            ));
        } else if slots[n - 1].group == group && slots[n - 1].value is Some {
            assert(slots[n - 1].group == group && slots[n - 1].value == first_value(
                slots,
                group,
                n,
            ));
        }
    }
}

/// Once an unresolved slot is found among the first `k`, it stays the first
/// among any more.
pub proof fn lemma_first_unresolved_stable(slots: Seq<Slot>, k: int, m: int)
    requires
        0 <= k <= m,
        first_unresolved(slots, k) >= 0,
    ensures
        first_unresolved(slots, m) == first_unresolved(slots, k),
    decreases m - k,
{
    if k < m {
        lemma_first_unresolved_stable(slots, k, m - 1);
    }
}

/// Once a lookup without a table is found among the first `k`, it stays
/// the first among any more.
pub proof fn lemma_first_unloaded_stable(lookups: Seq<Lookup>, tables: Seq<Column>, k: int, m: int)
    requires
        0 <= k <= m,
        first_unloaded(lookups, tables, k) >= 0,
    ensures
        first_unloaded(lookups, tables, m) == first_unloaded(lookups, tables, k),
    decreases m - k,
{
    if k < m {
        lemma_first_unloaded_stable(lookups, tables, k, m - 1);
    }
}

} // verus!
