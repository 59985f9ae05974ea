use plonkish::column::{Cell, Column, ColumnKind};
use plonkish::expression::Expression;
use plonkish::field::FieldElement;
use plonkish::layout::{AssignmentError, CellState, SynthesisError};
use plonkish::layouter::{Layouter, Table};
use plonkish::system::{ConfigurationError, Constraint, ConstraintSystem};

fn fe(v: u64) -> FieldElement {
    FieldElement::from_u64(v)
}

struct Columns {
    a: Column,
    b: Column,
    plain: Column,
    instance: Column,
    fixed: Column,
    selector: Column,
}

/// Two advice columns enabled for equality, one that is not, an instance
/// column, a fixed column and a selector; no gate.
fn system() -> (ConstraintSystem, Columns) {
    let mut cs = ConstraintSystem::new();
    let a = cs.allocate_column(ColumnKind::Advice).unwrap();
    let b = cs.allocate_column(ColumnKind::Advice).unwrap();
    let plain = cs.allocate_column(ColumnKind::Advice).unwrap();
    let instance = cs.allocate_column(ColumnKind::Instance).unwrap();
    let fixed = cs.allocate_column(ColumnKind::Fixed).unwrap();
    let selector = cs.allocate_column(ColumnKind::Selector).unwrap();
    cs.enable_equality(a).unwrap();
    cs.enable_equality(b).unwrap();
    cs.enable_equality(instance).unwrap();
    (cs, Columns { a, b, plain, instance, fixed, selector })
}

#[test]
fn regions_follow_one_another_without_sharing_a_row() {
    let (cs, c) = system();
    let mut layouter = Layouter::new(&cs, vec![]);
    let first = layouter.region("first".to_string());
    layouter.assign_advice(first, c.a, 0, Some(fe(1))).unwrap();
    layouter.assign_advice(first, c.a, 2, Some(fe(2))).unwrap();
    let second = layouter.region("second".to_string());
    let cell = layouter.assign_advice(second, c.a, 0, Some(fe(3))).unwrap();
    let empty = layouter.region("empty".to_string());
    let third = layouter.region("third".to_string());
    let last = layouter.assign_advice(third, c.b, 4, Some(fe(4))).unwrap();
    assert_eq!((first, second, empty, third), (0, 1, 2, 3));
    assert_eq!(cell, Cell { column: c.a, row: 3 });
    assert_eq!(last, Cell { column: c.b, row: 8 });
    let regions = layouter.regions();
    let spans: Vec<(usize, usize)> = regions.iter().map(|r| (r.start, r.rows)).collect();
    assert_eq!(spans, vec![(0, 3), (3, 1), (4, 0), (4, 5)]);
    assert_eq!(regions[1].name, "second");
    // Total consumed rows are the rows of the regions added up.
    assert_eq!(layouter.rows(), 3 + 1 + 0 + 5);
}

#[test]
fn a_cell_is_assigned_once() {
    let (cs, c) = system();
    let mut layouter = Layouter::new(&cs, vec![]);
    let region = layouter.region("r".to_string());
    assert_eq!(
        layouter.assign_advice(region, c.a, 1, Some(fe(5))),
        Ok(Cell { column: c.a, row: 1 })
    );
    assert_eq!(
        layouter.assign_advice(region, c.a, 1, Some(fe(5))),
        Err(SynthesisError::Assignment(AssignmentError::CellAlreadyAssigned))
    );
    assert_eq!(
        layouter.assign_advice(region, c.a, 1, Some(fe(6))),
        Err(SynthesisError::Assignment(AssignmentError::CellAlreadyAssigned))
    );
    assert_eq!(layouter.cell_state(Cell { column: c.a, row: 1 }), CellState::Known(fe(5)));
    assert_eq!(layouter.cell_state(Cell { column: c.a, row: 0 }), CellState::Unassigned);
}

#[test]
fn an_earlier_region_cannot_grow_into_a_later_one() {
    let (cs, c) = system();
    let mut layouter = Layouter::new(&cs, vec![]);
    let first = layouter.region("first".to_string());
    layouter.assign_advice(first, c.a, 1, Some(fe(1))).unwrap();
    let second = layouter.region("second".to_string());
    layouter.assign_advice(second, c.a, 0, Some(fe(2))).unwrap();
    // Inside its rows the first region still takes assignments.
    assert_eq!(
        layouter.assign_advice(first, c.b, 1, Some(fe(3))),
        Ok(Cell { column: c.b, row: 1 })
    );
    assert_eq!(
        layouter.assign_advice(first, c.b, 2, Some(fe(3))),
        Err(SynthesisError::Assignment(AssignmentError::RegionOverlap))
    );
    assert_eq!(
        layouter.enable_selector(first, c.selector, 2),
        Err(SynthesisError::Assignment(AssignmentError::RegionOverlap))
    );
    assert_eq!(
        layouter.assign_advice(7, c.a, 0, Some(fe(3))),
        Err(SynthesisError::Assignment(AssignmentError::RegionOverlap))
    );
    assert_eq!(
        layouter.assign_advice(second, c.a, usize::MAX, Some(fe(3))),
        Err(SynthesisError::Assignment(AssignmentError::RegionOverlap))
    );
    assert_eq!(layouter.rows(), 3);
}

#[test]
fn operations_check_the_kind_of_their_columns() {
    let (cs, c) = system();
    let mut layouter = Layouter::new(&cs, vec![fe(9)]);
    let region = layouter.region("r".to_string());
    let wrong = Err(SynthesisError::Configuration(ConfigurationError::WrongColumnKind));
    assert_eq!(layouter.assign_advice(region, c.fixed, 0, Some(fe(1))), wrong);
    assert_eq!(layouter.assign_advice(region, c.selector, 0, Some(fe(1))), wrong);
    assert_eq!(layouter.assign_advice(region, c.instance, 0, Some(fe(1))), wrong);
    assert_eq!(
        layouter.enable_selector(region, c.a, 0),
        Err(SynthesisError::Configuration(ConfigurationError::WrongColumnKind))
    );
    assert_eq!(layouter.assign_from_instance(region, c.a, 0, c.a, 0), wrong);
    assert_eq!(layouter.assign_from_instance(region, c.instance, 0, c.plain, 0), wrong);
    assert_eq!(
        layouter.assign_table(&Table::new(c.a, 0)),
        Err(SynthesisError::Configuration(ConfigurationError::WrongColumnKind))
    );
    // Nothing was claimed by the refused calls.
    assert_eq!(layouter.rows(), 0);
}

#[test]
fn an_absent_witness_is_refused_as_an_unassigned_cell() {
    let (cs, c) = system();
    let mut layouter = Layouter::new(&cs, vec![]);
    let region = layouter.region("r".to_string());
    layouter.assign_advice(region, c.a, 0, Some(fe(1))).unwrap();
    assert_eq!(
        layouter.assign_advice(region, c.a, 3, None),
        Err(SynthesisError::UnassignedCell { column: c.a, row: 3, rotation: 0 })
    );
    assert_eq!(layouter.rows(), 1);
}

#[test]
fn enabling_a_selector_twice_changes_nothing() {
    let (cs, c) = system();
    let mut once = Layouter::new(&cs, vec![]);
    let region = once.region("r".to_string());
    once.enable_selector(region, c.selector, 2).unwrap();
    let mut twice = Layouter::new(&cs, vec![]);
    let region = twice.region("r".to_string());
    twice.enable_selector(region, c.selector, 2).unwrap();
    twice.enable_selector(region, c.selector, 2).unwrap();
    assert_eq!(once.rows(), 3);
    assert_eq!(twice.rows(), 3);
    let a = once.finalize(&cs).unwrap();
    let b = twice.finalize(&cs).unwrap();
    assert_eq!(a, b);
    assert!(a.is_enabled(c.selector, 2));
    assert!(!a.is_enabled(c.selector, 1));
}

#[test]
fn copy_constraints_need_enabled_advice_cells_in_regions() {
    let (cs, c) = system();
    let mut layouter = Layouter::new(&cs, vec![]);
    let region = layouter.region("r".to_string());
    let x = layouter.assign_advice(region, c.a, 0, Some(fe(1))).unwrap();
    let y = layouter.assign_advice(region, c.b, 0, Some(fe(1))).unwrap();
    let p = layouter.assign_advice(region, c.plain, 0, Some(fe(1))).unwrap();
    let wrong = Err(SynthesisError::Configuration(ConfigurationError::WrongColumnKind));
    assert_eq!(layouter.copy(x, y), Ok(()));
    assert_eq!(layouter.copy(x, p), wrong);
    assert_eq!(layouter.copy(p, x), wrong);
    assert_eq!(layouter.copy(x, Cell { column: c.fixed, row: 0 }), wrong);
    assert_eq!(
        layouter.copy(x, Cell { column: c.b, row: 1 }),
        Err(SynthesisError::Assignment(AssignmentError::RegionOverlap))
    );
    assert_eq!(
        layouter.constrain_instance(Cell { column: c.a, row: 5 }, c.instance, 0),
        Err(SynthesisError::Assignment(AssignmentError::RegionOverlap))
    );
    assert_eq!(layouter.constrain_instance(p, c.instance, 0), wrong);
    assert_eq!(layouter.constrain_instance(x, c.a, 0), wrong);
    assert_eq!(layouter.constrain_instance(x, c.instance, 0), Ok(()));
}

#[test]
fn a_chain_of_copies_carries_the_value_to_the_cell_in_the_middle() {
    let (cs, c) = system();
    let mut layouter = Layouter::new(&cs, vec![]);
    let region = layouter.region("r".to_string());
    let x = layouter.assign_advice(region, c.a, 0, Some(fe(7))).unwrap();
    let z = layouter.assign_advice(region, c.a, 2, Some(fe(7))).unwrap();
    let y = Cell { column: c.b, row: 1 };
    layouter.copy(x, y).unwrap();
    layouter.copy(y, z).unwrap();
    assert_eq!(layouter.cell_state(x), CellState::Known(fe(7)));
    assert_eq!(layouter.cell_state(y), CellState::Known(fe(7)));
    assert_eq!(layouter.cell_state(z), CellState::Known(fe(7)));
    let table = layouter.finalize(&cs).unwrap();
    assert_eq!(table.stored_value(y), Some(fe(7)));
    assert_eq!(table.stored_value(x), Some(fe(7)));
    assert_eq!(table.rows(), 3);
}

#[test]
fn different_values_in_one_group_are_a_conflict_that_names_the_group() {
    let (cs, c) = system();
    let mut layouter = Layouter::new(&cs, vec![]);
    let region = layouter.region("r".to_string());
    let other = layouter.assign_advice(region, c.b, 0, Some(fe(1))).unwrap();
    let x = layouter.assign_advice(region, c.a, 0, Some(fe(7))).unwrap();
    let z = layouter.assign_advice(region, c.a, 2, Some(fe(8))).unwrap();
    let y = Cell { column: c.b, row: 1 };
    layouter.copy(x, y).unwrap();
    layouter.copy(y, z).unwrap();
    assert_eq!(layouter.cell_state(other), CellState::Known(fe(1)));
    assert_eq!(layouter.cell_state(x), CellState::Conflicted);
    assert_eq!(layouter.cell_state(y), CellState::Conflicted);
    assert_eq!(layouter.cell_state(z), CellState::Conflicted);
    assert_eq!(
        layouter.finalize(&cs),
        Err(SynthesisError::ConflictingAssignment { group: x })
    );
}

#[test]
fn a_group_without_a_value_is_an_unassigned_cell() {
    let (cs, c) = system();
    let mut layouter = Layouter::new(&cs, vec![]);
    let region = layouter.region("r".to_string());
    layouter.assign_advice(region, c.a, 1, Some(fe(7))).unwrap();
    let x = Cell { column: c.a, row: 0 };
    let y = Cell { column: c.b, row: 1 };
    layouter.copy(y, x).unwrap();
    assert_eq!(layouter.cell_state(x), CellState::Unassigned);
    assert_eq!(
        layouter.finalize(&cs),
        Err(SynthesisError::UnassignedCell { column: c.b, row: 1, rotation: 0 })
    );
}

#[test]
fn a_value_from_the_public_input_is_copied_and_bound() {
    let (cs, c) = system();
    let mut layouter = Layouter::new(&cs, vec![fe(11), fe(12)]);
    let region = layouter.region("r".to_string());
    let cell = layouter.assign_from_instance(region, c.instance, 1, c.a, 0).unwrap();
    assert_eq!(cell, Cell { column: c.a, row: 0 });
    assert_eq!(layouter.cell_state(cell), CellState::Known(fe(12)));
    assert_eq!(
        layouter.assign_from_instance(region, c.instance, 0, c.a, 0),
        Err(SynthesisError::Assignment(AssignmentError::CellAlreadyAssigned))
    );
    // A row that the public input does not have leaves the cell without a
    // value, which resolution reports.
    let missing = layouter.assign_from_instance(region, c.instance, 2, c.a, 1).unwrap();
    assert_eq!(layouter.cell_state(missing), CellState::Unassigned);
    assert_eq!(
        layouter.finalize(&cs),
        Err(SynthesisError::UnassignedCell { column: c.a, row: 1, rotation: 0 })
    );
}

#[test]
fn a_table_is_loaded_whole_or_not_at_all() {
    let (cs, c) = system();
    let mut layouter = Layouter::new(&cs, vec![]);
    let mut table = Table::new(c.fixed, 3);
    assert_eq!(table.gap(), Some(0));
    assert_eq!(table.assign_cell(0, fe(10)), Ok(()));
    assert_eq!(table.assign_cell(2, fe(12)), Ok(()));
    assert_eq!(
        table.assign_cell(2, fe(12)),
        Err(SynthesisError::Assignment(AssignmentError::CellAlreadyAssigned))
    );
    assert_eq!(
        table.assign_cell(3, fe(13)),
        Err(SynthesisError::Assignment(AssignmentError::RegionOverlap))
    );
    assert_eq!(table.gap(), Some(1));
    assert_eq!(
        layouter.assign_table(&table),
        Err(SynthesisError::IncompleteTable { column: c.fixed, row: 1 })
    );
    assert_eq!(table.assign_cell(1, fe(11)), Ok(()));
    assert_eq!(table.gap(), None);
    assert_eq!(layouter.assign_table(&table), Ok(()));
    assert_eq!(
        layouter.assign_table(&table),
        Err(SynthesisError::Assignment(AssignmentError::CellAlreadyAssigned))
    );
    assert_eq!(layouter.cell_state(Cell { column: c.fixed, row: 2 }), CellState::Known(fe(12)));
    let resolved = layouter.finalize(&cs).unwrap();
    assert_eq!(resolved.rows(), 0);
    assert_eq!(resolved.stored_value(Cell { column: c.fixed, row: 1 }), Some(fe(11)));
}

#[test]
fn resolution_wants_every_cell_that_an_active_gate_reads() {
    let mut cs = ConstraintSystem::new();
    let a = cs.allocate_column(ColumnKind::Advice).unwrap();
    let s = cs.allocate_column(ColumnKind::Selector).unwrap();
    cs.create_gate(
        "next is the same".to_string(),
        s,
        vec![Constraint {
            name: "same".to_string(),
            expression: Expression::difference(Expression::query(a, 0), Expression::query(a, 1)),
        }],
    )
    .unwrap();
    cs.freeze();
    let mut layouter = Layouter::new(&cs, vec![]);
    let region = layouter.region("r".to_string());
    layouter.assign_advice(region, a, 0, Some(fe(4))).unwrap();
    layouter.assign_advice(region, a, 1, Some(fe(4))).unwrap();
    layouter.enable_selector(region, s, 0).unwrap();
    layouter.enable_selector(region, s, 1).unwrap();
    // Row 1 is gated and reads row 2, which nothing assigned.
    assert_eq!(
        layouter.finalize(&cs),
        Err(SynthesisError::UnassignedCell { column: a, row: 1, rotation: 1 })
    );
}

#[test]
fn resolution_wants_the_table_of_every_lookup() {
    let mut cs = ConstraintSystem::new();
    let a = cs.allocate_column(ColumnKind::Advice).unwrap();
    let t = cs.allocate_column(ColumnKind::Fixed).unwrap();
    cs.create_lookup(Expression::query(a, 0), t).unwrap();
    cs.freeze();
    let layouter = Layouter::new(&cs, vec![]);
    assert_eq!(
        layouter.finalize(&cs),
        Err(SynthesisError::IncompleteTable { column: t, row: 0 })
    );
}

#[test]
fn cell_states_are_written_by_value_or_by_name() {
    assert_eq!(CellState::Known(fe(8)).format(), "0x8");
    assert_eq!(CellState::Unassigned.format(), "unassigned");
    assert_eq!(CellState::Conflicted.format(), "conflicted");
}
