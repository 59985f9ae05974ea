use plonkish::column::{Cell, Column, ColumnKind};
use plonkish::expression::Expression;
use plonkish::field::FieldElement;
use plonkish::layout::{Binding, CellState, Region};
use plonkish::system::{Constraint, ConstraintSystem};
use plonkish::verification::{verify, CellReading, FailureLocation, VerifyFailure};
use plonkish::witness::{rotate, AssignedCell, WitnessTable};

fn fe(v: u64) -> FieldElement {
    FieldElement::from_u64(v)
}

fn advice(index: usize) -> Column {
    Column { kind: ColumnKind::Advice, index }
}

fn cell(column: Column, row: usize, value: u64) -> AssignedCell {
    AssignedCell { cell: Cell { column, row }, value: fe(value) }
}

fn constraint(name: &str, expression: Expression) -> Constraint {
    Constraint { name: name.to_string(), expression }
}

/// Two gates on two selectors: "zero" wants `a = 0` and `b = 0`, "same"
/// wants `a = b`.
fn two_gates() -> (ConstraintSystem, Column, Column) {
    let mut cs = ConstraintSystem::new();
    let a = cs.allocate_column(ColumnKind::Advice).unwrap();
    let b = cs.allocate_column(ColumnKind::Advice).unwrap();
    let zero = cs.allocate_column(ColumnKind::Selector).unwrap();
    let same = cs.allocate_column(ColumnKind::Selector).unwrap();
    cs.create_gate(
        "zero".to_string(),
        zero,
        vec![
            constraint("a is zero", Expression::query(a, 0)),
            constraint("b is zero", Expression::query(b, 0)),
        ],
    )
    .unwrap();
    cs.create_gate(
        "same".to_string(),
        same,
        vec![constraint(
            "a is b",
            Expression::difference(Expression::query(a, 0), Expression::query(b, 0)),
        )],
    )
    .unwrap();
    cs.freeze();
    (cs, zero, same)
}

fn names(failures: &[VerifyFailure]) -> Vec<(usize, String, String)> {
    failures
        .iter()
        .map(|f| match f {
            VerifyFailure::ConstraintNotSatisfied { location, gate_name, constraint_name, .. } => {
                let row = match location {
                    FailureLocation::InRegion { offset, .. } => *offset,
                    FailureLocation::OutsideRegion { row } => *row,
                };
                (row, gate_name.clone(), constraint_name.clone())
            }
            other => panic!("unexpected failure {:?}", other),
        })
        .collect()
}

#[test]
fn violations_come_by_row_then_gate_then_constraint() {
    let (cs, zero, same) = two_gates();
    let cells = vec![
        cell(advice(0), 0, 1),
        cell(advice(1), 0, 2),
        cell(advice(0), 1, 0),
        cell(advice(1), 1, 3),
        cell(advice(0), 2, 4),
        cell(advice(1), 2, 4),
    ];
    let selectors = vec![
        Cell { column: same, row: 1 },
        Cell { column: zero, row: 1 },
        Cell { column: same, row: 0 },
        Cell { column: zero, row: 0 },
        Cell { column: same, row: 2 },
    ];
    let table = WitnessTable::new(3, cells, selectors, vec![], vec![]);
    let failures = verify(&cs, &table, &vec![]);
    let expected: Vec<(usize, String, String)> = [
        (0, "zero", "a is zero"),
        (0, "zero", "b is zero"),
        (0, "same", "a is b"),
        (1, "zero", "b is zero"),
        (1, "same", "a is b"),
    ]
    .iter()
    .map(|(r, g, c)| (*r, g.to_string(), c.to_string()))
    .collect();
    assert_eq!(names(&failures), expected);
}

#[test]
fn a_violation_carries_its_place_and_the_cells_it_read() {
    let (cs, zero, _) = two_gates();
    let regions = vec![
        Region { name: "top".to_string(), start: 0, rows: 2 },
        Region { name: "bottom".to_string(), start: 2, rows: 3 },
    ];
    let cells = vec![cell(advice(0), 3, 0), cell(advice(1), 3, 77), cell(advice(0), 6, 5)];
    let selectors = vec![Cell { column: zero, row: 3 }, Cell { column: zero, row: 6 }];
    let table = WitnessTable::new(7, cells, selectors, regions, vec![]);
    let failures = verify(&cs, &table, &vec![]);
    assert_eq!(
        failures,
        vec![
            VerifyFailure::ConstraintNotSatisfied {
                gate: 0,
                gate_name: "zero".to_string(),
                constraint: 1,
                constraint_name: "b is zero".to_string(),
                location: FailureLocation::InRegion {
                    region: 1,
                    name: "bottom".to_string(),
                    offset: 1
                },
                cell_values: vec![CellReading {
                    column: advice(1),
                    rotation: 0,
                    value: CellState::Known(fe(77))
                }],
            },
            VerifyFailure::ConstraintNotSatisfied {
                gate: 0,
                gate_name: "zero".to_string(),
                constraint: 0,
                constraint_name: "a is zero".to_string(),
                location: FailureLocation::OutsideRegion { row: 6 },
                cell_values: vec![CellReading {
                    column: advice(0),
                    rotation: 0,
                    value: CellState::Known(fe(5))
                }],
            },
            VerifyFailure::ConstraintNotSatisfied {
                gate: 0,
                gate_name: "zero".to_string(),
                constraint: 1,
                constraint_name: "b is zero".to_string(),
                location: FailureLocation::OutsideRegion { row: 6 },
                cell_values: vec![CellReading {
                    column: advice(1),
                    rotation: 0,
                    value: CellState::Unassigned
                }],
            },
        ]
    );
}

#[test]
fn rows_without_the_selector_are_not_constrained() {
    let (cs, zero, _) = two_gates();
    let cells = vec![cell(advice(0), 0, 9), cell(advice(1), 0, 9), cell(advice(0), 1, 0), cell(advice(1), 1, 0)];
    let table = WitnessTable::new(2, cells, vec![Cell { column: zero, row: 1 }], vec![], vec![]);
    assert_eq!(verify(&cs, &table, &vec![]), vec![]);
}

#[test]
fn rows_past_the_table_are_not_verified() {
    let (cs, zero, _) = two_gates();
    let cells = vec![cell(advice(0), 4, 9), cell(advice(1), 4, 9)];
    let table = WitnessTable::new(4, cells, vec![Cell { column: zero, row: 4 }], vec![], vec![]);
    assert_eq!(verify(&cs, &table, &vec![]), vec![]);
}

#[test]
fn verification_is_repeatable() {
    let (cs, zero, same) = two_gates();
    let cells = vec![cell(advice(0), 0, 1), cell(advice(1), 0, 2)];
    let selectors = vec![Cell { column: zero, row: 0 }, Cell { column: same, row: 0 }];
    let bindings = vec![Binding {
        cell: Cell { column: advice(0), row: 0 },
        instance: Column { kind: ColumnKind::Instance, index: 0 },
        row: 0,
    }];
    let table = WitnessTable::new(1, cells, selectors, vec![], bindings);
    let public = vec![fe(5)];
    let first = verify(&cs, &table, &public);
    let second = verify(&cs, &table, &public);
    assert_eq!(first.len(), 4);
    assert_eq!(first, second);
}

#[test]
fn expressions_evaluate_in_the_field() {
    let a = advice(0);
    let s = Column { kind: ColumnKind::Selector, index: 0 };
    let instance = Column { kind: ColumnKind::Instance, index: 0 };
    let cells = vec![cell(a, 0, 3), cell(a, 1, 4), cell(a, 2, 5)];
    let table = WitnessTable::new(3, cells, vec![Cell { column: s, row: 1 }], vec![], vec![]);
    let public = vec![fe(100), fe(200)];
    let at = |e: &Expression, row: usize| table.evaluate(e, &public, row);
    let q = |rotation: i32| Expression::query(a, rotation);
    assert_eq!(at(&Expression::constant(fe(9)), 0), CellState::Known(fe(9)));
    assert_eq!(at(&q(0), 1), CellState::Known(fe(4)));
    assert_eq!(at(&q(-1), 1), CellState::Known(fe(3)));
    assert_eq!(at(&q(1), 1), CellState::Known(fe(5)));
    assert_eq!(at(&q(2), 1), CellState::Unassigned);
    assert_eq!(at(&q(-1), 0), CellState::Unassigned);
    assert_eq!(at(&Expression::selector(s), 0), CellState::Known(fe(0)));
    assert_eq!(at(&Expression::selector(s), 1), CellState::Known(fe(1)));
    assert_eq!(at(&Expression::sum(q(0), q(1)), 0), CellState::Known(fe(7)));
    assert_eq!(at(&Expression::product(q(0), q(1)), 1), CellState::Known(fe(20)));
    assert_eq!(at(&Expression::difference(q(1), q(0)), 0), CellState::Known(fe(1)));
    assert_eq!(at(&Expression::negate(q(0)), 0), CellState::Known(fe(3).negated()));
    assert_eq!(at(&Expression::scale(q(0), fe(6)), 2), CellState::Known(fe(30)));
    assert_eq!(at(&Expression::sum(q(0), q(1)), 2), CellState::Unassigned);
    assert_eq!(at(&Expression::query(instance, 0), 1), CellState::Known(fe(200)));
    assert_eq!(at(&Expression::query(instance, 1), 1), CellState::Unassigned);
    assert_eq!(at(&Expression::query(s, 0), 1), CellState::Unassigned);
}

#[test]
fn a_row_past_the_table_holds_nothing() {
    let a = advice(0);
    let fixed = Column { kind: ColumnKind::Fixed, index: 0 };
    let instance = Column { kind: ColumnKind::Instance, index: 0 };
    let cells = vec![cell(a, 0, 3), cell(a, 1, 4), cell(fixed, 1, 8), cell(fixed, 2, 9)];
    let table = WitnessTable::new(2, cells, vec![], vec![], vec![]);
    let public = vec![fe(5), fe(6), fe(7)];
    assert_eq!(table.cell_state(&public, a, 1), CellState::Known(fe(4)));
    assert_eq!(table.cell_state(&public, fixed, 1), CellState::Known(fe(8)));
    assert_eq!(table.cell_state(&public, fixed, 2), CellState::Unassigned);
    assert_eq!(table.cell_state(&public, instance, 1), CellState::Known(fe(6)));
    assert_eq!(table.cell_state(&public, instance, 2), CellState::Unassigned);
    assert_eq!(table.stored_value(Cell { column: fixed, row: 2 }), Some(fe(9)));
    assert_eq!(
        table.evaluate(&Expression::query(fixed, 1), &public, 1),
        CellState::Unassigned
    );
}

#[test]
fn rotations_stay_in_the_table() {
    assert_eq!(rotate(5, 0), Some(5));
    assert_eq!(rotate(5, 2), Some(7));
    assert_eq!(rotate(5, -5), Some(0));
    assert_eq!(rotate(5, -6), None);
    assert_eq!(rotate(usize::MAX, 1), None);
    assert_eq!(rotate(usize::MAX, -1), Some(usize::MAX - 1));
    assert_eq!(rotate(0, i32::MIN), None);
}

#[test]
fn a_lookup_is_by_membership_and_only_where_gated() {
    let mut cs = ConstraintSystem::new();
    let a = cs.allocate_column(ColumnKind::Advice).unwrap();
    let t = cs.allocate_column(ColumnKind::Fixed).unwrap();
    let q = cs.allocate_column(ColumnKind::Selector).unwrap();
    cs.create_lookup(
        Expression::product(Expression::selector(q), Expression::query(a, 0)),
        t,
    )
    .unwrap();
    cs.freeze();
    let cells = vec![
        cell(t, 0, 30),
        cell(t, 1, 10),
        cell(t, 2, 20),
        cell(a, 0, 20),
        cell(a, 1, 10),
        cell(a, 2, 11),
        cell(a, 3, 12),
    ];
    let selectors = vec![
        Cell { column: q, row: 0 },
        Cell { column: q, row: 1 },
        Cell { column: q, row: 2 },
        Cell { column: q, row: 4 },
    ];
    let table = WitnessTable::new(5, cells, selectors, vec![], vec![]);
    assert_eq!(
        verify(&cs, &table, &vec![]),
        vec![
            VerifyFailure::LookupFailure {
                lookup: 0,
                location: FailureLocation::OutsideRegion { row: 2 },
                value: CellState::Known(fe(11)),
            },
            VerifyFailure::LookupFailure {
                lookup: 0,
                location: FailureLocation::OutsideRegion { row: 4 },
                value: CellState::Unassigned,
            },
        ]
    );
}

#[test]
fn bound_cells_are_held_against_the_public_input() {
    let cs = ConstraintSystem::new();
    let instance = Column { kind: ColumnKind::Instance, index: 0 };
    let a = advice(0);
    let cells = vec![cell(a, 0, 7), cell(a, 1, 8)];
    let bind = |row: usize, public: usize| Binding { cell: Cell { column: a, row }, instance, row: public };
    let bindings = vec![bind(0, 0), bind(1, 0), bind(1, 1), bind(2, 0), bind(0, 5)];
    let table = WitnessTable::new(2, cells, vec![], vec![], bindings);
    let mismatch = |binding: usize, row: usize, public: usize| VerifyFailure::PublicInputMismatch {
        binding,
        cell: Cell { column: a, row },
        instance,
        row: public,
    };
    assert_eq!(
        verify(&cs, &table, &vec![fe(7), fe(8)]),
        vec![mismatch(1, 1, 0), mismatch(3, 2, 0), mismatch(4, 0, 5)]
    );
    assert_eq!(
        verify(&cs, &table, &vec![]),
        vec![mismatch(0, 0, 0), mismatch(1, 1, 0), mismatch(2, 1, 1), mismatch(3, 2, 0), mismatch(4, 0, 5)]
    );
}
