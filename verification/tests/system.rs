use plonkish::column::{Column, ColumnKind};
use plonkish::expression::Expression;
use plonkish::field::FieldElement;
use plonkish::system::{ConfigurationError, Constraint, ConstraintSystem};

fn constraint(name: &str, expression: Expression) -> Constraint {
    Constraint { name: name.to_string(), expression }
}

#[test]
fn columns_are_numbered_within_their_kind() {
    let mut cs = ConstraintSystem::new();
    let a0 = cs.allocate_column(ColumnKind::Advice).unwrap();
    let s0 = cs.allocate_column(ColumnKind::Selector).unwrap();
    let a1 = cs.allocate_column(ColumnKind::Advice).unwrap();
    let i0 = cs.allocate_column(ColumnKind::Instance).unwrap();
    let f0 = cs.allocate_column(ColumnKind::Fixed).unwrap();
    let s1 = cs.allocate_column(ColumnKind::Selector).unwrap();
    assert_eq!(a0, Column { kind: ColumnKind::Advice, index: 0 });
    assert_eq!(a1, Column { kind: ColumnKind::Advice, index: 1 });
    assert_eq!(s0, Column { kind: ColumnKind::Selector, index: 0 });
    assert_eq!(s1, Column { kind: ColumnKind::Selector, index: 1 });
    assert_eq!(i0, Column { kind: ColumnKind::Instance, index: 0 });
    assert_eq!(f0, Column { kind: ColumnKind::Fixed, index: 0 });
}

#[test]
fn a_frozen_system_refuses_every_registration() {
    let mut cs = ConstraintSystem::new();
    let advice = cs.allocate_column(ColumnKind::Advice).unwrap();
    let selector = cs.allocate_column(ColumnKind::Selector).unwrap();
    let fixed = cs.allocate_column(ColumnKind::Fixed).unwrap();
    assert!(!cs.is_frozen());
    cs.freeze();
    assert!(cs.is_frozen());
    assert_eq!(cs.allocate_column(ColumnKind::Advice), Err(ConfigurationError::Frozen));
    assert_eq!(cs.enable_equality(advice), Err(ConfigurationError::Frozen));
    assert_eq!(
        cs.create_gate("g".to_string(), selector, vec![constraint("c", Expression::query(advice, 0))]),
        Err(ConfigurationError::Frozen)
    );
    assert_eq!(
        cs.create_lookup(Expression::query(advice, 0), fixed),
        Err(ConfigurationError::Frozen)
    );
    assert_eq!(cs.gates().len(), 0);
    assert_eq!(cs.lookups().len(), 0);
    assert_eq!(cs.equality_columns().len(), 0);
}

#[test]
fn equality_is_for_advice_and_instance_columns_only() {
    let mut cs = ConstraintSystem::new();
    let advice = cs.allocate_column(ColumnKind::Advice).unwrap();
    let instance = cs.allocate_column(ColumnKind::Instance).unwrap();
    let fixed = cs.allocate_column(ColumnKind::Fixed).unwrap();
    let selector = cs.allocate_column(ColumnKind::Selector).unwrap();
    assert_eq!(cs.enable_equality(advice), Ok(()));
    assert_eq!(cs.enable_equality(instance), Ok(()));
    assert_eq!(cs.enable_equality(advice), Ok(()));
    assert_eq!(cs.enable_equality(fixed), Err(ConfigurationError::WrongColumnKind));
    assert_eq!(cs.enable_equality(selector), Err(ConfigurationError::WrongColumnKind));
    assert_eq!(cs.equality_columns(), &vec![advice, instance]);
}

#[test]
fn a_gate_needs_a_selector_and_well_kinded_constraints() {
    let mut cs = ConstraintSystem::new();
    let advice = cs.allocate_column(ColumnKind::Advice).unwrap();
    let selector = cs.allocate_column(ColumnKind::Selector).unwrap();
    assert_eq!(
        cs.create_gate("g".to_string(), advice, vec![constraint("c", Expression::query(advice, 0))]),
        Err(ConfigurationError::WrongColumnKind)
    );
    assert_eq!(
        cs.create_gate(
            "g".to_string(),
            selector,
            vec![constraint("c", Expression::query(selector, 0))]
        ),
        Err(ConfigurationError::WrongColumnKind)
    );
    assert_eq!(
        cs.create_gate(
            "g".to_string(),
            selector,
            vec![constraint(
                "c",
                Expression::sum(Expression::query(advice, 0), Expression::selector(advice))
            )]
        ),
        Err(ConfigurationError::WrongColumnKind)
    );
    assert_eq!(cs.gates().len(), 0);
    assert_eq!(
        cs.create_gate(
            "g".to_string(),
            selector,
            vec![constraint(
                "c",
                Expression::scale(Expression::query(advice, -1), FieldElement::from_u64(3))
            )]
        ),
        Ok(())
    );
    assert_eq!(cs.gates().len(), 1);
    assert_eq!(cs.gates()[0].name, "g");
    assert_eq!(cs.gates()[0].selector, selector);
    assert_eq!(cs.gates()[0].constraints.len(), 1);
}

#[test]
fn a_lookup_needs_a_fixed_table_column() {
    let mut cs = ConstraintSystem::new();
    let advice = cs.allocate_column(ColumnKind::Advice).unwrap();
    let fixed = cs.allocate_column(ColumnKind::Fixed).unwrap();
    assert_eq!(
        cs.create_lookup(Expression::query(advice, 0), advice),
        Err(ConfigurationError::WrongColumnKind)
    );
    assert_eq!(
        cs.create_lookup(Expression::selector(advice), fixed),
        Err(ConfigurationError::WrongColumnKind)
    );
    assert_eq!(cs.create_lookup(Expression::query(advice, 0), fixed), Ok(()));
    assert_eq!(cs.lookups().len(), 1);
    assert_eq!(cs.lookups()[0].table, fixed);
    assert_eq!(cs.lookups()[0].input, Expression::query(advice, 0));
}

#[test]
fn expressions_are_copied_and_read_for_their_queries() {
    let mut cs = ConstraintSystem::new();
    let a = cs.allocate_column(ColumnKind::Advice).unwrap();
    let b = cs.allocate_column(ColumnKind::Advice).unwrap();
    let e = Expression::product(
        Expression::difference(Expression::query(a, 0), Expression::query(b, 1)),
        Expression::sum(Expression::query(b, 1), Expression::negate(Expression::query(a, 0))),
    );
    assert_eq!(e.duplicate(), e);
    assert!(e.is_well_kinded());
    let mut queries = vec![];
    e.collect_queries(&mut queries);
    assert_eq!(
        queries,
        vec![
            plonkish::column::Query { column: a, rotation: 0 },
            plonkish::column::Query { column: b, rotation: 1 }
        ]
    );
}
