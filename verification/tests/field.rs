use plonkish::field::FieldElement;

#[test]
fn small_values_add_and_multiply() {
    let a = FieldElement::from_u64(20);
    let b = FieldElement::from_u64(22);
    assert_eq!(a.plus(&b), FieldElement::from_u64(42));
    assert_eq!(a.times(&b), FieldElement::from_u64(440));
    assert_eq!(b.minus(&a), FieldElement::from_u64(2));
    assert!(a.equals(&FieldElement::from_u64(20)));
    assert!(!a.equals(&b));
}

#[test]
fn negation_is_the_additive_inverse() {
    let a = FieldElement::from_u64(7);
    assert!(a.plus(&a.negated()).is_zero());
    assert!(FieldElement::zero().negated().is_zero());
    assert_eq!(FieldElement::zero().minus(&FieldElement::one()), FieldElement::one().negated());
}

#[test]
fn arithmetic_wraps_at_the_field_order() {
    let one = FieldElement::one();
    let two = FieldElement::from_u64(2);
    let minus_one = one.negated();
    assert_eq!(minus_one.plus(&two), one);
    assert_eq!(minus_one.times(&minus_one), one);
    assert_eq!(one.minus(&two), minus_one);
    let m = FieldElement::from_u64(u64::MAX);
    assert_eq!(m.times(&m).format(), "0xfffffffffffffffe0000000000000001");
}

#[test]
fn values_are_written_as_the_report_shows_them() {
    assert_eq!(FieldElement::zero().format(), "0");
    assert_eq!(FieldElement::one().format(), "1");
    assert_eq!(FieldElement::one().negated().format(), "-1");
    assert_eq!(FieldElement::from_u64(2).format(), "0x2");
    assert_eq!(FieldElement::from_u64(8).format(), "0x8");
    assert_eq!(FieldElement::from_u64(16).format(), "0x10");
    assert_eq!(FieldElement::from_u64(255).format(), "0xff");
    assert_eq!(FieldElement::from_u64(0x1234_5678_9abc_def0).format(), "0x123456789abcdef0");
    assert_eq!(
        FieldElement::from_u64(2).negated().format(),
        "0x40000000000000000000000000000000224698fc094cf91b992d30ecffffffff"
    );
}

#[test]
fn zero_and_one_are_the_identities() {
    let a = FieldElement::from_u64(123_456);
    assert_eq!(a.plus(&FieldElement::zero()), a);
    assert_eq!(a.times(&FieldElement::one()), a);
    assert!(a.times(&FieldElement::zero()).is_zero());
    assert!(FieldElement::zero().is_zero());
    assert!(!FieldElement::one().is_zero());
}
