use conservation::ident::{AxisId, IdentifierError, KindId};
use conservation::law::{BalanceLaw, BalanceLawError, Grade, GradedLaw, Provenance};
use conservation::rational::Rational;

fn axis(value: &str) -> AxisId {
    AxisId::new(value).unwrap()
}

fn kind(value: &str) -> KindId {
    KindId::new(value).unwrap()
}

fn q(value: i64) -> Rational {
    Rational::from_integer(value)
}

#[test]
fn identifiers_reject_empty_and_whitespace_only_text() {
    assert_eq!(AxisId::new(""), Err(IdentifierError::Blank));
    assert_eq!(AxisId::new(" \t\n"), Err(IdentifierError::Blank));
    assert_eq!(KindId::new(""), Err(IdentifierError::Blank));
    assert_eq!(KindId::new("  "), Err(IdentifierError::Blank));
}

#[test]
fn balance_law_keeps_exact_coefficients_and_origin_metadata() {
    let amount = kind("amount");
    let source = axis("source");
    let sink = axis("sink");
    let half = Rational::new(1, 2);

    let law = BalanceLaw::new(
        amount.clone(),
        vec![(source.clone(), half.clone()), (sink.clone(), half.clone())],
        Provenance::Declared,
    )
    .unwrap();

    assert_eq!(law.kind(), &amount);
    assert_eq!(law.coefficient(&source), half);
    assert_eq!(law.coefficient(&sink), half);
    assert_eq!(law.provenance(), &Provenance::Declared);
}

#[test]
fn balance_law_rejects_empty_and_fully_cancelled_coefficients() {
    assert_eq!(
        BalanceLaw::new(kind("amount"), vec![], Provenance::Declared),
        Err(BalanceLawError::Empty)
    );

    let x = axis("x");
    assert_eq!(
        BalanceLaw::new(kind("amount"), vec![(x.clone(), q(0))], Provenance::Declared),
        Err(BalanceLawError::Empty)
    );
    assert_eq!(
        BalanceLaw::new(kind("amount"), vec![(x.clone(), q(7)), (x, q(-7))], Provenance::Declared),
        Err(BalanceLawError::Empty)
    );
}

#[test]
fn graded_law_keeps_its_form_and_grade() {
    let form = BalanceLaw::new(
        kind("energy"),
        vec![(axis("reservoir"), q(1)), (axis("dissipated"), q(1))],
        Provenance::Declared,
    )
    .unwrap();

    let sentence = GradedLaw::new(form.clone(), Grade::Nondecreasing);
    assert_eq!(sentence.form(), &form);
    assert_eq!(sentence.grade(), Grade::Nondecreasing);

    let lifted = GradedLaw::from(form.clone());
    assert_eq!(lifted.form(), &form);
    assert_eq!(lifted.grade(), Grade::Invariant);
    assert_ne!(lifted, sentence);
}

#[test]
fn grades_are_distinct_and_named() {
    assert_ne!(Grade::Invariant, Grade::Nonnegative);
    assert_ne!(Grade::Nonnegative, Grade::Nondecreasing);
    assert_eq!(Grade::Invariant.to_string(), "invariant");
    assert_eq!(Grade::Nonnegative.to_string(), "nonnegative");
    assert_eq!(Grade::Nondecreasing.to_string(), "nondecreasing");
}

#[test]
fn provenance_sources_remain_distinct_origin_metadata() {
    assert_ne!(Provenance::IncidenceNullspace, Provenance::StoichiometricNullspace);
    assert_ne!(Provenance::ForcedBalance, Provenance::Noether);
}

#[test]
fn repeated_axes_combine_before_zero_terms_are_dropped() {
    let x = axis("x");
    let y = axis("y");
    let law = BalanceLaw::new(
        kind("amount"),
        vec![(y.clone(), q(2)), (x.clone(), q(3)), (y.clone(), q(-2)), (x.clone(), q(1))],
        Provenance::Declared,
    )
    .unwrap();
    assert_eq!(law.coefficient(&x), q(4));
    assert_eq!(law.coefficient(&y), q(0));
    assert_eq!(law.coefficients().len(), 1);
    assert_eq!(law.coefficients()[0].0, x);
}

#[test]
fn identifiers_keep_their_text_and_compare_by_text() {
    let a = axis("alpha");
    assert_eq!(a.as_str(), "alpha");
    assert!(a.precedes(&axis("beta")));
    assert!(!axis("beta").precedes(&a));
    assert!(!a.precedes(&axis("alpha")));
    assert!(a.same(&axis("alpha")));
    assert_eq!(IdentifierError::Blank.message(), "identifier must contain non-whitespace text");
}
