use conservation::declarations::{validate_declarations, Declaration, DeclarationError};
use conservation::rational::Rational;

fn declaration(dimensions: &[(&str, i32)], floor: Option<&str>, difference: Option<&str>) -> Declaration {
    Declaration {
        dimensions: dimensions.iter().map(|(base, power)| (base.to_string(), *power)).collect(),
        floor: floor.map(str::to_string),
        difference: difference.map(str::to_string),
    }
}

fn thermal() -> Vec<(String, Declaration)> {
    vec![
        ("energy".to_string(), declaration(&[("L", 2), ("M", 1), ("T", -2)], Some("0"), None)),
        ("temperature".to_string(), declaration(&[("K", 1)], Some("0"), Some("temperature_delta"))),
        ("temperature_delta".to_string(), declaration(&[("K", 1)], None, None)),
    ]
}

#[test]
fn valid_declarations_build_a_table_over_the_sorted_bases() {
    let table = validate_declarations(thermal(), vec![Some(Rational::zero()), Some(Rational::zero()), None]).unwrap();
    assert_eq!(table.bases, vec!["K".to_string(), "L".to_string(), "M".to_string(), "T".to_string()]);
    assert_eq!(table.kinds.len(), 3);
    assert_eq!(table.kinds[0].name, "energy");
    assert_eq!(table.kinds[0].powers, vec![0, 2, 1, -2]);
    assert_eq!(table.kinds[0].floor, Some(Rational::zero()));
    assert_eq!(table.kinds[0].difference, None);
    assert_eq!(table.kinds[1].powers, vec![1, 0, 0, 0]);
    assert_eq!(table.kinds[1].difference, Some(2));
    assert_eq!(table.kinds[2].floor, None);
}

#[test]
fn each_declaration_error_names_its_kind() {
    let blank = vec![(" ".to_string(), declaration(&[("L", 1)], None, None))];
    assert_eq!(validate_declarations(blank, vec![None]).unwrap_err(), DeclarationError::BlankKind { name: " ".to_string() });

    let blank_base = vec![("length".to_string(), declaration(&[("", 1)], None, None))];
    assert_eq!(
        validate_declarations(blank_base, vec![None]).unwrap_err(),
        DeclarationError::BlankBase { kind: "length".to_string() }
    );

    let zero = vec![("length".to_string(), declaration(&[("L", 0)], None, None))];
    assert_eq!(
        validate_declarations(zero, vec![None]).unwrap_err(),
        DeclarationError::ZeroExponent { kind: "length".to_string(), base: "L".to_string() }
    );

    let inexact = vec![("length".to_string(), declaration(&[("L", 1)], Some("nan"), None))];
    assert_eq!(
        validate_declarations(inexact, vec![None]).unwrap_err(),
        DeclarationError::InvalidFloor { kind: "length".to_string(), value: "nan".to_string() }
    );

    let unknown = vec![("temperature".to_string(), declaration(&[("K", 1)], None, Some("delta")))];
    assert_eq!(
        validate_declarations(unknown, vec![None]).unwrap_err(),
        DeclarationError::UnknownDifference { kind: "temperature".to_string(), difference: "delta".to_string() }
    );

    let point = vec![
        ("a".to_string(), declaration(&[("K", 1)], None, Some("b"))),
        ("b".to_string(), declaration(&[("K", 1)], None, Some("a"))),
    ];
    assert_eq!(
        validate_declarations(point, vec![None, None]).unwrap_err(),
        DeclarationError::DifferenceIsPoint { kind: "a".to_string(), difference: "b".to_string() }
    );

    let dimensions = vec![
        ("a".to_string(), declaration(&[("K", 1)], None, Some("b"))),
        ("b".to_string(), declaration(&[("K", 2)], None, None)),
    ];
    assert_eq!(
        validate_declarations(dimensions, vec![None, None]).unwrap_err(),
        DeclarationError::DifferenceDimensions { kind: "a".to_string(), difference: "b".to_string() }
    );
}

#[test]
fn malformed_names_are_reported_before_any_floor_or_difference() {
    let declarations = vec![
        ("a".to_string(), declaration(&[("K", 1)], Some("x"), None)),
        ("b".to_string(), declaration(&[("K", 0)], None, None)),
    ];
    assert_eq!(
        validate_declarations(declarations, vec![None, None]).unwrap_err(),
        DeclarationError::ZeroExponent { kind: "b".to_string(), base: "K".to_string() }
    );
}
