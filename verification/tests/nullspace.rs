use conservation::ident::{AxisId, KindId};
use conservation::law::Provenance;
use conservation::linear::{derive_left_nullspace, MatrixError, NullspaceSource, TransitionMatrix};
use conservation::rational::Rational;

fn axis(value: &str) -> AxisId {
    AxisId::new(value).unwrap()
}

fn kind(value: &str) -> KindId {
    KindId::new(value).unwrap()
}

fn q(value: i64) -> Rational {
    Rational::from_integer(value)
}

fn closed_flow_matrix(axes: [AxisId; 3]) -> TransitionMatrix {
    let rows = axes
        .iter()
        .map(|axis| match axis.as_str() {
            "A" => vec![q(-1), q(0), q(1)],
            "B" => vec![q(1), q(-1), q(0)],
            "C" => vec![q(0), q(1), q(-1)],
            _ => unreachable!(),
        })
        .collect();
    TransitionMatrix::new(axes.to_vec(), rows).unwrap()
}

#[test]
fn closed_flow_network_has_total_amount_conservation_law() {
    let axes = [axis("A"), axis("B"), axis("C")];
    let matrix = closed_flow_matrix(axes.clone());
    let laws = derive_left_nullspace(&matrix, kind("amount"), NullspaceSource::Incidence).unwrap();

    assert_eq!(laws.len(), 1);
    assert_eq!(laws[0].provenance(), &Provenance::IncidenceNullspace);
    for axis in axes {
        assert_eq!(laws[0].coefficient(&axis), q(1));
    }
}

#[test]
fn jointly_permuted_axes_and_rows_produce_identical_named_laws() {
    let canonical = closed_flow_matrix([axis("A"), axis("B"), axis("C")]);
    let permuted = closed_flow_matrix([axis("C"), axis("A"), axis("B")]);

    assert_eq!(canonical.axes(), permuted.axes());
    assert_eq!(
        derive_left_nullspace(&canonical, kind("amount"), NullspaceSource::Incidence).unwrap(),
        derive_left_nullspace(&permuted, kind("amount"), NullspaceSource::Incidence).unwrap()
    );
}

#[test]
fn rational_matrix_is_reduced_to_a_primitive_integer_vector_space_basis() {
    let x = axis("x");
    let y = axis("y");
    let matrix = TransitionMatrix::new(
        vec![x.clone(), y.clone()],
        vec![vec![Rational::new(-1, 2)], vec![Rational::new(1, 3)]],
    )
    .unwrap();

    let laws = derive_left_nullspace(&matrix, kind("charge"), NullspaceSource::Stoichiometric).unwrap();

    assert_eq!(laws.len(), 1);
    assert_eq!(laws[0].coefficient(&x), q(2));
    assert_eq!(laws[0].coefficient(&y), q(3));
}

#[test]
fn zero_matrix_has_one_canonical_law_per_axis() {
    let a = axis("A");
    let b = axis("B");
    let matrix = TransitionMatrix::new(vec![a.clone(), b.clone()], vec![vec![q(0)], vec![q(0)]]).unwrap();
    let laws = derive_left_nullspace(&matrix, kind("amount"), NullspaceSource::Incidence).unwrap();

    assert_eq!(laws.len(), 2);
    assert_eq!(laws[0].coefficient(&a), q(1));
    assert_eq!(laws[0].coefficient(&b), q(0));
    assert_eq!(laws[1].coefficient(&a), q(0));
    assert_eq!(laws[1].coefficient(&b), q(1));
}

#[test]
fn full_rank_matrix_has_no_conservation_law() {
    let matrix =
        TransitionMatrix::new(vec![axis("A"), axis("B")], vec![vec![q(1), q(0)], vec![q(0), q(1)]]).unwrap();

    assert!(derive_left_nullspace(&matrix, kind("amount"), NullspaceSource::Incidence).unwrap().is_empty());
}

#[test]
fn dependent_rows_have_a_deterministic_multivector_basis() {
    let a = axis("A");
    let b = axis("B");
    let c = axis("C");
    let matrix = TransitionMatrix::new(
        vec![a.clone(), b.clone(), c.clone()],
        vec![vec![q(1), q(2)], vec![q(2), q(4)], vec![q(3), q(6)]],
    )
    .unwrap();
    let laws = derive_left_nullspace(&matrix, kind("amount"), NullspaceSource::Incidence).unwrap();

    assert_eq!(laws.len(), 2);
    assert_eq!(laws[0].coefficient(&a), q(2));
    assert_eq!(laws[0].coefficient(&b), q(-1));
    assert_eq!(laws[0].coefficient(&c), q(0));
    assert_eq!(laws[1].coefficient(&a), q(3));
    assert_eq!(laws[1].coefficient(&b), q(0));
    assert_eq!(laws[1].coefficient(&c), q(-1));
}

#[test]
fn malformed_matrices_are_rejected() {
    assert_eq!(TransitionMatrix::new(vec![], vec![]), Err(MatrixError::NoAxes));
    assert_eq!(TransitionMatrix::new(vec![axis("A")], vec![vec![]]), Err(MatrixError::NoTransitions));
    assert_eq!(
        TransitionMatrix::new(vec![axis("A")], vec![]),
        Err(MatrixError::AxisRowCount { axes: 1, rows: 0 })
    );
    assert_eq!(
        TransitionMatrix::new(vec![axis("A"), axis("B")], vec![vec![q(1)], vec![q(2), q(3)]]),
        Err(MatrixError::RaggedRows { row: 1, expected: 1, actual: 2 })
    );
    assert_eq!(
        TransitionMatrix::new(vec![axis("A"), axis("A")], vec![vec![q(1)], vec![q(-1)]]),
        Err(MatrixError::DuplicateAxis(axis("A")))
    );
}

#[test]
fn scaled_closed_flow_network_keeps_the_canonical_law() {
    for scale in [1_i64, 7, 9_999] {
        let axes = [axis("A"), axis("B"), axis("C")];
        let matrix = TransitionMatrix::new(
            axes.to_vec(),
            vec![
                vec![q(-scale), q(0), q(scale)],
                vec![q(scale), q(-scale), q(0)],
                vec![q(0), q(scale), q(-scale)],
            ],
        )
        .unwrap();
        let laws = derive_left_nullspace(&matrix, kind("amount"), NullspaceSource::Stoichiometric).unwrap();
        assert_eq!(laws.len(), 1);
        assert_eq!(laws[0].provenance(), &Provenance::StoichiometricNullspace);
        for axis in axes {
            assert_eq!(laws[0].coefficient(&axis), q(1));
        }
    }
}

#[test]
fn derived_laws_annihilate_every_transition() {
    let axes = vec![axis("x0"), axis("x1"), axis("x2"), axis("x3")];
    let raw = [[1_i64, -2, 0], [0, 3, -1], [2, -1, -1], [1, 1, -1]];
    let rows = raw.iter().map(|row| row.iter().map(|value| q(*value)).collect()).collect();
    let matrix = TransitionMatrix::new(axes.clone(), rows).unwrap();
    let laws = derive_left_nullspace(&matrix, kind("amount"), NullspaceSource::Stoichiometric).unwrap();
    assert!(!laws.is_empty());
    for law in &laws {
        for transition in 0..matrix.transition_count() {
            let mut total = q(0);
            for (row, axis) in matrix.axes().iter().enumerate() {
                total = total.add(&law.coefficient(axis).mul(matrix.entry(row, transition).unwrap()));
            }
            assert!(total.is_zero());
        }
    }
}

#[test]
fn the_row_order_of_the_input_does_not_matter() {
    let matrix = TransitionMatrix::new(vec![axis("b"), axis("a")], vec![vec![q(5)], vec![q(7)]]).unwrap();
    assert_eq!(matrix.axes(), &[axis("a"), axis("b")]);
    assert_eq!(matrix.entry(0, 0), Some(&q(7)));
    assert_eq!(matrix.entry(1, 0), Some(&q(5)));
    assert_eq!(matrix.entry(2, 0), None);
    assert_eq!(matrix.entry(0, 1), None);
}
