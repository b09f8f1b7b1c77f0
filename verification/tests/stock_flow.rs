use std::sync::Arc;

use conservation::carrier::{
    ChannelId, ExactAmounts, LedgerDefinition, StockAxisDefinition, StockFlowCarrier, StockFlowError, SymbolId, ValueRole,
};
use conservation::certificate::{certify_nullspace, check_open_balance, derive_nullspace_basis, OpenBalanceVerdict};
use conservation::dynamics::{FlowSpec, FlowTopology, StockDefinition};
use conservation::evidence::{
    check_boundary_correspondence, check_graded_state_law, check_linear_flow_constraint, check_transition_equation,
    BoundaryCorrespondence, BoundaryVerdict, FlowConstraintVerdict, GradedStateLaw, LinearFlowConstraint, TransitionEquation,
    TransitionVerdict,
};
use conservation::exact::ExactState;
use conservation::ident::{AxisId, BoundaryId, FlowId, KindId, LedgerId, ProcessId, SentenceId, StockId};
use conservation::law::{BalanceLaw, Grade, GradedLaw, Provenance};
use conservation::linear::MatrixError;
use conservation::rational::Rational;
use conservation::record::{TransitionRecord, TransitionRecordData, TransitionTrace};
use conservation::suite::{StockFlowLawSuite, SuiteVerdict};
use conservation::trace::{LawVerdict, LawViolation, TraceError};

fn q(value: i64) -> Rational {
    Rational::from_integer(value)
}

fn kind() -> KindId {
    KindId::new("material").unwrap()
}

fn stock(value: &str) -> StockId {
    StockId::new(value).unwrap()
}

fn axis(value: &str) -> AxisId {
    AxisId::new(value).unwrap()
}

fn flow(value: &str) -> FlowId {
    FlowId::new(value).unwrap()
}

fn boundary(value: &str) -> BoundaryId {
    BoundaryId::new(value).unwrap()
}

fn ledger(value: &str) -> LedgerId {
    LedgerId::new(value).unwrap()
}

fn sentence(value: &str) -> SentenceId {
    SentenceId::new(value).unwrap()
}

fn topology(reordered: bool) -> Arc<FlowTopology<KindId>> {
    let material = kind();
    let a = StockDefinition { id: stock("A"), kind: material.clone() };
    let b = StockDefinition { id: stock("B"), kind: material.clone() };
    let f1 = FlowSpec {
        process: ProcessId::new("transfer-1").unwrap(),
        kind: material.clone(),
        source: Some(stock("A")),
        target: Some(stock("B")),
    };
    let f2 = FlowSpec {
        process: ProcessId::new("transfer-2").unwrap(),
        kind: material.clone(),
        source: Some(stock("A")),
        target: Some(stock("B")),
    };
    let input = FlowSpec {
        process: ProcessId::new("input").unwrap(),
        kind: material.clone(),
        source: None,
        target: Some(stock("A")),
    };
    let output = FlowSpec {
        process: ProcessId::new("output").unwrap(),
        kind: material,
        source: Some(stock("B")),
        target: None,
    };
    let (stocks, flows) = if reordered {
        (vec![b, a], vec![output, input, f2, f1])
    } else {
        (vec![a, b], vec![f1, f2, input, output])
    };
    Arc::new(FlowTopology::new(stocks, flows, vec![]).unwrap())
}

fn stock_axes() -> Vec<StockAxisDefinition> {
    vec![
        StockAxisDefinition { stock: stock("B"), axis: axis("B") },
        StockAxisDefinition { stock: stock("A"), axis: axis("A") },
    ]
}

fn ledger_definitions() -> Vec<LedgerDefinition> {
    vec![
        LedgerDefinition {
            id: ledger("input-ledger"),
            axis: axis("cumulative-input"),
            kind: kind(),
            boundaries: vec![boundary("in")],
        },
        LedgerDefinition {
            id: ledger("output-ledger"),
            axis: axis("cumulative-output"),
            kind: kind(),
            boundaries: vec![boundary("out")],
        },
    ]
}

fn carrier(reordered: bool) -> Arc<StockFlowCarrier> {
    let channels = if reordered {
        vec![
            ChannelId::Boundary(boundary("out")),
            ChannelId::Boundary(boundary("in")),
            ChannelId::Internal(flow("f2")),
            ChannelId::Internal(flow("f1")),
        ]
    } else {
        vec![
            ChannelId::Internal(flow("f1")),
            ChannelId::Internal(flow("f2")),
            ChannelId::Boundary(boundary("in")),
            ChannelId::Boundary(boundary("out")),
        ]
    };
    Arc::new(StockFlowCarrier::new(topology(reordered), stock_axes(), channels, ledger_definitions()).unwrap())
}

fn stocks(a: i64, b: i64) -> ExactAmounts<AxisId> {
    ExactAmounts::new(vec![(axis("A"), kind(), q(a)), (axis("B"), kind(), q(b))]).unwrap()
}

fn internals(f1: i64, f2: i64) -> ExactAmounts<FlowId> {
    ExactAmounts::new(vec![(flow("f1"), kind(), q(f1)), (flow("f2"), kind(), q(f2))]).unwrap()
}

fn boundaries(input: i64, output: i64) -> ExactAmounts<BoundaryId> {
    ExactAmounts::new(vec![(boundary("in"), kind(), q(input)), (boundary("out"), kind(), q(output))]).unwrap()
}

fn ledgers(input: i64, output: i64) -> ExactAmounts<LedgerId> {
    ExactAmounts::new(vec![(ledger("input-ledger"), kind(), q(input)), (ledger("output-ledger"), kind(), q(output))]).unwrap()
}

fn record_data(before: [i64; 2], after: [i64; 2]) -> TransitionRecordData {
    TransitionRecordData {
        before: stocks(before[0], before[1]),
        after: stocks(after[0], after[1]),
        requested_internal: internals(2, 1),
        settled_internal: internals(2, 1),
        requested_boundary: boundaries(3, 0),
        settled_boundary: boundaries(3, 0),
        ledger_before: ledgers(0, 0),
        ledger_after: ledgers(3, 0),
    }
}

fn trace_with(after: [i64; 2]) -> TransitionTrace {
    let carrier = carrier(false);
    let record = TransitionRecord::new(&carrier, record_data([10, 0], after)).unwrap();
    TransitionTrace::new(carrier, vec![record]).unwrap()
}

#[test]
fn carrier_compiles_total_exact_matrices_in_canonical_named_order() {
    let system = carrier(false);
    let internal = system.internal_effects();
    assert_eq!(internal.axes(), vec![axis("A"), axis("B")]);
    assert_eq!(internal.columns(), vec![flow("f1"), flow("f2")]);
    assert_eq!(internal.coefficient(&axis("A"), &flow("f1")), Some(&q(-1)));
    assert_eq!(internal.coefficient(&axis("B"), &flow("f1")), Some(&q(1)));
    assert_eq!(system.boundary_effects().coefficient(&axis("A"), &boundary("in")), Some(&q(1)));
    assert_eq!(system.boundary_effects().coefficient(&axis("B"), &boundary("out")), Some(&q(-1)));
    assert_eq!(system.identity(), carrier(true).identity());
}

#[test]
fn carrier_rejects_malformed_symbol_shapes_before_semantics() {
    let topology = topology(false);
    let stock_axes = vec![
        StockAxisDefinition { stock: stock("A"), axis: axis("A") },
        StockAxisDefinition { stock: stock("B"), axis: axis("B") },
    ];
    assert!(matches!(
        StockFlowCarrier::new(topology.clone(), stock_axes.clone(), vec![], vec![]),
        Err(StockFlowError::ChannelCount { expected: 4, actual: 0 })
    ));
    let wrong_roles = vec![
        ChannelId::Boundary(boundary("bad")),
        ChannelId::Internal(flow("f2")),
        ChannelId::Boundary(boundary("in")),
        ChannelId::Boundary(boundary("out")),
    ];
    assert!(matches!(
        StockFlowCarrier::new(topology.clone(), stock_axes.clone(), wrong_roles, vec![]),
        Err(StockFlowError::ChannelRole { .. })
    ));
    let duplicate = vec![
        ChannelId::Internal(flow("same")),
        ChannelId::Internal(flow("same")),
        ChannelId::Boundary(boundary("in")),
        ChannelId::Boundary(boundary("out")),
    ];
    assert!(matches!(
        StockFlowCarrier::new(topology, stock_axes, duplicate, vec![]),
        Err(StockFlowError::DuplicateFlow(id)) if id == flow("same")
    ));
}

#[test]
fn signed_observations_are_models_but_negative_flows_are_structural_errors() {
    let carrier = carrier(false);
    let mut signed = record_data([-1, 0], [-1, 3]);
    signed.requested_internal = internals(0, 0);
    signed.settled_internal = internals(0, 0);
    signed.requested_boundary = boundaries(0, 0);
    signed.settled_boundary = boundaries(0, 0);
    signed.ledger_after = ledgers(0, 0);
    assert!(TransitionRecord::new(&carrier, signed).is_ok());

    let mut negative = record_data([10, 0], [10, 3]);
    negative.requested_internal = ExactAmounts::new(vec![(flow("f1"), kind(), q(-1)), (flow("f2"), kind(), q(1))]).unwrap();
    assert_eq!(TransitionRecord::new(&carrier, negative), Err(StockFlowError::NegativeAmount(SymbolId::Flow(flow("f1")))));
}

#[test]
fn records_reject_missing_extra_wrong_kind_and_over_settled_values() {
    let carrier = carrier(false);
    let mut missing = record_data([10, 0], [10, 3]);
    missing.before = ExactAmounts::new(vec![(axis("A"), kind(), q(10))]).unwrap();
    assert!(matches!(TransitionRecord::new(&carrier, missing), Err(StockFlowError::MissingValue { .. })));

    let mut extra = record_data([10, 0], [10, 3]);
    extra.before =
        ExactAmounts::new(vec![(axis("A"), kind(), q(10)), (axis("B"), kind(), q(0)), (axis("C"), kind(), q(0))]).unwrap();
    assert!(matches!(TransitionRecord::new(&carrier, extra), Err(StockFlowError::ExtraValue { .. })));

    let mut wrong_kind = record_data([10, 0], [10, 3]);
    wrong_kind.before =
        ExactAmounts::new(vec![(axis("A"), KindId::new("energy").unwrap(), q(10)), (axis("B"), kind(), q(0))]).unwrap();
    assert!(matches!(TransitionRecord::new(&carrier, wrong_kind), Err(StockFlowError::KindMismatch { .. })));

    let mut over = record_data([10, 0], [10, 3]);
    over.requested_internal = internals(1, 1);
    assert!(matches!(TransitionRecord::new(&carrier, over), Err(StockFlowError::SettledExceedsRequested { .. })));
}

#[test]
fn traces_own_independent_records_and_reject_discontinuity() {
    let carrier = carrier(false);
    let first = TransitionRecord::new(&carrier, record_data([10, 0], [10, 3])).unwrap();
    let mut second_data = record_data([9, 3], [9, 6]);
    second_data.ledger_before = ledgers(3, 0);
    second_data.ledger_after = ledgers(6, 0);
    let second = TransitionRecord::new(&carrier, second_data).unwrap();
    assert!(matches!(
        TransitionTrace::new(carrier.clone(), vec![first, second]),
        Err(StockFlowError::DiscontinuousState { transition: 1, axis: got_axis }) if got_axis == axis("A")
    ));

    let original = trace_with([10, 3]);
    let cloned = original.clone();
    assert_eq!(original.records(), cloned.records());
    assert!(!std::ptr::eq(original.records().as_ptr(), cloned.records().as_ptr()));
}

#[test]
fn settlement_report_builds_a_witness_without_reimplementing_settlement() {
    let carrier = carrier(false);
    let mut state = ExactState::new(carrier.topology().clone(), vec![q(10), q(0)]).unwrap();
    let before = state.amounts().to_vec();
    let report = state.settle(&[q(2), q(1), q(3), q(0)]).unwrap();
    let record = carrier.record_from_settlement(&before, state.amounts(), &report, ledgers(0, 0), ledgers(3, 0)).unwrap();
    let trace = TransitionTrace::new(carrier, vec![record]).unwrap();
    assert!(check_transition_equation(&TransitionEquation::new(sentence("transition")), &trace).unwrap().is_satisfied());
}

#[test]
fn empty_trace_is_structural_and_misrouting_reports_first_canonical_axis() {
    let carrier = carrier(false);
    let empty = TransitionTrace::new(carrier, vec![]).unwrap();
    assert_eq!(
        check_transition_equation(&TransitionEquation::new(sentence("transition")), &empty),
        Err(StockFlowError::TooShort { transitions: 0 })
    );

    let trace = trace_with([9, 4]);
    let TransitionVerdict::Violated(violation) =
        check_transition_equation(&TransitionEquation::new(sentence("transition")), &trace).unwrap()
    else {
        panic!("expected misrouted transition to fail");
    };
    assert_eq!(violation.transition, 0);
    assert_eq!(violation.axis, axis("A"));
    assert_eq!(violation.observed_delta, q(-1));
    assert_eq!(violation.accounted_delta, q(0));
}

#[test]
fn flow_and_boundary_checkers_return_typed_first_offense_evidence() {
    let good = trace_with([10, 3]);
    let ratio =
        LinearFlowConstraint::new(good.carrier(), sentence("partition"), kind(), vec![(flow("f1"), q(1)), (flow("f2"), q(-2))], q(0))
            .unwrap();
    assert!(check_linear_flow_constraint(&ratio, &good).unwrap().is_satisfied());
    let correspondence = BoundaryCorrespondence::new(sentence("input-ledger"), ledger("input-ledger"));
    assert!(check_boundary_correspondence(&correspondence, &good).unwrap().is_satisfied());

    let carrier = carrier(false);
    let mut bad_ratio = record_data([10, 0], [10, 3]);
    bad_ratio.requested_internal = internals(1, 2);
    bad_ratio.settled_internal = internals(1, 2);
    let trace = TransitionTrace::new(carrier.clone(), vec![TransitionRecord::new(&carrier, bad_ratio).unwrap()]).unwrap();
    let FlowConstraintVerdict::Violated(violation) = check_linear_flow_constraint(&ratio, &trace).unwrap() else {
        panic!("expected wrong ratio to fail");
    };
    assert_eq!(violation.transition, 0);
    assert_eq!(violation.observed, q(-3));

    let mut bad_ledger = record_data([10, 0], [10, 3]);
    bad_ledger.ledger_after = ledgers(0, 0);
    let trace = TransitionTrace::new(carrier.clone(), vec![TransitionRecord::new(&carrier, bad_ledger).unwrap()]).unwrap();
    let BoundaryVerdict::Violated(violation) = check_boundary_correspondence(&correspondence, &trace).unwrap() else {
        panic!("expected dishonest ledger to fail");
    };
    assert_eq!(violation.ledger, ledger("input-ledger"));
    assert_eq!(violation.boundaries, vec![boundary("in")]);
    assert_eq!(violation.observed_increment, q(0));
    assert_eq!(violation.settled_total, q(3));
}

#[test]
fn perturbing_settled_process_or_boundary_amount_is_reproducible() {
    let carrier = carrier(false);
    let equation = TransitionEquation::new(sentence("transition"));

    let mut process = record_data([10, 0], [10, 3]);
    process.requested_internal = internals(3, 1);
    process.settled_internal = internals(3, 1);
    let process_trace = TransitionTrace::new(carrier.clone(), vec![TransitionRecord::new(&carrier, process).unwrap()]).unwrap();
    let TransitionVerdict::Violated(process_violation) = check_transition_equation(&equation, &process_trace).unwrap() else {
        panic!("expected perturbed settled process to fail");
    };
    assert_eq!(process_violation.axis, axis("A"));
    assert_eq!(process_violation.residual, q(1));

    let mut port = record_data([10, 0], [10, 3]);
    port.requested_boundary = boundaries(4, 0);
    port.settled_boundary = boundaries(4, 0);
    let port_trace = TransitionTrace::new(carrier.clone(), vec![TransitionRecord::new(&carrier, port).unwrap()]).unwrap();
    let TransitionVerdict::Violated(port_violation) = check_transition_equation(&equation, &port_trace).unwrap() else {
        panic!("expected perturbed settled boundary to fail");
    };
    assert_eq!(port_violation.axis, axis("A"));
    assert_eq!(port_violation.residual, q(-1));
}

#[test]
fn signed_projection_reuses_existing_graded_false_semantics() {
    let carrier = carrier(false);
    let mut data = record_data([-1, 0], [-1, 0]);
    data.requested_internal = internals(0, 0);
    data.settled_internal = internals(0, 0);
    data.requested_boundary = boundaries(0, 0);
    data.settled_boundary = boundaries(0, 0);
    data.ledger_after = ledgers(0, 0);
    let record = TransitionRecord::new(&carrier, data).unwrap();
    let trace = TransitionTrace::new(carrier, vec![record]).unwrap();
    let law = GradedLaw::new(BalanceLaw::new(kind(), vec![(axis("A"), q(1))], Provenance::Declared).unwrap(), Grade::Nonnegative);
    let verdict = check_graded_state_law(&GradedStateLaw::new(sentence("A>=0"), law), &trace).unwrap();
    assert!(matches!(verdict, LawVerdict::Violated(LawViolation::Negative { state_index: 0, .. })));
}

#[test]
fn checked_certificates_recompute_nullspace_and_seal_incidence_provenance() {
    let carrier = carrier(false);
    assert!(matches!(
        certify_nullspace(&carrier, kind(), vec![(axis("A"), q(1))]),
        Err(StockFlowError::NonNullCertificate { .. })
    ));
    assert!(matches!(
        certify_nullspace(&carrier, kind(), vec![(axis("A"), q(1)), (axis("A"), q(-1))]),
        Err(StockFlowError::BalanceLaw(_))
    ));

    let incidence = certify_nullspace(&carrier, kind(), vec![(axis("A"), q(1)), (axis("B"), q(1))]).unwrap();
    assert_eq!(incidence.law().provenance(), &Provenance::IncidenceNullspace);
    assert!(incidence.annihilation().iter().all(|(_, value)| value.is_zero()));
}

#[test]
fn basis_has_rows_minus_rank_members_and_direct_open_balance_is_semantic() {
    let carrier = carrier(false);
    let basis = derive_nullspace_basis(&carrier, kind()).unwrap();
    assert_eq!(basis.len(), 1); // two rows minus rank one
    assert_eq!(basis[0].law().coefficient(&axis("A")), q(1));
    assert_eq!(basis[0].law().coefficient(&axis("B")), q(1));
    let open = basis[0].open_balance(sentence("open-material"));
    assert!(check_open_balance(&open, &trace_with([10, 3])).unwrap().is_satisfied());

    let OpenBalanceVerdict::Violated(violation) = check_open_balance(&open, &trace_with([9, 3])).unwrap() else {
        panic!("expected corrupted model to falsify direct open balance");
    };
    assert_eq!(violation.transition, 0);
    assert_eq!(violation.observed_delta, q(2));
    assert_eq!(violation.boundary_delta, q(3));
    assert_eq!(violation.residual, q(-1));
}

#[test]
fn checked_open_balance_projects_to_existing_graded_invariant() {
    let carrier = carrier(false);
    let certificate = certify_nullspace(&carrier, kind(), vec![(axis("A"), q(1)), (axis("B"), q(1))]).unwrap();
    let projected = certificate.graded_invariant(&carrier, vec![ledger("input-ledger"), ledger("output-ledger")]).unwrap();
    assert_eq!(projected.form().coefficient(&axis("A")), q(1));
    assert_eq!(projected.form().coefficient(&axis("B")), q(1));
    assert_eq!(projected.form().coefficient(&axis("cumulative-input")), q(-1));
    assert_eq!(projected.form().coefficient(&axis("cumulative-output")), q(1));
    assert!(matches!(
        check_graded_state_law(&GradedStateLaw::new(sentence("projected-open"), projected), &trace_with([10, 3])).unwrap(),
        LawVerdict::Satisfied(_)
    ));
}

#[test]
fn suite_retains_every_named_typed_outcome_in_canonical_order() {
    let carrier = carrier(false);
    let certificate = certify_nullspace(&carrier, kind(), vec![(axis("A"), q(1)), (axis("B"), q(1))]).unwrap();
    let suite = StockFlowLawSuite::new(
        Some(TransitionEquation::new(sentence("d-transition"))),
        vec![LinearFlowConstraint::new(
            &carrier,
            sentence("a-partition"),
            kind(),
            vec![(flow("f1"), q(1)), (flow("f2"), q(-2))],
            q(0),
        )
        .unwrap()],
        vec![BoundaryCorrespondence::new(sentence("b-input-ledger"), ledger("input-ledger"))],
        vec![certificate.open_balance(sentence("c-open"))],
        vec![],
    )
    .unwrap();
    let verdicts = suite.check(&trace_with([10, 3])).unwrap();
    assert_eq!(verdicts.len(), 4);
    assert_eq!(
        verdicts.iter().map(SuiteVerdict::id).collect::<Vec<_>>(),
        vec![&sentence("a-partition"), &sentence("b-input-ledger"), &sentence("c-open"), &sentence("d-transition")]
    );
    assert!(verdicts.iter().all(SuiteVerdict::is_satisfied));
}

/// Settles one batch exactly from `(a, b)`, records it, and checks the
/// transition equation and every derived open balance.
fn settle_and_check(a: i64, b: i64, r1: i64, r2: i64, input: i64, output: i64) {
    let carrier = carrier(false);
    let mut state = ExactState::new(carrier.topology().clone(), vec![q(a), q(b)]).unwrap();
    let before = state.amounts().to_vec();
    let report = state.settle(&[q(r1), q(r2), q(input), q(output)]).unwrap();
    let input_applied = report.applied()[2].clone();
    let output_applied = report.applied()[3].clone();
    let record = carrier
        .record_from_settlement(
            &before,
            state.amounts(),
            &report,
            ledgers(0, 0),
            ExactAmounts::new(vec![
                (ledger("input-ledger"), kind(), input_applied),
                (ledger("output-ledger"), kind(), output_applied),
            ])
            .unwrap(),
        )
        .unwrap();
    let trace = TransitionTrace::new(carrier.clone(), vec![record]).unwrap();
    assert!(check_transition_equation(&TransitionEquation::new(sentence("transition")), &trace).unwrap().is_satisfied());
    for certificate in derive_nullspace_basis(&carrier, kind()).unwrap() {
        assert!(check_open_balance(&certificate.open_balance(sentence("derived")), &trace).unwrap().is_satisfied());
    }
}

#[test]
fn exact_settlements_satisfy_transition_and_every_derived_open_balance() {
    settle_and_check(0, 0, 0, 0, 0, 0);
    settle_and_check(10, 0, 2, 1, 3, 0);
    settle_and_check(5, 7, 400, 300, 12, 999);
    settle_and_check(999, 1, 0, 998, 1, 2);
    settle_and_check(3, 0, 2, 2, 0, 0);
}

#[test]
fn record_from_settlement_refuses_wrong_lengths_and_foreign_reports() {
    let other = carrier(true);
    let carrier = carrier(false);
    let mut state = ExactState::new(carrier.topology().clone(), vec![q(10), q(0)]).unwrap();
    let before = state.amounts().to_vec();
    let report = state.settle(&[q(2), q(1), q(3), q(0)]).unwrap();
    assert_eq!(
        carrier.record_from_settlement(&before[..1], state.amounts(), &report, ledgers(0, 0), ledgers(3, 0)),
        Err(StockFlowError::AmountCount { expected: 2, actual: 1 })
    );
    assert_eq!(
        carrier.record_from_settlement(&before, &[q(1), q(2), q(3)], &report, ledgers(0, 0), ledgers(3, 0)),
        Err(StockFlowError::AmountCount { expected: 2, actual: 3 })
    );
    let mut reordered = ExactState::new(other.topology().clone(), vec![q(0), q(10)]).unwrap();
    let foreign = reordered.settle(&[q(0), q(0), q(0), q(0)]).unwrap();
    assert!(matches!(
        carrier.record_from_settlement(&before, state.amounts(), &foreign, ledgers(0, 0), ledgers(3, 0)),
        Err(StockFlowError::Settlement(_))
    ));
    assert!(matches!(
        carrier.record_from_settlement(&before, state.amounts(), &report, ledgers(0, 0), ledgers(0, 0)),
        Ok(_)
    ));
}

#[test]
fn basis_of_an_unknown_kind_is_refused() {
    let carrier = carrier(false);
    let energy = KindId::new("energy").unwrap();
    assert_eq!(derive_nullspace_basis(&carrier, energy.clone()), Err(StockFlowError::UnknownKind(energy)));
}

#[test]
fn graded_invariant_requires_exact_ledger_coverage() {
    let carrier = carrier(false);
    let certificate = certify_nullspace(&carrier, kind(), vec![(axis("A"), q(1)), (axis("B"), q(1))]).unwrap();
    assert_eq!(
        certificate.graded_invariant(&carrier, vec![ledger("input-ledger")]),
        Err(StockFlowError::UncoveredBoundary(boundary("out")))
    );
    assert_eq!(
        certificate.graded_invariant(&carrier, vec![ledger("input-ledger"), ledger("input-ledger")]),
        Err(StockFlowError::DuplicateBoundaryCoverage(boundary("in")))
    );
    assert_eq!(
        certificate.graded_invariant(&carrier, vec![ledger("missing")]),
        Err(StockFlowError::UnknownLedger(ledger("missing")))
    );
}

#[test]
fn suite_refuses_a_repeated_sentence_name_across_families() {
    let carrier = carrier(false);
    let result = StockFlowLawSuite::new(
        Some(TransitionEquation::new(sentence("same"))),
        vec![],
        vec![BoundaryCorrespondence::new(sentence("same"), ledger("input-ledger"))],
        vec![],
        vec![],
    );
    assert_eq!(result, Err(StockFlowError::DuplicateSentence(sentence("same"))));
    let empty = StockFlowLawSuite::new(None, vec![], vec![], vec![], vec![]).unwrap();
    assert_eq!(empty.check(&trace_with([10, 3])).unwrap(), vec![]);
    let failing = StockFlowLawSuite::new(Some(TransitionEquation::new(sentence("t"))), vec![], vec![], vec![], vec![]).unwrap();
    assert_eq!(
        failing.check(&TransitionTrace::new(carrier, vec![]).unwrap()),
        Err(StockFlowError::TooShort { transitions: 0 })
    );
}

#[test]
fn carrier_errors_describe_their_symbols() {
    assert_eq!(
        StockFlowError::MissingValue { role: ValueRole::SettledBoundary, symbol: SymbolId::Boundary(boundary("in")) }.to_string(),
        "SettledBoundary is missing boundary in"
    );
    assert_eq!(
        StockFlowError::ChannelRole {
            channel: ChannelId::Internal(flow("f1")),
            actual: conservation::dynamics::FlowRole::Input
        }
        .to_string(),
        "channel Internal(FlowId(\"f1\")) does not match Input"
    );
    assert_eq!(
        StockFlowError::NonNullCertificate { flow: flow("f1"), residual: Box::new(Rational::new(-1, 2)) }.to_string(),
        "coefficient vector does not annihilate flow f1: -1/2"
    );
    assert_eq!(
        StockFlowError::Trace(TraceError::MissingAxis { state_index: 3, axis: axis("A") }).to_string(),
        "trace state 3 is missing axis A"
    );
    assert_eq!(
        StockFlowError::Matrix(MatrixError::RaggedRows { row: 1, expected: 2, actual: 3 }).to_string(),
        "matrix row 1 has 3 entries; expected 2"
    );
    assert_eq!(StockFlowError::TooShort { transitions: 0 }.to_string(), "trace has 0 transitions; at least one is required");
    assert_eq!(
        StockFlowError::DuplicateSentence(sentence("x")).to_string(),
        "duplicate suite sentence x"
    );
}

#[test]
fn each_kind_has_its_own_basis_and_a_kind_without_flows_keeps_every_axis() {
    let material = kind();
    let heat = KindId::new("heat").unwrap();
    let topology = FlowTopology::new(
        vec![
            StockDefinition { id: stock("A"), kind: material.clone() },
            StockDefinition { id: stock("B"), kind: material.clone() },
            StockDefinition { id: stock("H"), kind: heat.clone() },
            StockDefinition { id: stock("K"), kind: heat.clone() },
        ],
        vec![FlowSpec {
            process: ProcessId::new("transfer").unwrap(),
            kind: material.clone(),
            source: Some(stock("A")),
            target: Some(stock("B")),
        }],
        vec![],
    )
    .unwrap();
    let axes = vec![
        StockAxisDefinition { stock: stock("A"), axis: axis("A") },
        StockAxisDefinition { stock: stock("B"), axis: axis("B") },
        StockAxisDefinition { stock: stock("H"), axis: axis("H") },
        StockAxisDefinition { stock: stock("K"), axis: axis("K") },
    ];
    let carrier =
        StockFlowCarrier::new(Arc::new(topology), axes, vec![ChannelId::Internal(flow("move"))], vec![]).unwrap();

    let material_basis = derive_nullspace_basis(&carrier, material).unwrap();
    assert_eq!(material_basis.len(), 1);
    assert_eq!(material_basis[0].law().coefficient(&axis("A")), q(1));
    assert_eq!(material_basis[0].law().coefficient(&axis("B")), q(1));
    assert_eq!(material_basis[0].law().coefficient(&axis("H")), q(0));

    let heat_basis = derive_nullspace_basis(&carrier, heat).unwrap();
    assert_eq!(heat_basis.len(), 2);
    assert_eq!(heat_basis[0].law().coefficient(&axis("H")), q(1));
    assert_eq!(heat_basis[0].law().coefficient(&axis("K")), q(0));
    assert_eq!(heat_basis[1].law().coefficient(&axis("K")), q(1));
    assert_eq!(heat_basis[1].law().coefficient(&axis("A")), q(0));
}
