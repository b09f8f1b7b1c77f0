use std::sync::Arc;

use conservation::dynamics::{
    FlowRole, FlowSpec, FlowTopology, ProcessDefinition, Rationing, StockDefinition, StockFlowError,
};
use conservation::exact::ExactState;
use conservation::ident::{KindId, ProcessId, StockId};
use conservation::rational::Rational;
use conservation::system::{ProposedFlow, StockFlowSystem, StockSpec};
use conservation::test_kinds::TestKind;

fn stock(value: &str) -> StockId {
    StockId::new(value).unwrap()
}

fn process(value: &str) -> ProcessId {
    ProcessId::new(value).unwrap()
}

fn integer(value: i64) -> Rational {
    Rational::from_integer(value)
}

fn definition(id: &str, kind: TestKind) -> StockDefinition<TestKind> {
    StockDefinition { id: stock(id), kind }
}

fn flow(process_name: &str, kind: TestKind, source: Option<&str>, target: Option<&str>) -> FlowSpec<TestKind> {
    FlowSpec { process: process(process_name), kind, source: source.map(stock), target: target.map(stock) }
}

fn declare(process_name: &str, rationing: Rationing) -> ProcessDefinition {
    ProcessDefinition { id: process(process_name), rationing }
}

fn ration_all(flows: &[FlowSpec<TestKind>]) -> Vec<ProcessDefinition> {
    let mut names: Vec<String> = flows.iter().map(|flow| flow.process.as_str().to_string()).collect();
    names.sort();
    names.dedup();
    names.iter().map(|name| declare(name, Rationing::Ration)).collect()
}

fn material_topology() -> Arc<FlowTopology<TestKind>> {
    Arc::new(
        FlowTopology::new(
            vec![definition("a", TestKind::Material), definition("b", TestKind::Material)],
            vec![
                flow("input", TestKind::Material, None, Some("a")),
                flow("move", TestKind::Material, Some("a"), Some("b")),
                flow("export", TestKind::Material, Some("a"), None),
            ],
            vec![declare("move", Rationing::Ration), declare("export", Rationing::Ration)],
        )
        .unwrap(),
    )
}

fn proposal(process_name: &str, source: Option<&str>, target: Option<&str>, amount: Rational) -> ProposedFlow<TestKind> {
    ProposedFlow {
        process: process(process_name),
        kind: TestKind::Material,
        source: source.map(stock),
        target: target.map(stock),
        amount,
    }
}

fn exact_state(
    stocks: &[(&str, TestKind)],
    flows: &[FlowSpec<TestKind>],
    processes: Vec<ProcessDefinition>,
    initial: &[i64],
) -> ExactState<TestKind> {
    let topology = Arc::new(
        FlowTopology::new(
            stocks.iter().map(|(id, kind)| definition(id, *kind)).collect(),
            flows.to_vec(),
            processes,
        )
        .unwrap(),
    );
    ExactState::new(topology, initial.iter().copied().map(integer).collect()).unwrap()
}

fn below_floor(
    stock_name: &str,
    floor: i64,
    process_name: &str,
    available: i64,
    withdrawal: i64,
) -> StockFlowError<TestKind> {
    StockFlowError::BelowFloor {
        stock: stock(stock_name),
        floor: Box::new(integer(floor)),
        process: process(process_name),
        available: Box::new(integer(available)),
        withdrawal: Box::new(integer(withdrawal)),
    }
}

#[test]
fn compilation_assigns_stable_stock_kind_process_and_endpoint_indices() {
    let topology = material_topology();

    assert_eq!(topology.stock_index(&stock("a")), Some(0));
    assert_eq!(topology.stock_index(&stock("b")), Some(1));
    assert_eq!(topology.kind_index(TestKind::Material), Some(0));
    assert_eq!(topology.process_index(&process("input")), Some(0));
    assert_eq!(topology.process_index(&process("move")), Some(1));
    assert_eq!(topology.flows()[0].source(), None);
    assert_eq!(topology.flows()[0].target(), Some(0));
    assert_eq!(topology.flows()[0].role(), FlowRole::Input);
    assert_eq!(topology.flows()[1].source(), Some(0));
    assert_eq!(topology.flows()[1].target(), Some(1));
    assert_eq!(topology.flows()[1].role(), FlowRole::Transfer);
    assert_eq!(topology.flows()[2].role(), FlowRole::Output);
}

#[test]
fn topology_compilation_rejects_every_malformed_shape() {
    assert_eq!(FlowTopology::new(vec![], Vec::<FlowSpec<TestKind>>::new(), vec![]), Err(StockFlowError::NoStocks));
    assert!(matches!(
        FlowTopology::new(vec![definition("a", TestKind::Material), definition("a", TestKind::Material)], vec![], vec![]),
        Err(StockFlowError::DuplicateStock(_))
    ));
    assert_eq!(
        FlowTopology::new(
            vec![definition("a", TestKind::Material)],
            vec![flow("lost", TestKind::Material, None, None)],
            vec![]
        ),
        Err(StockFlowError::DisconnectedFlow)
    );
    assert!(matches!(
        FlowTopology::new(
            vec![definition("a", TestKind::Material)],
            vec![flow("loop", TestKind::Material, Some("a"), Some("a"))],
            vec![]
        ),
        Err(StockFlowError::SameStock(_))
    ));
    assert!(matches!(
        FlowTopology::new(
            vec![definition("a", TestKind::Material)],
            vec![flow("missing", TestKind::Material, Some("a"), Some("missing"))],
            vec![]
        ),
        Err(StockFlowError::UnknownStock(_))
    ));
    assert!(matches!(
        FlowTopology::new(
            vec![definition("a", TestKind::Material), definition("b", TestKind::Energy)],
            vec![flow("wrong-kind", TestKind::Material, Some("a"), Some("b"))],
            vec![]
        ),
        Err(StockFlowError::KindMismatch { .. })
    ));
}

#[test]
fn flows_carry_the_difference_kind_of_a_point_stock() {
    assert!(FlowTopology::new(
        vec![definition("body", TestKind::Temperature)],
        vec![flow("warm", TestKind::TemperatureDelta, None, Some("body"))],
        vec![]
    )
    .is_ok());
    assert_eq!(
        FlowTopology::new(
            vec![definition("body", TestKind::Temperature)],
            vec![flow("warm", TestKind::Temperature, None, Some("body"))],
            vec![]
        ),
        Err(StockFlowError::KindMismatch {
            stock: stock("body"),
            stock_kind: TestKind::Temperature,
            flow_kind: TestKind::Temperature,
        })
    );
}

#[test]
fn a_transfer_between_balances_that_share_a_difference_is_rejected() {
    assert_eq!(
        FlowTopology::new(
            vec![definition("region", TestKind::Enthalpy), definition("sink", TestKind::Heat)],
            vec![flow("leak", TestKind::Heat, Some("region"), Some("sink"))],
            vec![]
        ),
        Err(StockFlowError::TransferKinds {
            source: stock("region"),
            source_kind: TestKind::Enthalpy,
            target: stock("sink"),
            target_kind: TestKind::Heat,
        })
    );
}

#[test]
fn both_backends_observe_pre_step_state_and_defer_inputs_until_the_next_batch() {
    let topology = material_topology();
    let mut exact = ExactState::new(topology, vec![integer(0), integer(0)]).unwrap();

    let exact_first = exact.settle(&[integer(10), integer(10), integer(0)]).unwrap();
    assert_eq!(exact_first.applied(), &[integer(10), integer(0), integer(0)]);
    assert_eq!(exact.amounts(), &[integer(10), integer(0)]);

    exact.settle(&[integer(0), integer(10), integer(0)]).unwrap();
    assert_eq!(exact.amounts(), &[integer(0), integer(10)]);
}

#[test]
fn both_backends_limit_competing_withdrawals_proportionally() {
    let topology = material_topology();
    let mut exact = ExactState::new(topology, vec![integer(10), integer(0)]).unwrap();

    let exact_report = exact.settle(&[integer(0), integer(8), integer(12)]).unwrap();

    assert_eq!(exact_report.applied(), &[integer(0), integer(4), integer(6)]);
    assert_eq!(exact.amounts(), &[integer(0), integer(4)]);
}

#[test]
fn dense_source_limitation_exhausts_the_source_without_a_roundoff_residue() {
    let topology = material_topology();
    let mut exact = ExactState::new(topology, vec![integer(789_091), integer(0)]).unwrap();
    exact.settle(&[integer(0), integer(719_946), integer(302_488)]).unwrap();

    assert!(exact.amounts()[0].is_zero());
    // 789091 * 719946 / (719946 + 302488)
    assert_eq!(exact.amounts()[1], Rational::new(789_091 * 719_946, 719_946 + 302_488));
}

#[test]
fn invalid_compiled_batches_are_atomic_in_both_backends() {
    let topology = material_topology();
    let mut exact = ExactState::new(topology, vec![integer(10), integer(0)]).unwrap();
    let exact_before = exact.clone();

    assert_eq!(
        exact.settle(&[integer(0), integer(-1), integer(0)]),
        Err(StockFlowError::NegativeFlow { index: 1, process: process("move"), amount: Box::new(integer(-1)) })
    );
    assert_eq!(exact, exact_before);
}

#[test]
fn compiled_exact_state_agrees_with_the_independent_legacy_settlement_path() {
    let topology = material_topology();
    let mut compiled = ExactState::new(topology.clone(), vec![integer(10), integer(0)]).unwrap();
    let mut legacy = legacy_system(10, 0);

    let compiled_report = compiled.settle(&[integer(3), integer(8), integer(12)]).unwrap();
    let legacy_report = legacy
        .settle(&[
            named("input", None, Some("a"), 3),
            named("move", Some("a"), Some("b"), 8),
            named("export", Some("a"), None, 12),
        ])
        .unwrap();
    let materialized = topology.materialize_exact_report(&compiled_report).unwrap();

    assert_eq!(materialized.flows().len(), legacy_report.flows().len());
    for (compiled_flow, legacy_flow) in materialized.flows().iter().zip(legacy_report.flows()) {
        assert_eq!(compiled_flow.process, legacy_flow.process);
        assert_eq!(compiled_flow.requested, legacy_flow.requested);
        assert_eq!(compiled_flow.applied, legacy_flow.applied);
        assert_eq!(compiled_flow.role, legacy_flow.role);
    }
    assert_eq!(compiled.amount(&stock("a")), legacy.amount(&stock("a")));
    assert_eq!(compiled.amount(&stock("b")), legacy.amount(&stock("b")));
    assert_eq!(compiled.inputs(TestKind::Material), legacy.inputs(&material()));
    assert_eq!(compiled.outputs(TestKind::Material), legacy.outputs(&material()));
}

#[test]
fn exact_report_materialization_rejects_a_different_equal_length_topology() {
    let topology = material_topology();
    let mut state = ExactState::new(topology, vec![integer(10), integer(0)]).unwrap();
    let report = state.settle(&[integer(3), integer(8), integer(12)]).unwrap();
    let structurally_equal = material_topology();
    assert!(structurally_equal.materialize_exact_report(&report).is_ok());

    let different_flows = [
        flow("other-input", TestKind::Material, None, Some("a")),
        flow("other-move", TestKind::Material, Some("b"), Some("a")),
        flow("other-export", TestKind::Material, Some("b"), None),
    ];
    let different = FlowTopology::new(
        vec![definition("a", TestKind::Material), definition("b", TestKind::Material)],
        different_flows.to_vec(),
        ration_all(&different_flows),
    )
    .unwrap();
    assert_eq!(different.materialize_exact_report(&report), Err(StockFlowError::TopologyMismatch));
}

#[test]
fn each_conserved_kind_balances_independently() {
    let flows = [
        flow("matter_move", TestKind::Matter, Some("matter_a"), Some("matter_b")),
        flow("matter_input", TestKind::Matter, None, Some("matter_a")),
        flow("energy_move", TestKind::Energy, Some("energy_a"), Some("energy_b")),
        flow("energy_output", TestKind::Energy, Some("energy_a"), None),
    ];
    let topology = Arc::new(
        FlowTopology::new(
            vec![
                definition("matter_a", TestKind::Matter),
                definition("matter_b", TestKind::Matter),
                definition("energy_a", TestKind::Energy),
                definition("energy_b", TestKind::Energy),
            ],
            flows.to_vec(),
            ration_all(&flows),
        )
        .unwrap(),
    );
    let mut exact = ExactState::new(topology, vec![integer(10), integer(0), integer(20), integer(0)]).unwrap();

    exact.settle(&[integer(7), integer(3), integer(4), integer(6)]).unwrap();

    for conserved_kind in [TestKind::Matter, TestKind::Energy] {
        assert!(exact.balance_residual(conserved_kind).is_zero());
    }
}

#[test]
fn flow_declaration_permutation_does_not_change_observable_accounts() {
    let stocks = vec![definition("a", TestKind::Material), definition("b", TestKind::Material)];
    let forward_flows = [
        flow("move", TestKind::Material, Some("a"), Some("b")),
        flow("export", TestKind::Material, Some("a"), None),
        flow("input", TestKind::Material, None, Some("b")),
    ];
    let reverse_flows = [
        flow("input", TestKind::Material, None, Some("b")),
        flow("export", TestKind::Material, Some("a"), None),
        flow("move", TestKind::Material, Some("a"), Some("b")),
    ];
    let forward =
        Arc::new(FlowTopology::new(stocks.clone(), forward_flows.to_vec(), ration_all(&forward_flows)).unwrap());
    let reverse = Arc::new(FlowTopology::new(stocks, reverse_flows.to_vec(), ration_all(&reverse_flows)).unwrap());
    let mut exact_forward = ExactState::new(forward, vec![integer(10), integer(0)]).unwrap();
    let mut exact_reverse = ExactState::new(reverse, vec![integer(10), integer(0)]).unwrap();

    exact_forward.settle(&[integer(8), integer(12), integer(3)]).unwrap();
    exact_reverse.settle(&[integer(3), integer(12), integer(8)]).unwrap();

    assert_eq!(exact_forward.amounts(), exact_reverse.amounts());
    assert_eq!(exact_forward.inputs(TestKind::Material), exact_reverse.inputs(TestKind::Material));
    assert_eq!(exact_forward.outputs(TestKind::Material), exact_reverse.outputs(TestKind::Material));
}

#[test]
fn compiled_amount_count_and_nonfinite_failures_are_atomic() {
    let topology = material_topology();
    let mut exact = ExactState::new(topology, vec![integer(1), integer(2)]).unwrap();
    let exact_before = exact.clone();

    assert!(matches!(exact.settle(&[integer(1)]), Err(StockFlowError::AmountCount { .. })));
    assert_eq!(exact, exact_before);
}

#[test]
fn floorless_stock_starts_negative_and_settles_below_zero_in_both_backends() {
    let mut exact = exact_state(
        &[("a", TestKind::MaterialBalance)],
        &[flow("export", TestKind::MaterialBalance, Some("a"), None)],
        Vec::new(),
        &[-2],
    );

    exact.settle(&[integer(5)]).unwrap();

    assert_eq!(exact.amounts(), &[integer(-7)]);
    assert!(exact.balance_residual(TestKind::MaterialBalance).is_zero());
}

#[test]
fn cooling_trace_does_not_depend_on_the_enthalpy_reference() {
    let topology = Arc::new(
        FlowTopology::new(
            vec![definition("region", TestKind::Enthalpy)],
            vec![
                flow("bath_exchange", TestKind::Heat, None, Some("region")),
                flow("bath_exchange", TestKind::Heat, Some("region"), None),
            ],
            vec![],
        )
        .unwrap(),
    );
    let capacity = integer(1000);
    // T7 = 300 + 100 * (9/10)^7 = 347.82969.
    let expected = integer(300).add(&Rational::new(4_782_969, 100_000));

    for reference in [300_i64, 350] {
        let reference_exact = integer(reference);
        let mut exact =
            ExactState::new(topology.clone(), vec![integer(400).sub(&reference_exact).mul(&capacity)]).unwrap();

        for _ in 0..7 {
            let temperature = reference_exact.add(&exact.amounts()[0].div(&capacity));
            let heat = integer(100).mul(&integer(300).sub(&temperature));
            let slots = if heat.is_negative() { [integer(0), heat.neg()] } else { [heat, integer(0)] };
            exact.settle(&slots).unwrap();
        }

        assert_eq!(reference_exact.add(&exact.amounts()[0].div(&capacity)), expected);
    }

    let below_reference = integer(1000).mul(&integer(340).sub(&integer(350)));
    assert!(ExactState::new(topology, vec![below_reference]).is_ok());
}

#[test]
fn signed_stock_settles_from_plus_two_to_minus_three_through_one_flow() {
    let mut exact = exact_state(
        &[("p", TestKind::MaterialBalance), ("q", TestKind::MaterialBalance)],
        &[flow("push", TestKind::MaterialBalance, Some("p"), Some("q"))],
        Vec::new(),
        &[2, 0],
    );

    exact.settle(&[integer(5)]).unwrap();

    assert_eq!(exact.amounts(), &[integer(-3), integer(5)]);
    assert!(exact.balance_residual(TestKind::MaterialBalance).is_zero());
}

#[test]
fn withdrawal_below_floor_is_refused_naming_stock_floor_and_process() {
    let mut exact = exact_state(
        &[("vault", TestKind::Reserve)],
        &[flow("spend", TestKind::Reserve, Some("vault"), None)],
        Vec::new(),
        &[12],
    );
    let exact_before = exact.clone();
    let expected = below_floor("vault", 10, "spend", 12, 5);

    assert_eq!(exact.settle(&[integer(5)]), Err(expected.clone()));
    assert_eq!(exact, exact_before);

    let message = expected.to_string();
    for part in ["vault", "10", "spend"] {
        assert!(message.contains(part), "{message}");
    }
}

#[test]
fn material_withdrawal_beyond_the_stock_is_refused_by_default() {
    let mut exact = exact_state(
        &[("a", TestKind::Material)],
        &[flow("export", TestKind::Material, Some("a"), None)],
        Vec::new(),
        &[3],
    );
    let expected = below_floor("a", 0, "export", 3, 5);

    assert_eq!(exact.settle(&[integer(5)]), Err(expected));
}

#[test]
fn a_refusing_process_sharing_a_breached_stock_refuses_the_batch() {
    let mut exact = exact_state(
        &[("vault", TestKind::Reserve)],
        &[
            flow("share", TestKind::Reserve, Some("vault"), None),
            flow("spend", TestKind::Reserve, Some("vault"), None),
        ],
        vec![declare("share", Rationing::Ration)],
        &[12],
    );
    let expected = below_floor("vault", 10, "spend", 12, 3);

    assert_eq!(exact.settle(&[integer(2), integer(1)]), Err(expected));
}

#[test]
fn rationed_withdrawals_share_the_headroom_above_a_nonzero_floor() {
    let mut exact = exact_state(
        &[("vault", TestKind::Reserve)],
        &[flow("a", TestKind::Reserve, Some("vault"), None), flow("b", TestKind::Reserve, Some("vault"), None)],
        vec![declare("a", Rationing::Ration), declare("b", Rationing::Ration)],
        &[12],
    );

    let exact_report = exact.settle(&[integer(3), integer(1)]).unwrap();

    assert_eq!(exact_report.applied(), &[Rational::new(3, 2), Rational::new(1, 2)]);
    assert_eq!(exact.amounts(), &[integer(10)]);
}

#[test]
fn floorless_stock_is_never_rationed() {
    let mut exact = exact_state(
        &[("m", TestKind::MaterialBalance)],
        &[flow("draw", TestKind::MaterialBalance, Some("m"), None)],
        vec![declare("draw", Rationing::Ration)],
        &[1],
    );

    let exact_report = exact.settle(&[integer(5)]).unwrap();

    assert_eq!(exact_report.applied(), &[integer(5)]);
    assert_eq!(exact.amounts(), &[integer(-4)]);
}

#[test]
fn process_declarations_reject_unknown_and_duplicate_processes() {
    let stocks = vec![definition("a", TestKind::Material), definition("b", TestKind::Material)];
    let flows = vec![flow("move", TestKind::Material, Some("a"), Some("b"))];
    assert_eq!(
        FlowTopology::new(stocks.clone(), flows.clone(), vec![declare("ghost", Rationing::Ration)]),
        Err(StockFlowError::UnknownProcess(process("ghost")))
    );
    assert_eq!(
        FlowTopology::new(stocks, flows, vec![declare("move", Rationing::Ration), declare("move", Rationing::Refuse)]),
        Err(StockFlowError::DuplicateProcess(process("move")))
    );
}

#[test]
fn topology_reports_declared_rationing() {
    let topology = material_topology();
    assert_eq!(topology.rationing(&process("move")), Some(Rationing::Ration));
    assert_eq!(topology.rationing(&process("input")), Some(Rationing::Refuse));
    assert_eq!(topology.rationing(&process("ghost")), None);
}

#[test]
fn initial_amount_below_the_floor_is_rejected_naming_stock_and_floor() {
    let topology = Arc::new(
        FlowTopology::new(
            vec![definition("vault", TestKind::Reserve)],
            vec![flow("spend", TestKind::Reserve, Some("vault"), None)],
            vec![],
        )
        .unwrap(),
    );
    let expected = StockFlowError::InitialBelowFloor {
        stock: stock("vault"),
        floor: Box::new(integer(10)),
        amount: Box::new(integer(9)),
    };

    assert_eq!(ExactState::new(topology, vec![integer(9)]), Err(expected));
}

fn material() -> KindId {
    KindId::new("material").unwrap()
}

fn legacy_system(a: i64, b: i64) -> StockFlowSystem {
    StockFlowSystem::new(vec![
        StockSpec { id: stock("a"), kind: material(), initial: integer(a) },
        StockSpec { id: stock("b"), kind: material(), initial: integer(b) },
    ])
    .unwrap()
}

fn named(name: &str, source: Option<&str>, target: Option<&str>, amount: i64) -> ProposedFlow<KindId> {
    ProposedFlow { process: process(name), kind: material(), source: source.map(stock), target: target.map(stock), amount: integer(amount) }
}

fn transfer(name: &str, source: &str, target: &str, amount: i64) -> ProposedFlow<KindId> {
    named(name, Some(source), Some(target), amount)
}

#[test]
fn competing_withdrawals_are_limited_proportionally() {
    let mut state = legacy_system(10, 0);
    let report = state.settle(&[transfer("first", "a", "b", 8), named("export", Some("a"), None, 12)]).unwrap();

    assert_eq!(report.flows()[0].applied, integer(4));
    assert_eq!(report.flows()[1].applied, integer(6));
    assert_eq!(state.amount(&stock("a")), Some(&integer(0)));
    assert_eq!(state.amount(&stock("b")), Some(&integer(4)));
    assert!(state.balance_residual(&material()).is_zero());
}

#[test]
fn a_malformed_batch_is_atomic() {
    let mut state = legacy_system(10, 0);
    let before = state.clone();
    let error = state.settle(&[transfer("valid", "a", "b", 2), transfer("invalid", "missing", "b", 1)]).unwrap_err();
    assert!(matches!(error, StockFlowError::UnknownStock(_)));
    assert_eq!(state, before);
}

#[test]
fn batches_keep_stocks_nonnegative_and_balanced() {
    let mut state = legacy_system(7, 3);
    state
        .settle(&[
            transfer("ab", "a", "b", 900),
            transfer("ba", "b", "a", 5),
            named("output", Some("a"), None, 100),
            named("input", None, Some("b"), 11),
        ])
        .unwrap();
    assert!(!state.amount(&stock("a")).unwrap().is_negative());
    assert!(!state.amount(&stock("b")).unwrap().is_negative());
    // a keeps only what b could send; b receives 9/10 of a's 7 and the input.
    assert_eq!(state.amount(&stock("a")), Some(&integer(3)));
    assert_eq!(state.amount(&stock("b")), Some(&Rational::new(173, 10)));
    assert!(state.balance_residual(&material()).is_zero());
    assert_eq!(state.history().len(), 4);
}

#[test]
fn proposal_permutation_does_not_change_stock_or_boundary_accounts() {
    let proposals = [transfer("first", "a", "b", 13), transfer("second", "a", "b", 4), named("output", Some("a"), None, 9)];
    let mut forward = legacy_system(20, 0);
    forward.settle(&proposals).unwrap();
    let mut reverse = legacy_system(20, 0);
    let reversed: Vec<ProposedFlow<KindId>> = proposals.iter().rev().cloned().collect();
    reverse.settle(&reversed).unwrap();

    assert_eq!(forward.amount(&stock("a")), reverse.amount(&stock("a")));
    assert_eq!(forward.amount(&stock("b")), reverse.amount(&stock("b")));
    assert_eq!(forward.inputs(&material()), reverse.inputs(&material()));
    assert_eq!(forward.outputs(&material()), reverse.outputs(&material()));
}

#[test]
fn splitting_a_same_role_flow_preserves_observable_state() {
    let mut merged = legacy_system(10, 0);
    merged.settle(&[transfer("move", "a", "b", 7 + 9)]).unwrap();
    let mut split = legacy_system(10, 0);
    split.settle(&[transfer("move", "a", "b", 7), transfer("move", "a", "b", 9)]).unwrap();

    assert_eq!(merged.amount(&stock("a")), split.amount(&stock("a")));
    assert_eq!(merged.amount(&stock("b")), split.amount(&stock("b")));
    assert_eq!(merged.balance_residual(&material()), split.balance_residual(&material()));
}

#[test]
fn applied_by_sums_a_process_across_its_flows() {
    let mut system = legacy_system(10, 0);
    let report = system
        .settle(&[transfer("move", "a", "b", 12), transfer("move", "a", "b", 8), named("input", None, Some("b"), 2)])
        .unwrap();
    assert_eq!(report.applied_by(&process("move")), integer(10));
    assert_eq!(report.applied_by(&process("input")), integer(2));
    assert_eq!(report.applied_by(&process("ghost")), integer(0));
    assert_eq!(report.flows()[2].role, FlowRole::Input);
}

#[test]
fn system_refuses_negative_amounts_and_empty_stock_lists() {
    assert_eq!(StockFlowSystem::new(vec![]), Err(StockFlowError::NoStocks));
    assert_eq!(
        StockFlowSystem::new(vec![StockSpec { id: stock("a"), kind: material(), initial: integer(-1) }]),
        Err(StockFlowError::NegativeAmount)
    );
    assert_eq!(
        StockFlowSystem::new(vec![
            StockSpec { id: stock("a"), kind: material(), initial: integer(1) },
            StockSpec { id: stock("a"), kind: material(), initial: integer(2) },
        ]),
        Err(StockFlowError::DuplicateStock(stock("a")))
    );
    let mut system = legacy_system(10, 0);
    let before = system.clone();
    assert_eq!(system.settle(&[transfer("move", "a", "b", -1)]), Err(StockFlowError::NegativeAmount));
    assert_eq!(system, before);
}

#[test]
fn exact_batches_never_take_a_stock_below_zero() {
    for (a, b, ab, ba, output, input) in [(0, 0, 5, 5, 5, 0), (1, 999, 1000, 2, 3, 4), (500, 500, 0, 0, 999, 999), (3, 7, 1, 1, 1, 1)] {
        let mut state = legacy_system(a, b);
        state
            .settle(&[
                transfer("ab", "a", "b", ab),
                transfer("ba", "b", "a", ba),
                named("output", Some("a"), None, output),
                named("input", None, Some("b"), input),
            ])
            .unwrap();
        assert!(!state.amount(&stock("a")).unwrap().is_negative());
        assert!(!state.amount(&stock("b")).unwrap().is_negative());
        assert!(state.balance_residual(&material()).is_zero());
    }
}
