use conservation::engine::{
    Capacity, Contribution, Engine, Exchange, Fact, Law, Placement, Quantity, Receipt, RecordWrite, Stock, ValidatedModel,
};
use conservation::exchange::{Constraint, ExchangeError, Expr, Malformed, Relation};
use conservation::rational::Rational;
use conservation::test_kinds::TestKind;

fn text(value: &str) -> String {
    value.to_string()
}

fn q(value: i64) -> Quantity<TestKind> {
    Quantity::new(Rational::from_integer(value), TestKind::Material)
}

fn spec(id: &str) -> Stock<TestKind> {
    Stock { id: text(id), owner: text("owner"), kind: TestKind::Material, capacities: vec![] }
}

fn equation(id: &str, left: Expr, right: Expr) -> Constraint {
    Constraint::equal(text(id), left, right)
}

fn supply_law() -> Law<TestKind> {
    Law {
        id: text("supply"),
        slots: vec![(text("stock"), TestKind::Material)],
        boundaries: vec![(text("supply"), TestKind::Material)],
        facts: vec![],
        participants: vec![],
        constraints: vec![equation("supply", Expr::delta(text("stock")), Expr::boundary(text("supply")))],
    }
}

fn combine_law() -> Law<TestKind> {
    Law {
        id: text("combine"),
        slots: vec![(text("a"), TestKind::Material), (text("b"), TestKind::Material), (text("out"), TestKind::Material)],
        boundaries: vec![],
        facts: vec![],
        participants: vec![text("journal")],
        constraints: vec![
            equation("stoichiometry", Expr::delta(text("a")), Expr::delta(text("b"))),
            equation(
                "balance",
                Expr::sum(vec![Expr::delta(text("a")), Expr::delta(text("b")), Expr::delta(text("out"))]),
                Expr::constant(Rational::from_integer(0)),
            ),
        ],
    }
}

fn model() -> ValidatedModel<TestKind> {
    ValidatedModel { owners: vec![text("owner"), text("journal")], capacities: vec![], laws: vec![supply_law(), combine_law()] }
}

fn supply_exchange(stock: Stock<TestKind>, amount: Quantity<TestKind>, law: &str) -> Exchange<TestKind> {
    let id = stock.id.clone();
    let mut proposal = Exchange::new(format!("supply-{}", id), text(law));
    proposal.bindings.push((text("stock"), id));
    proposal.deltas.push((text("stock"), Quantity::new(amount.amount.clone(), amount.kind)));
    proposal.boundaries.push((text("supply"), amount));
    proposal.creates.push(stock);
    proposal
}

fn supply_stock(engine: &mut Engine<TestKind>, stock: Stock<TestKind>, amount: Quantity<TestKind>, law: &str) {
    let prepared = engine.prepare(supply_exchange(stock, amount, law), vec![]).unwrap();
    engine.publish(prepared).unwrap();
}

fn supply(engine: &mut Engine<TestKind>, id: &str, amount: i64) {
    supply_stock(engine, spec(id), q(amount), "supply");
}

fn combine(id: &str, amount: i64) -> Exchange<TestKind> {
    let mut proposal = Exchange::new(text(id), text("combine"));
    proposal.bindings = vec![(text("a"), text("a")), (text("b"), text("b")), (text("out"), text("out"))];
    proposal.deltas = vec![(text("a"), q(-amount)), (text("b"), q(-amount)), (text("out"), q(2 * amount))];
    proposal
}

fn accepted(key: &str) -> Contribution<TestKind> {
    Contribution { owner: text("journal"), writes: vec![RecordWrite { key: text(key), value: Some(b"accepted".to_vec()) }], facts: vec![] }
}

fn journal(engine: &Engine<TestKind>, proposal: &Exchange<TestKind>) -> Contribution<TestKind> {
    engine
        .participate("journal", vec![RecordWrite { key: proposal.id.clone(), value: Some(b"accepted".to_vec()) }], vec![])
        .unwrap()
}

fn amounts(engine: &Engine<TestKind>, ids: &[&str]) -> (u64, Vec<Option<Rational>>) {
    (engine.revision(), ids.iter().map(|id| engine.amount(id).ok().cloned()).collect())
}

fn same(a: &Receipt, b: &Receipt) -> bool {
    a.id == b.id && a.revision == b.revision && a.law == b.law && a.changes == b.changes
}

fn funded() -> Engine<TestKind> {
    let mut engine = Engine::new(model());
    for (id, amount) in [("a", 10), ("b", 10), ("out", 0)] {
        supply(&mut engine, id, amount);
    }
    engine
}

#[test]
fn missing_second_input_preserves_every_stock_and_record() {
    let mut engine = Engine::new(model());
    supply(&mut engine, "a", 10);
    supply(&mut engine, "b", 0);
    supply(&mut engine, "out", 0);
    let before = amounts(&engine, &["a", "b", "out"]);
    let proposal = combine("reaction", 2);
    let evidence = journal(&engine, &proposal);
    assert!(matches!(engine.prepare(proposal, vec![evidence]), Err(ExchangeError::BelowFloor { .. })));
    assert_eq!(amounts(&engine, &["a", "b", "out"]), before);
    assert_eq!(engine.record("journal", "reaction"), None);
}

#[test]
fn publication_is_one_root_and_stale_competitor_cannot_spend() {
    let mut engine = funded();
    let first = combine("first", 7);
    let second = combine("second", 7);
    let first_part = journal(&engine, &first);
    let prepared_first = engine.prepare(first, vec![first_part]).unwrap();
    let second_part = journal(&engine, &second);
    let prepared_second = engine.prepare(second, vec![second_part]).unwrap();
    assert_eq!(engine.amount("a").unwrap(), &Rational::from_integer(10));
    assert_eq!(engine.record("journal", "first"), None);
    engine.publish(prepared_first).unwrap();
    assert_eq!(engine.amount("a").unwrap(), &Rational::from_integer(3));
    assert_eq!(engine.record("journal", "first"), Some(&b"accepted".to_vec()));
    let before = amounts(&engine, &["a", "b", "out"]);
    assert!(matches!(engine.publish(prepared_second), Err(ExchangeError::Stale)));
    assert_eq!(amounts(&engine, &["a", "b", "out"]), before);
    assert_eq!(engine.record("journal", "second"), None);
}

#[test]
fn duplicate_restore_and_conflicting_reuse_are_distinct() {
    let mut engine = funded();
    let proposal = combine("first", 2);
    let part = journal(&engine, &proposal);
    let prepared = engine.prepare(proposal, vec![part]).unwrap();
    let first = engine.publish(prepared).unwrap();
    let again = engine.prepare(combine("first", 2), vec![accepted("first")]).unwrap();
    assert!(same(&engine.publish(again).unwrap(), &first));
    assert_eq!(engine.revision(), 4);
    let history = vec![
        (supply_exchange(spec("a"), q(10), "supply"), vec![]),
        (supply_exchange(spec("b"), q(10), "supply"), vec![]),
        (supply_exchange(spec("out"), q(0), "supply"), vec![]),
        (combine("first", 2), vec![accepted("first")]),
    ];
    let mut restored = Engine::replay(model(), history).unwrap();
    assert_eq!(amounts(&restored, &["a", "b", "out"]), amounts(&engine, &["a", "b", "out"]));
    let duplicate = restored.prepare(combine("first", 2), vec![accepted("first")]).unwrap();
    assert!(same(&restored.publish(duplicate).unwrap(), &first));
    let conflict = combine("first", 3);
    assert!(matches!(restored.prepare(conflict, vec![accepted("first")]), Err(ExchangeError::Duplicate { .. })));
}

#[test]
fn missing_required_participant_and_changed_binding_fail_before_publication() {
    let engine = funded();
    let proposal = combine("first", 2);
    assert!(matches!(engine.prepare(proposal, vec![]), Err(ExchangeError::MissingParticipant { .. })));
}

#[test]
fn capacity_uses_whole_result_and_rejects_without_losing_inputs() {
    let mut declaration = model();
    declaration.capacities.push(Capacity { id: text("hold"), maximum: Rational::from_integer(20) });
    declaration.capacities.push(Capacity { id: text("product-bin"), maximum: Rational::from_integer(3) });
    let mut engine = Engine::new(declaration);
    for (id, amount) in [("a", 10), ("b", 10), ("out", 0)] {
        let mut stock = spec(id);
        stock.capacities.push((text("hold"), Rational::from_integer(1)));
        if id == "out" {
            stock.capacities.push((text("product-bin"), Rational::from_integer(1)));
        }
        supply_stock(&mut engine, stock, q(amount), "supply");
    }
    // The hold starts full: products fit only when consumed input capacity is released.
    let proposal = combine("fits", 1);
    let part = journal(&engine, &proposal);
    let prepared = engine.prepare(proposal, vec![part]).unwrap();
    engine.publish(prepared).unwrap();
    let before = amounts(&engine, &["a", "b", "out"]);
    let rejected = combine("overflow", 1);
    let part = journal(&engine, &rejected);
    assert!(matches!(engine.prepare(rejected, vec![part]), Err(ExchangeError::Capacity { id, .. }) if id == "product-bin"));
    assert_eq!(amounts(&engine, &["a", "b", "out"]), before);
}

#[test]
fn signed_coordinate_is_distinct_from_nonnegative_stock() {
    let mut declaration = model();
    declaration.laws.push(Law {
        id: text("signed-supply"),
        slots: vec![(text("stock"), TestKind::Charge)],
        boundaries: vec![(text("supply"), TestKind::Charge)],
        facts: vec![],
        participants: vec![],
        constraints: vec![equation("supply", Expr::delta(text("stock")), Expr::boundary(text("supply")))],
    });
    let mut engine = Engine::new(declaration);
    let signed = Stock { id: text("signed"), owner: text("owner"), kind: TestKind::Charge, capacities: vec![] };
    supply_stock(&mut engine, signed, Quantity::new(Rational::from_integer(-4), TestKind::Charge), "signed-supply");
    assert_eq!(engine.amount("signed").unwrap(), &Rational::from_integer(-4));
    let proposal = supply_exchange(spec("material"), q(-1), "supply");
    assert!(matches!(engine.prepare(proposal, vec![]), Err(ExchangeError::BelowFloor { .. })));
    assert!(engine.stock("material").is_err());
}

#[test]
fn coupled_conversion_resolves_tiny_release_beside_huge_rest_stock() {
    let mut declaration = model();
    let mut energy_supply = supply_law();
    energy_supply.id = text("energy-supply");
    energy_supply.slots = vec![(text("stock"), TestKind::Energy)];
    energy_supply.boundaries = vec![(text("supply"), TestKind::Energy)];
    declaration.laws.push(energy_supply);
    declaration.laws.push(Law {
        id: text("conversion"),
        slots: vec![(text("energy"), TestKind::Energy), (text("mass"), TestKind::Material)],
        boundaries: vec![],
        facts: vec![],
        participants: vec![],
        constraints: vec![equation(
            "mass-energy",
            Expr::sum(vec![
                Expr::delta(text("mass")).product(Expr::constant(Rational::from_integer(90_000_000_000_000_000))),
                Expr::delta(text("energy")),
            ]),
            Expr::constant(Rational::from_integer(0)),
        )],
    });
    let mut engine = Engine::new(declaration);
    let million_billion = Rational::from_integer(1_000_000_000_000_000);
    let huge = million_billion.mul(&million_billion);
    supply_stock(&mut engine, spec("fuel"), Quantity::new(huge.clone(), TestKind::Material), "supply");
    let electric = Stock { id: text("electric"), owner: text("owner"), kind: TestKind::Energy, capacities: vec![] };
    supply_stock(&mut engine, electric, Quantity::new(Rational::from_integer(0), TestKind::Energy), "energy-supply");
    let consumed = Rational::new(1, 1_000_000_000_000_000_000);
    let proposal = |energy: Option<Rational>| {
        let mut proposal = Exchange::new(text("convert"), text("conversion"));
        proposal.bindings = vec![(text("mass"), text("fuel")), (text("energy"), text("electric"))];
        proposal.deltas.push((text("mass"), Quantity::new(consumed.neg(), TestKind::Material)));
        if let Some(amount) = energy {
            proposal.deltas.push((text("energy"), Quantity::new(amount, TestKind::Energy)));
        }
        proposal
    };
    let before = amounts(&engine, &["fuel", "electric"]);
    assert!(matches!(engine.prepare(proposal(None), vec![]), Err(ExchangeError::Constraint { id, .. }) if id == "mass-energy"));
    assert_eq!(amounts(&engine, &["fuel", "electric"]), before);
    let prepared = engine.prepare(proposal(Some(Rational::new(9, 100))), vec![]).unwrap();
    engine.publish(prepared).unwrap();
    assert_eq!(engine.amount("fuel").unwrap(), &huge.sub(&consumed));
    assert_eq!(engine.amount("electric").unwrap(), &Rational::new(9, 100));
}

#[test]
fn law_dimension_unknown_boundary_and_bad_coefficients_are_rejected() {
    let engine = funded();
    let mut proposal = combine("unequal-inputs", 2);
    proposal.deltas[0] = (text("a"), q(-1));
    let part = journal(&engine, &proposal);
    let mut repeated = combine("unequal-inputs", 2);
    repeated.deltas[0] = (text("a"), q(-1));
    assert!(matches!(engine.prepare(repeated, vec![part]), Err(ExchangeError::Constraint { id, .. }) if id == "stoichiometry"));
    proposal.boundaries.push((text("magic"), q(1)));
    assert!(matches!(
        engine.prepare(proposal, vec![]),
        Err(ExchangeError::Malformed { reason: Malformed::UndeclaredBoundary })
    ));
}

#[test]
fn evaluated_facts_are_owned_and_bound_to_exact_proposal_and_revision() {
    let mut declaration = model();
    declaration.laws[1].facts.push(Fact { id: text("limit"), owner: text("journal"), kind: TestKind::Material });
    let mut limit = equation("owner-limit", Expr::delta(text("out")), Expr::fact(text("limit")));
    limit.relation = Relation::LessOrEqual;
    declaration.laws[1].constraints.push(limit);
    let mut engine = Engine::new(declaration);
    for (id, amount) in [("a", 10), ("b", 10), ("out", 0)] {
        supply(&mut engine, id, amount);
    }
    let proposal = combine("first", 2);
    let wrong_owner = engine.participate("owner", vec![], vec![(text("limit"), q(4))]).unwrap();
    let part = journal(&engine, &proposal);
    assert!(matches!(engine.prepare(proposal, vec![wrong_owner, part]), Err(ExchangeError::Fact { .. })));
    let approved = engine.participate("journal", vec![], vec![(text("limit"), q(4))]).unwrap();
    let prepared = engine.prepare(combine("first", 2), vec![approved]).unwrap();
    engine.publish(prepared).unwrap();
    assert_eq!(engine.amount("out").unwrap(), &Rational::from_integer(4));
}

#[test]
fn topology_preserves_quantity_identity_and_retires_only_accounted_empty_stocks() {
    let mut engine = funded();
    let mut bad = combine("bad-remove", 0);
    bad.removes.push(text("a"));
    let part = journal(&engine, &bad);
    assert!(matches!(engine.prepare(bad, vec![part]), Err(ExchangeError::NonemptyRemoval { .. })));
    let valid = || {
        let mut valid = combine("consume-and-move", 10);
        valid.removes = vec![text("a"), text("b")];
        valid.moves.push((text("out"), Placement { owner: text("journal"), capacities: vec![] }));
        valid
    };
    let prepared = engine.prepare(valid(), vec![accepted("consume-and-move")]).unwrap();
    engine.publish(prepared).unwrap();
    assert_eq!(engine.stock("out").unwrap().owner, "journal");
    assert_eq!(engine.amount("out").unwrap(), &Rational::from_integer(20));
    assert!(engine.stock("a").is_err());
    let mut reuse = Exchange::new(text("reuse"), text("supply"));
    reuse.bindings.push((text("stock"), text("a")));
    reuse.creates.push(spec("a"));
    assert!(matches!(engine.prepare(reuse, vec![]), Err(ExchangeError::StockInUse { .. })));
    let history = vec![
        (supply_exchange(spec("a"), q(10), "supply"), vec![]),
        (supply_exchange(spec("b"), q(10), "supply"), vec![]),
        (supply_exchange(spec("out"), q(0), "supply"), vec![]),
        (valid(), vec![accepted("consume-and-move")]),
    ];
    let restored = Engine::replay(model(), history).unwrap();
    assert_eq!(restored.stock("out").unwrap().owner, "journal");
}

#[test]
fn rejected_record_change_does_not_publish_quantities_or_earlier_record_writes() {
    let engine = funded();
    let proposal = combine("rejected-journal", 2);
    let writes = vec![
        RecordWrite { key: text("a-valid"), value: Some(b"new".to_vec()) },
        RecordWrite { key: text("z-missing"), value: None },
    ];
    let part = engine.participate("journal", writes, vec![]).unwrap();
    let before = amounts(&engine, &["a", "b", "out"]);
    assert!(matches!(engine.prepare(proposal, vec![part]), Err(ExchangeError::MissingRecord { .. })));
    assert_eq!(amounts(&engine, &["a", "b", "out"]), before);
    assert_eq!(engine.record("journal", "a-valid"), None);
}

#[test]
fn restore_revalidates_history_and_does_not_accept_unaccounted_balances() {
    let mut unaccounted = supply_exchange(spec("a"), q(10), "supply");
    unaccounted.boundaries.clear();
    assert!(matches!(Engine::replay(model(), vec![(unaccounted, vec![])]), Err(ExchangeError::Constraint { .. })));
    let restored = Engine::replay(model(), vec![(supply_exchange(spec("a"), q(10), "supply"), vec![])]).unwrap();
    assert_eq!(restored.amount("a").unwrap(), &Rational::from_integer(10));
}

#[test]
fn nonlinear_derived_constraint_checks_motion_without_a_second_energy_stock() {
    let mut declaration = model();
    let mut nonlinear = supply_law();
    nonlinear.id = text("bounded-square");
    let mut constraint = equation(
        "square-budget",
        Expr::after(text("stock")).product(Expr::after(text("stock"))),
        Expr::constant(Rational::from_integer(25)),
    );
    constraint.relation = Relation::LessOrEqual;
    nonlinear.constraints.push(constraint);
    declaration.laws.push(nonlinear);
    let mut engine = Engine::new(declaration);
    supply(&mut engine, "x", 4);
    let mut proposal = Exchange::new(text("overshoot"), text("bounded-square"));
    proposal.bindings.push((text("stock"), text("x")));
    proposal.deltas.push((text("stock"), q(2)));
    proposal.boundaries.push((text("supply"), q(2)));
    assert!(matches!(
        engine.prepare(proposal, vec![]),
        Err(ExchangeError::Constraint { id, residual, .. }) if id == "square-budget" && residual == Rational::from_integer(11)
    ));
    assert_eq!(engine.amount("x").unwrap(), &Rational::from_integer(4));
}

#[test]
fn missing_sink_and_slot_alias_cannot_turn_a_transform_into_a_partial_flow() {
    let engine = funded();
    let mut proposal = combine("missing-sink", 2);
    proposal.deltas.pop();
    let part = journal(&engine, &proposal);
    let mut repeated = combine("missing-sink", 2);
    repeated.deltas.pop();
    assert!(matches!(engine.prepare(repeated, vec![part]), Err(ExchangeError::Constraint { id, .. }) if id == "balance"));
    proposal.bindings[1] = (text("b"), text("a"));
    assert!(matches!(
        engine.prepare(proposal, vec![]),
        Err(ExchangeError::Malformed { reason: Malformed::AliasedStock })
    ));
}

#[test]
fn creation_and_record_order_have_one_canonical_request_identity() {
    let mut engine = Engine::new(model());
    let mut proposal = combine("empty", 0);
    proposal.creates = vec![spec("out"), spec("b"), spec("a")];
    let writes = || vec![RecordWrite { key: text("z"), value: Some(vec![2]) }, RecordWrite { key: text("a"), value: Some(vec![1]) }];
    let part = engine.participate("journal", writes(), vec![]).unwrap();
    let prepared = engine.prepare(proposal, vec![part]).unwrap();
    let committed = engine.publish(prepared).unwrap();
    let mut reordered = combine("empty", 0);
    reordered.creates = vec![spec("a"), spec("b"), spec("out")];
    let part = engine.participate("journal", writes().into_iter().rev().collect(), vec![]).unwrap();
    let repeated = engine.prepare(reordered, vec![part]).unwrap();
    assert!(same(&engine.publish(repeated).unwrap(), &committed));
}

#[test]
fn record_updates_are_canonical_state_and_restore_preserves_them() {
    let mut engine = funded();
    let proposal = combine("committed", 1);
    let part = journal(&engine, &proposal);
    let prepared = engine.prepare(proposal, vec![part]).unwrap();
    let receipt = engine.publish(prepared).unwrap();
    assert!(same(engine.receipt("committed").unwrap(), &receipt));
    let again = engine.prepare(combine("committed", 1), vec![accepted("committed")]).unwrap();
    assert!(same(&engine.publish(again).unwrap(), &receipt));
    let update = || {
        Contribution {
            owner: text("journal"),
            writes: vec![RecordWrite { key: text("committed"), value: Some(b"reconciled".to_vec()) }],
            facts: vec![],
        }
    };
    let prepared = engine.prepare(combine("update-record", 0), vec![update()]).unwrap();
    engine.publish(prepared).unwrap();
    let history = vec![
        (supply_exchange(spec("a"), q(10), "supply"), vec![]),
        (supply_exchange(spec("b"), q(10), "supply"), vec![]),
        (supply_exchange(spec("out"), q(0), "supply"), vec![]),
        (combine("committed", 1), vec![accepted("committed")]),
        (combine("update-record", 0), vec![update()]),
    ];
    let restored = Engine::replay(model(), history).unwrap();
    assert_eq!(restored.record("journal", "committed"), Some(&b"reconciled".to_vec()));
}
