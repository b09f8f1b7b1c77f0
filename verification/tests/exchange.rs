use conservation::engine::{
    canonical, transition, Capacity, Contribution, Engine, Exchange, ExchangeState, Fact, Law, Placement, Quantity,
    RecordWrite, Request, Stock, ValidatedModel,
};
use conservation::exchange::{Constraint, Evaluation, ExchangeError, Expr, KindContext, Malformed, Relation};
use conservation::rational::Rational;
use conservation::test_kinds::TestKind;

fn integer(value: i64) -> Rational {
    Rational::from_integer(value)
}

fn frac(numer: i64, denom: i64) -> Rational {
    Rational::new(numer, denom)
}

fn text(value: &str) -> String {
    value.to_string()
}

fn empty_input() -> Evaluation {
    Evaluation { before: vec![], after: vec![], deltas: vec![], boundaries: vec![], facts: vec![] }
}

fn q(amount: Rational, kind: TestKind) -> Quantity<TestKind> {
    Quantity::new(amount, kind)
}

fn stock(id: &str, capacities: Vec<(String, Rational)>) -> Stock<TestKind> {
    Stock { id: text(id), owner: text("hold"), kind: TestKind::Material, capacities }
}

/// `supply`: one material role whose delta equals the boundary input.
fn supply_law() -> Law<TestKind> {
    Law {
        id: text("supply"),
        slots: vec![(text("stock"), TestKind::Material)],
        boundaries: vec![(text("source"), TestKind::Material)],
        facts: vec![],
        participants: vec![],
        constraints: vec![Constraint::equal(text("balance"), Expr::delta(text("stock")), Expr::boundary(text("source")))],
    }
}

/// `move`: two material roles whose deltas cancel.
fn move_law() -> Law<TestKind> {
    Law {
        id: text("move"),
        slots: vec![(text("from"), TestKind::Material), (text("to"), TestKind::Material)],
        boundaries: vec![],
        facts: vec![],
        participants: vec![],
        constraints: vec![Constraint::equal(
            text("closed"),
            Expr::sum(vec![Expr::delta(text("from")), Expr::delta(text("to"))]),
            Expr::constant(integer(0)),
        )],
    }
}

fn model(capacities: Vec<Capacity>) -> ValidatedModel<TestKind> {
    ValidatedModel { owners: vec![text("hold")], capacities, laws: vec![supply_law(), move_law()] }
}

fn empty_state() -> ExchangeState<TestKind> {
    ExchangeState { revision: 0, stocks: vec![], amounts: vec![], retired: vec![], records: vec![] }
}

fn supply(id: &str, target: &str, amount: Rational, creates: Vec<Stock<TestKind>>) -> Exchange<TestKind> {
    Exchange {
        id: text(id),
        law: text("supply"),
        bindings: vec![(text("stock"), text(target))],
        deltas: vec![(text("stock"), q(amount.clone(), TestKind::Material))],
        boundaries: vec![(text("source"), q(amount, TestKind::Material))],
        creates,
        removes: vec![],
        moves: vec![],
    }
}

fn run(
    model: &ValidatedModel<TestKind>,
    state: &ExchangeState<TestKind>,
    exchange: Exchange<TestKind>,
) -> Result<(ExchangeState<TestKind>, conservation::engine::Receipt), ExchangeError> {
    let request = canonical(model, exchange, vec![])?;
    transition(model, state, &request)
}

#[test]
fn expressions_evaluate_exactly() {
    let mut input = empty_input();
    input.deltas.push((text("p"), frac(3, 2)));
    input.facts.push((text("m"), integer(3)));
    // p * p / (2 * m) with p = 3/2, m = 3
    let kinetic = Expr::product(Expr::delta(text("p")), Expr::delta(text("p")))
        .quotient(Expr::product(Expr::constant(integer(2)), Expr::fact(text("m"))));
    let value = kinetic.evaluate(&input).unwrap();
    assert!(value.eq(&frac(3, 8)));
    let total = Expr::sum(vec![Expr::constant(integer(1)), Expr::delta(text("p")), Expr::fact(text("m"))]);
    assert!(total.evaluate(&input).unwrap().eq(&frac(11, 2)));
    assert!(Expr::sum(vec![]).evaluate(&input).unwrap().eq(&integer(0)));
}

#[test]
fn a_zero_denominator_and_a_missing_value_are_refused() {
    let input = empty_input();
    let by_zero = Expr::quotient(Expr::constant(integer(1)), Expr::constant(integer(0)));
    assert!(matches!(by_zero.evaluate(&input), Err(ExchangeError::DivisionByZero)));
    match Expr::before(text("absent")).evaluate(&input) {
        Err(ExchangeError::MissingInput { id }) => assert_eq!(id, "absent"),
        other => panic!("unexpected {:?}", other),
    }
    // The denominator is read first: its missing value is the failure reported.
    match Expr::quotient(Expr::after(text("a")), Expr::boundary(text("b"))).evaluate(&input) {
        Err(ExchangeError::MissingInput { id }) => assert_eq!(id, "b"),
        other => panic!("unexpected {:?}", other),
    }
}

#[test]
fn tolerances_bound_the_residual() {
    let input = empty_input();
    let mut near = Constraint::equal(text("near"), Expr::constant(integer(100)), Expr::constant(integer(101)));
    match near.check("x", &input) {
        Err(ExchangeError::Constraint { exchange, id, residual }) => {
            assert_eq!(exchange, "x");
            assert_eq!(id, "near");
            assert!(residual.eq(&integer(-1)));
        },
        other => panic!("unexpected {:?}", other),
    }
    // 1/100 of max(|100|, |101|) is 101/100 >= 1.
    near.relative = frac(1, 100);
    assert!(near.check("x", &input).is_ok());
    near.relative = integer(0);
    near.absolute = integer(1);
    assert!(near.check("x", &input).is_ok());
    let bound = Constraint {
        id: text("bound"),
        left: Expr::constant(integer(5)),
        right: Expr::constant(integer(3)),
        relation: Relation::LessOrEqual,
        absolute: integer(1),
        relative: integer(0),
    };
    assert!(matches!(bound.check("x", &input), Err(ExchangeError::Constraint { .. })));
    let under = Constraint { left: Expr::constant(integer(-5)), ..bound };
    assert!(under.check("x", &input).is_ok());
}

#[test]
fn supplying_a_created_stock_records_before_and_after() {
    let model = model(vec![]);
    let (next, receipt) = run(&model, &empty_state(), supply("initial-load", "fuel", frac(3, 2), vec![stock("fuel", vec![])])).unwrap();
    assert_eq!(next.revision, 1);
    assert_eq!(receipt.revision, 1);
    assert_eq!(receipt.id, "initial-load");
    assert_eq!(receipt.law, "supply");
    assert_eq!(receipt.changes.len(), 1);
    assert_eq!(receipt.changes[0].0, "fuel");
    assert!(receipt.changes[0].1.eq(&integer(0)));
    assert!(receipt.changes[0].2.eq(&frac(3, 2)));
    assert_eq!(next.stocks.len(), 1);
    assert!(next.amounts[0].eq(&frac(3, 2)));
}

#[test]
fn an_indivisible_move_keeps_the_total() {
    let model = model(vec![]);
    let (state, _) = run(&model, &empty_state(), supply("load", "a", integer(10), vec![stock("a", vec![])])).unwrap();
    let (state, _) = run(&model, &state, supply("open", "b", integer(0), vec![stock("b", vec![])])).unwrap();
    let exchange = Exchange {
        id: text("move"),
        law: text("move"),
        bindings: vec![(text("to"), text("b")), (text("from"), text("a"))],
        deltas: vec![(text("from"), q(integer(-4), TestKind::Material)), (text("to"), q(integer(4), TestKind::Material))],
        boundaries: vec![],
        creates: vec![],
        removes: vec![],
        moves: vec![],
    };
    let (next, receipt) = run(&model, &state, exchange).unwrap();
    assert_eq!(next.revision, 3);
    assert_eq!(receipt.changes[0].0, "a");
    assert!(receipt.changes[0].2.eq(&integer(6)));
    assert_eq!(receipt.changes[1].0, "b");
    assert!(receipt.changes[1].2.eq(&integer(4)));
}

#[test]
fn a_leg_below_the_floor_is_refused_whole() {
    let model = model(vec![]);
    let (state, _) = run(&model, &empty_state(), supply("load", "a", integer(3), vec![stock("a", vec![])])).unwrap();
    match run(&model, &state, supply("drain", "a", integer(-5), vec![])) {
        Err(ExchangeError::BelowFloor { stock, amount }) => {
            assert_eq!(stock, "a");
            assert!(amount.eq(&integer(-2)));
        },
        other => panic!("unexpected {:?}", other.err()),
    }
    assert!(state.amounts[0].eq(&integer(3)));
    assert_eq!(state.revision, 1);
}

#[test]
fn an_unbalanced_exchange_names_its_residual() {
    let model = model(vec![]);
    let mut exchange = supply("skim", "a", integer(3), vec![stock("a", vec![])]);
    exchange.boundaries[0].1 = q(integer(2), TestKind::Material);
    match run(&model, &empty_state(), exchange) {
        Err(ExchangeError::Constraint { exchange, id, residual }) => {
            assert_eq!(exchange, "skim");
            assert_eq!(id, "balance");
            assert!(residual.eq(&integer(1)));
        },
        other => panic!("unexpected {:?}", other.err()),
    }
}

#[test]
fn capacity_counts_resulting_contents() {
    let model = model(vec![Capacity { id: text("volume"), maximum: integer(10) }]);
    let tank = stock("a", vec![(text("volume"), frac(1, 2))]);
    let (state, _) = run(&model, &empty_state(), supply("fill", "a", integer(20), vec![tank])).unwrap();
    match run(&model, &state, supply("overfill", "a", integer(1), vec![])) {
        Err(ExchangeError::Capacity { id, residual }) => {
            assert_eq!(id, "volume");
            assert!(residual.eq(&frac(1, 2)));
        },
        other => panic!("unexpected {:?}", other.err()),
    }
}

#[test]
fn removal_retires_only_empty_stocks() {
    let model = model(vec![]);
    let (state, _) = run(&model, &empty_state(), supply("load", "a", integer(2), vec![stock("a", vec![])])).unwrap();
    let mut keep = supply("remove-full", "a", integer(0), vec![]);
    keep.removes.push(text("a"));
    assert!(matches!(run(&model, &state, keep), Err(ExchangeError::NonemptyRemoval { .. })));
    let mut empty = supply("empty", "a", integer(-2), vec![]);
    empty.removes.push(text("a"));
    let (next, _) = run(&model, &state, empty).unwrap();
    assert!(next.stocks.is_empty());
    assert_eq!(next.retired, vec![text("a")]);
    // A retired identity cannot be created again.
    let again = supply("again", "a", integer(1), vec![stock("a", vec![])]);
    assert!(matches!(run(&model, &next, again), Err(ExchangeError::StockInUse { .. })));
}

#[test]
fn canonical_form_checks_roles_and_fills_zeros() {
    let model = model(vec![]);
    let mut exchange = supply("x", "a", integer(1), vec![]);
    exchange.deltas.clear();
    exchange.boundaries.clear();
    let request = canonical(&model, exchange, vec![]).unwrap();
    assert_eq!(request.exchange.deltas.len(), 1);
    assert!(request.exchange.deltas[0].1.amount.eq(&integer(0)));
    assert!(request.exchange.boundaries[0].1.amount.eq(&integer(0)));

    let mut aliased = supply("y", "a", integer(1), vec![]);
    aliased.law = text("move");
    aliased.bindings = vec![(text("from"), text("a")), (text("to"), text("a"))];
    aliased.deltas.clear();
    aliased.boundaries.clear();
    assert!(matches!(
        canonical(&model, aliased, vec![]),
        Err(ExchangeError::Malformed { reason: Malformed::AliasedStock })
    ));

    let mut missing = supply("z", "a", integer(1), vec![]);
    missing.bindings.clear();
    assert!(matches!(
        canonical(&model, missing, vec![]),
        Err(ExchangeError::Malformed { reason: Malformed::BindingsMismatch })
    ));

    let mut stray = supply("w", "a", integer(1), vec![]);
    stray.deltas.push((text("other"), q(integer(1), TestKind::Material)));
    assert!(matches!(
        canonical(&model, stray, vec![]),
        Err(ExchangeError::Malformed { reason: Malformed::UndeclaredDelta })
    ));

    let mut wrong_kind = supply("v", "a", integer(1), vec![]);
    wrong_kind.boundaries[0].1 = q(integer(1), TestKind::Energy);
    match canonical(&model, wrong_kind, vec![]) {
        Err(ExchangeError::Kinds { context: KindContext::Boundary { port } }) => assert_eq!(port, "source"),
        other => panic!("unexpected {:?}", other.err()),
    }

    let unknown = Exchange { law: text("nope"), ..supply("u", "a", integer(1), vec![]) };
    assert!(matches!(canonical(&model, unknown, vec![]), Err(ExchangeError::UnknownLaw { .. })));
    let blank = supply(" ", "a", integer(1), vec![]);
    assert!(matches!(
        canonical(&model, blank, vec![]),
        Err(ExchangeError::Malformed { reason: Malformed::BlankId })
    ));
}

#[test]
fn declared_facts_come_from_their_owner() {
    let mut law = supply_law();
    law.id = text("measured");
    law.participants = vec![text("lab")];
    law.facts = vec![Fact { id: text("reading"), owner: text("lab"), kind: TestKind::Material }];
    law.constraints = vec![
        Constraint::equal(text("balance"), Expr::delta(text("stock")), Expr::boundary(text("source"))),
        Constraint::equal(text("reading"), Expr::after(text("stock")), Expr::fact(text("reading"))),
    ];
    let model = ValidatedModel { owners: vec![text("hold"), text("lab")], capacities: vec![], laws: vec![law] };
    let exchange = || Exchange { law: text("measured"), ..supply("m", "a", integer(4), vec![stock("a", vec![])]) };
    let request = canonical(&model, exchange(), vec![]).unwrap();
    match transition(&model, &empty_state(), &request) {
        Err(ExchangeError::MissingParticipant { owner }) => assert_eq!(owner, "lab"),
        other => panic!("unexpected {:?}", other.err()),
    }
    let wrong = Contribution { owner: text("hold"), writes: vec![], facts: vec![(text("reading"), q(integer(4), TestKind::Material))] };
    let lab = Contribution { owner: text("lab"), writes: vec![], facts: vec![] };
    let request = canonical(&model, exchange(), vec![lab, wrong]).unwrap();
    assert!(matches!(transition(&model, &empty_state(), &request), Err(ExchangeError::Fact { .. })));
    let lab = Contribution { owner: text("lab"), writes: vec![], facts: vec![(text("reading"), q(integer(4), TestKind::Material))] };
    let request: Request<TestKind> = canonical(&model, exchange(), vec![lab]).unwrap();
    let (next, _) = transition(&model, &empty_state(), &request).unwrap();
    assert!(next.amounts[0].eq(&integer(4)));
}

#[test]
fn an_identical_request_returns_its_receipt_without_another_change() {
    let mut engine = Engine::new(model(vec![]));
    let prepared = engine.prepare(supply("initial-load", "fuel", frac(3, 2), vec![stock("fuel", vec![])]), vec![]).unwrap();
    let receipt = engine.publish(prepared).unwrap();
    assert_eq!(receipt.revision, 1);
    assert!(engine.amount("fuel").unwrap().eq(&frac(3, 2)));
    let again = engine.prepare(supply("initial-load", "fuel", frac(3, 2), vec![stock("fuel", vec![])]), vec![]).unwrap();
    let repeated = engine.publish(again).unwrap();
    assert_eq!(repeated.revision, 1);
    assert_eq!(repeated.id, "initial-load");
    assert!(repeated.changes[0].2.eq(&frac(3, 2)));
    assert_eq!(engine.revision(), 1);
    assert!(engine.amount("fuel").unwrap().eq(&frac(3, 2)));
    assert!(engine.receipt("initial-load").is_some());
    // The same identity with other content is refused.
    let changed = engine.prepare(supply("initial-load", "fuel", integer(2), vec![]), vec![]);
    assert!(matches!(changed, Err(ExchangeError::Duplicate { .. })));
    assert!(matches!(engine.amount("missing"), Err(ExchangeError::UnknownStock { .. })));
}

#[test]
fn a_stale_competitor_cannot_spend_the_same_revision() {
    let mut engine = Engine::new(model(vec![]));
    let first = engine.prepare(supply("a", "a", integer(1), vec![stock("a", vec![])]), vec![]).unwrap();
    let second = engine.prepare(supply("b", "b", integer(1), vec![stock("b", vec![])]), vec![]).unwrap();
    engine.publish(first).unwrap();
    assert!(matches!(engine.publish(second), Err(ExchangeError::Stale)));
    assert_eq!(engine.revision(), 1);
    assert!(engine.amount("b").is_err());
    let retry = engine.prepare(supply("b", "b", integer(1), vec![stock("b", vec![])]), vec![]).unwrap();
    assert_eq!(engine.publish(retry).unwrap().revision, 2);
}

#[test]
fn models_are_validated_before_use() {
    let valid = ValidatedModel::new(vec![text("hold")], vec![Capacity { id: text("volume"), maximum: integer(1) }], vec![supply_law(), move_law()]);
    assert!(valid.is_ok());
    let none = ValidatedModel::<TestKind>::new(vec![], vec![], vec![]);
    assert!(matches!(none, Err(ExchangeError::Malformed { reason: Malformed::NoOwners })));
    let negative = ValidatedModel::<TestKind>::new(vec![text("hold")], vec![Capacity { id: text("volume"), maximum: integer(-1) }], vec![]);
    assert!(matches!(negative, Err(ExchangeError::Malformed { reason: Malformed::NegativeCapacity })));
    let twice = ValidatedModel::new(vec![text("hold")], vec![], vec![supply_law(), supply_law()]);
    assert!(matches!(twice, Err(ExchangeError::Malformed { reason: Malformed::DuplicateLaw })));
    let mut uncovered = supply_law();
    uncovered.constraints[0].relation = Relation::LessOrEqual;
    let refused = ValidatedModel::new(vec![text("hold")], vec![], vec![uncovered]);
    assert!(matches!(refused, Err(ExchangeError::Malformed { reason: Malformed::Uncovered })));
    let mut loose = supply_law();
    loose.constraints[0].relative = integer(1);
    let refused = ValidatedModel::new(vec![text("hold")], vec![], vec![loose]);
    assert!(matches!(refused, Err(ExchangeError::Malformed { reason: Malformed::InvalidTolerance })));
    let mut foreign = supply_law();
    foreign.participants.push(text("stranger"));
    let refused = ValidatedModel::new(vec![text("hold")], vec![], vec![foreign]);
    assert!(matches!(refused, Err(ExchangeError::Malformed { reason: Malformed::UndeclaredOwner })));
}

#[test]
fn a_move_keeps_identity_and_quantity_and_rechecks_capacity() {
    let mut model = model(vec![Capacity { id: text("shelf"), maximum: integer(3) }]);
    model.owners.push(text("yard"));
    let (state, _) = run(&model, &empty_state(), supply("load", "a", integer(4), vec![stock("a", vec![])])).unwrap();
    let mut relocate = supply("relocate", "a", integer(0), vec![]);
    relocate.moves.push((text("a"), Placement { owner: text("yard"), capacities: vec![] }));
    let (next, receipt) = run(&model, &state, relocate).unwrap();
    assert_eq!(next.stocks[0].id, "a");
    assert_eq!(next.stocks[0].owner, "yard");
    assert!(next.amounts[0].eq(&integer(4)));
    assert!(receipt.changes[0].2.eq(&integer(4)));
    // Weight 1 on a shelf of 3 cannot hold 4.
    let mut crowd = supply("crowd", "a", integer(0), vec![]);
    crowd.moves.push((text("a"), Placement { owner: text("yard"), capacities: vec![(text("shelf"), integer(1))] }));
    assert!(matches!(run(&model, &state, crowd), Err(ExchangeError::Capacity { .. })));
    let mut stranger = supply("stranger", "a", integer(0), vec![]);
    stranger.moves.push((text("a"), Placement { owner: text("nobody"), capacities: vec![] }));
    assert!(matches!(
        run(&model, &state, stranger),
        Err(ExchangeError::Malformed { reason: Malformed::UndeclaredOwner })
    ));
    let mut both = supply("both", "a", integer(-4), vec![]);
    both.moves.push((text("a"), Placement { owner: text("yard"), capacities: vec![] }));
    both.removes.push(text("a"));
    assert!(matches!(
        run(&model, &state, both),
        Err(ExchangeError::Malformed { reason: Malformed::ConflictingTopology })
    ));
}

#[test]
fn records_publish_with_the_exchange_or_not_at_all() {
    let mut law = supply_law();
    law.participants = vec![text("journal")];
    let model = ValidatedModel::new(vec![text("hold"), text("journal")], vec![], vec![law]).unwrap();
    let mut engine = Engine::new(model);
    let entry = engine
        .participate("journal", vec![RecordWrite { key: text("load"), value: Some(vec![1, 2, 3]) }], vec![])
        .unwrap();
    let prepared = engine.prepare(supply("load", "a", integer(2), vec![stock("a", vec![])]), vec![entry]).unwrap();
    assert!(engine.record("journal", "load").is_none());
    engine.publish(prepared).unwrap();
    assert_eq!(engine.record("journal", "load"), Some(&vec![1, 2, 3]));
    // Removing a missing record refuses the whole exchange.
    let bad = engine
        .participate("journal", vec![RecordWrite { key: text("absent"), value: None }], vec![])
        .unwrap();
    match engine.prepare(supply("more", "a", integer(1), vec![]), vec![bad]) {
        Err(ExchangeError::MissingRecord { owner, key }) => {
            assert_eq!(owner, "journal");
            assert_eq!(key, "absent");
        },
        other => panic!("unexpected {:?}", other.err()),
    }
    assert!(engine.amount("a").unwrap().eq(&integer(2)));
    let drop = engine.participate("journal", vec![RecordWrite { key: text("load"), value: None }], vec![]).unwrap();
    let prepared = engine.prepare(supply("more", "a", integer(1), vec![]), vec![drop]).unwrap();
    engine.publish(prepared).unwrap();
    assert!(engine.record("journal", "load").is_none());
    assert!(engine.amount("a").unwrap().eq(&integer(3)));
    // Participation is checked.
    assert!(matches!(
        engine.participate("journal", vec![], vec![]),
        Err(ExchangeError::Malformed { reason: Malformed::EmptyParticipation })
    ));
    let twice = vec![
        RecordWrite { key: text("k"), value: Some(vec![1]) },
        RecordWrite { key: text("k"), value: Some(vec![2]) },
    ];
    assert!(matches!(
        engine.participate("journal", twice, vec![]),
        Err(ExchangeError::Malformed { reason: Malformed::DuplicateRecordKey })
    ));
    assert!(matches!(
        engine.participate("stranger", vec![RecordWrite { key: text("k"), value: None }], vec![]),
        Err(ExchangeError::Malformed { reason: Malformed::UndeclaredOwner })
    ));
}

#[test]
fn replaying_a_history_rebuilds_the_state() {
    let history = vec![
        (supply("load", "a", integer(5), vec![stock("a", vec![])]), vec![]),
        (supply("more", "a", frac(1, 2), vec![]), vec![]),
    ];
    let engine = Engine::replay(model(vec![]), history).unwrap();
    assert_eq!(engine.revision(), 2);
    assert!(engine.amount("a").unwrap().eq(&frac(11, 2)));
    assert!(engine.receipt("more").is_some());
    let twice = vec![
        (supply("load", "a", integer(5), vec![stock("a", vec![])]), vec![]),
        (supply("load", "a", integer(5), vec![stock("a", vec![])]), vec![]),
    ];
    assert!(matches!(Engine::replay(model(vec![]), twice), Err(ExchangeError::DuplicateCommit { .. })));
    let invalid = vec![(supply("drain", "a", integer(-1), vec![stock("a", vec![])]), vec![])];
    assert!(matches!(Engine::replay(model(vec![]), invalid), Err(ExchangeError::BelowFloor { .. })));
}
