//! Validated exact transition records and continuous transition traces.
use crate::carrier::{
    identity_equivalent, CarrierIdentity, ExactAmounts, StockFlowCarrier, StockFlowError, Symbol, ValueRole,
};
use crate::ident::{AxisId, BoundaryId, FlowId, KindId, LedgerId, Named};
use crate::entries::{has_key, lemma_sum_for_distinct_at, sum_for};
use crate::rational::Rational;
use crate::text::{lemma_text_lt_irreflexive, text_lt};
use crate::trace::TraceState;
use crate::table::{find_key, holds, keys_sorted, lemma_position, position, value_of};
use vstd::prelude::*;

verus! {

/// Whether entry `i` is the first, in identifier order, that the expected
/// table does not name.
pub open spec fn first_extra<I: Symbol, T>(actual: Seq<(I, T)>, expected: Seq<(I, KindId)>, i: int) -> bool {
    &&& 0 <= i < actual.len()
    &&& !holds(expected, actual[i].0@)
    &&& forall|a: int| 0 <= a < i ==> holds(expected, (#[trigger] actual[a]).0@)
}

/// Whether the first `count` expected symbols are present with their kinds.
pub open spec fn fits_before<I: Symbol>(actual: Seq<(I, (KindId, crate::rational::Rational))>, expected: Seq<(I, KindId)>, count: int) -> bool {
    forall|j: int| 0 <= j < count ==> holds(actual, (#[trigger] expected[j]).0@) && value_of(actual, expected[j].0@).0@
        == expected[j].1@
}

/// Whether a vector names exactly the expected symbols, each with its
/// expected kind.
pub open spec fn values_fit<I: Symbol>(actual: Seq<(I, (KindId, crate::rational::Rational))>, expected: Seq<(I, KindId)>) -> bool {
    &&& forall|i: int| 0 <= i < actual.len() ==> holds(expected, (#[trigger] actual[i]).0@)
    &&& fits_before(actual, expected, expected.len() as int)
}

/// Whether `error` reports expected symbol `j` as missing or of the wrong kind.
pub open spec fn misfit_at<I: Symbol>(
    actual: Seq<(I, (KindId, crate::rational::Rational))>,
    expected: Seq<(I, KindId)>,
    role: ValueRole,
    j: int,
    error: StockFlowError,
) -> bool {
    if !holds(actual, expected[j].0@) {
        error == StockFlowError::MissingValue { role, symbol: expected[j].0.symbol_spec() }
    } else {
        &&& value_of(actual, expected[j].0@).0@ != expected[j].1@
        &&& error matches StockFlowError::KindMismatch { role: r, symbol: s, expected: e, actual: a } && r == role && s
            == expected[j].0.symbol_spec() && e@ == expected[j].1@ && a@ == value_of(actual, expected[j].0@).0@
    }
}

/// Whether `error` is the first shape failure of a vector: an unexpected
/// symbol in identifier order, then a missing or mistyped expected symbol.
pub open spec fn values_refusal<I: Symbol>(
    actual: Seq<(I, (KindId, crate::rational::Rational))>,
    expected: Seq<(I, KindId)>,
    role: ValueRole,
    error: StockFlowError,
) -> bool {
    if exists|i: int| 0 <= i < actual.len() && !holds(expected, (#[trigger] actual[i]).0@) {
        exists|i: int| #[trigger] first_extra(actual, expected, i) && error == StockFlowError::ExtraValue {
            role,
            symbol: actual[i].0.symbol_spec(),
        }
    } else {
        exists|j: int| 0 <= j < expected.len() && fits_before(actual, expected, j) && #[trigger] misfit_at(actual, expected, role, j, error)
    }
}

/// Checks that a vector names exactly the expected symbols with their kinds.
fn validate_values<I: Symbol>(actual: &ExactAmounts<I>, expected: &Vec<(I, KindId)>, role: ValueRole) -> (result: Result<
    (),
    StockFlowError,
>)
    requires
        keys_sorted(expected@),
    ensures
        result is Ok <==> values_fit(actual.table(), expected@),
        result matches Err(error) ==> values_refusal(actual.table(), expected@, role, error),
{
    let entries = actual.iter();
    let mut i: usize = 0;
    while i < entries.len()
        invariant
            entries@ == actual.table(),
            keys_sorted(expected@),
            i <= entries@.len(),
            forall|a: int| 0 <= a < i ==> holds(expected@, (#[trigger] entries@[a]).0@),
        decreases entries.len() - i,
    {
        if find_key(expected, entries[i].0.text()).is_none() {
            let error = StockFlowError::ExtraValue { role, symbol: entries[i].0.symbol_id() };
            proof {
                assert(first_extra(entries@, expected@, i as int));
            }
            return Err(error);
        }
        i += 1;
    }
    let mut j: usize = 0;
    while j < expected.len()
        invariant
            entries@ == actual.table(),
            keys_sorted(entries@),
            keys_sorted(expected@),
            forall|a: int| 0 <= a < entries@.len() ==> holds(expected@, (#[trigger] entries@[a]).0@),
            j <= expected@.len(),
            fits_before(entries@, expected@, j as int),
        decreases expected.len() - j,
    {
        let id = &expected[j].0;
        match find_key(entries, id.text()) {
            Some(index) => {
                proof {
                    lemma_position(entries@, index as int);
                }
                if !entries[index].1.0.same(&expected[j].1) {
                    let error = StockFlowError::KindMismatch {
                        role,
                        symbol: id.symbol_id(),
                        expected: expected[j].1.clone(),
                        actual: entries[index].1.0.clone(),
                    };
                    proof {
                        assert(misfit_at(entries@, expected@, role, j as int, error));
                    }
                    return Err(error);
                }
            },
            None => {
                let error = StockFlowError::MissingValue { role, symbol: id.symbol_id() };
                proof {
                    assert(misfit_at(entries@, expected@, role, j as int, error));
                }
                return Err(error);
            },
        }
        j += 1;
    }
    Ok(())
}


/// Whether every amount is at least zero.
pub open spec fn all_nonnegative<I: Symbol>(values: Seq<(I, (KindId, Rational))>) -> bool {
    forall|i: int| 0 <= i < values.len() ==> (#[trigger] values[i]).1.1@ >= 0real
}

/// Whether `error` reports the first negative amount in identifier order.
pub open spec fn negative_refusal<I: Symbol>(values: Seq<(I, (KindId, Rational))>, error: StockFlowError) -> bool {
    exists|i: int|
        0 <= i < values.len() && (#[trigger] values[i]).1.1@ < 0real && (forall|a: int| 0 <= a < i ==> (#[trigger] values[a]).1.1@
            >= 0real) && error == StockFlowError::NegativeAmount(values[i].0.symbol_spec())
}

/// Checks that no amount is negative.
fn validate_nonnegative<I: Symbol>(amounts: &ExactAmounts<I>) -> (result: Result<(), StockFlowError>)
    ensures
        result is Ok <==> all_nonnegative(amounts.table()),
        result matches Err(error) ==> negative_refusal(amounts.table(), error),
{
    let entries = amounts.iter();
    let mut i: usize = 0;
    while i < entries.len()
        invariant
            entries@ == amounts.table(),
            i <= entries@.len(),
            forall|a: int| 0 <= a < i ==> (#[trigger] entries@[a]).1.1@ >= 0real,
        decreases entries.len() - i,
    {
        if entries[i].1.1.is_negative() {
            return Err(StockFlowError::NegativeAmount(entries[i].0.symbol_id()));
        }
        i += 1;
    }
    Ok(())
}

/// Whether no settled amount exceeds its request.
pub open spec fn settled_within<I: Symbol>(requested: Seq<(I, (KindId, Rational))>, settled: Seq<(I, (KindId, Rational))>) -> bool {
    forall|i: int| 0 <= i < settled.len() ==> (#[trigger] settled[i]).1.1@ <= value_of(requested, settled[i].0@).1@
}

/// Whether `error` reports the first settled amount, in identifier order,
/// that exceeds its request.
pub open spec fn excess_refusal<I: Symbol>(
    requested: Seq<(I, (KindId, Rational))>,
    settled: Seq<(I, (KindId, Rational))>,
    error: StockFlowError,
) -> bool {
    exists|i: int|
        0 <= i < settled.len() && (#[trigger] settled[i]).1.1@ > value_of(requested, settled[i].0@).1@ && (forall|a: int|
            0 <= a < i ==> (#[trigger] settled[a]).1.1@ <= value_of(requested, settled[a].0@).1@)
            && (error matches StockFlowError::SettledExceedsRequested { symbol: s, requested: r, settled: v } && s
            == settled[i].0.symbol_spec() && r@ == value_of(requested, settled[i].0@).1@ && v@ == settled[i].1.1@)
}

/// Checks that no settled amount exceeds its request.
fn validate_settlement<I: Symbol>(requested: &ExactAmounts<I>, settled: &ExactAmounts<I>) -> (result: Result<
    (),
    StockFlowError,
>)
    requires
        forall|i: int| 0 <= i < settled.table().len() ==> holds(requested.table(), (#[trigger] settled.table()[i]).0@),
    ensures
        result is Ok <==> settled_within(requested.table(), settled.table()),
        result matches Err(error) ==> excess_refusal(requested.table(), settled.table(), error),
{
    let entries = settled.iter();
    let wanted = requested.iter();
    let mut i: usize = 0;
    while i < entries.len()
        invariant
            entries@ == settled.table(),
            wanted@ == requested.table(),
            keys_sorted(wanted@),
            forall|a: int| 0 <= a < entries@.len() ==> holds(wanted@, (#[trigger] entries@[a]).0@),
            i <= entries@.len(),
            forall|a: int| 0 <= a < i ==> (#[trigger] entries@[a]).1.1@ <= value_of(wanted@, entries@[a].0@).1@,
        decreases entries.len() - i,
    {
        let id = &entries[i].0;
        proof {
            assert(holds(wanted@, entries@[i as int].0@));
        }
        let index = match find_key(wanted, id.text()) {
            Some(index) => index,
            None => {
                proof {
                    assert(false);
                }
                return Ok(());
            },
        };
        let limit = &wanted[index].1.1;
        if limit.lt(&entries[i].1.1) {
            let error = StockFlowError::SettledExceedsRequested {
                symbol: id.symbol_id(),
                requested: Box::new(limit.clone()),
                settled: Box::new(entries[i].1.1.clone()),
            };
            proof {
                lemma_position(wanted@, index as int);
            }
            return Err(error);
        }
        proof {
            lemma_position(wanted@, index as int);
        }
        i += 1;
    }
    Ok(())
}

/// Unvalidated input data for one exact accepted transition.
#[derive(Debug, PartialEq, Eq)]
pub struct TransitionRecordData {
    /// Stock state before settlement.
    pub before: ExactAmounts<AxisId>,
    /// Stock state after settlement.
    pub after: ExactAmounts<AxisId>,
    /// Requested internal-flow amounts.
    pub requested_internal: ExactAmounts<FlowId>,
    /// Settled internal-flow amounts.
    pub settled_internal: ExactAmounts<FlowId>,
    /// Requested boundary-flow amounts.
    pub requested_boundary: ExactAmounts<BoundaryId>,
    /// Settled boundary-flow amounts.
    pub settled_boundary: ExactAmounts<BoundaryId>,
    /// Cumulative ledgers before settlement.
    pub ledger_before: ExactAmounts<LedgerId>,
    /// Cumulative ledgers after settlement.
    pub ledger_after: ExactAmounts<LedgerId>,
}

impl Clone for TransitionRecordData {
    fn clone(&self) -> (result: Self) {
        TransitionRecordData {
            before: self.before.clone(),
            after: self.after.clone(),
            requested_internal: self.requested_internal.clone(),
            settled_internal: self.settled_internal.clone(),
            requested_boundary: self.requested_boundary.clone(),
            settled_boundary: self.settled_boundary.clone(),
            ledger_before: self.ledger_before.clone(),
            ledger_after: self.ledger_after.clone(),
        }
    }
}

/// Each ledger's kind, in identifier order.
pub open spec fn ledger_kinds(identity: CarrierIdentity) -> Seq<(LedgerId, KindId)> {
    identity.ledger_table().map_values(|entry: (LedgerId, crate::carrier::LedgerIdentity)| (entry.0, entry.1.kind_spec()))
}

/// Whether every vector of a record has the carrier's shape and kinds, no
/// flow amount is negative, and no settled amount exceeds its request.
pub open spec fn record_valid(identity: CarrierIdentity, data: TransitionRecordData) -> bool {
    let rows = identity.internal_spec().row_table();
    let flows = identity.internal_spec().column_table();
    let ports = identity.boundary_spec().column_table();
    &&& values_fit(data.before.table(), rows)
    &&& values_fit(data.after.table(), rows)
    &&& values_fit(data.requested_internal.table(), flows)
    &&& values_fit(data.settled_internal.table(), flows)
    &&& values_fit(data.requested_boundary.table(), ports)
    &&& values_fit(data.settled_boundary.table(), ports)
    &&& values_fit(data.ledger_before.table(), ledger_kinds(identity))
    &&& values_fit(data.ledger_after.table(), ledger_kinds(identity))
    &&& all_nonnegative(data.requested_internal.table())
    &&& all_nonnegative(data.settled_internal.table())
    &&& all_nonnegative(data.requested_boundary.table())
    &&& all_nonnegative(data.settled_boundary.table())
    &&& settled_within(data.requested_internal.table(), data.settled_internal.table())
    &&& settled_within(data.requested_boundary.table(), data.settled_boundary.table())
}

/// Whether `error` is the first failure of a record, checking in order the
/// shapes of before, after, requested and settled internal, requested and
/// settled boundary, and ledger before and after; then nonnegativity of the
/// four flow vectors; then settled amounts against requests.
pub open spec fn record_refusal(identity: CarrierIdentity, data: TransitionRecordData, error: StockFlowError) -> bool {
    let rows = identity.internal_spec().row_table();
    let flows = identity.internal_spec().column_table();
    let ports = identity.boundary_spec().column_table();
    let ledgers = ledger_kinds(identity);
    if !values_fit(data.before.table(), rows) {
        values_refusal(data.before.table(), rows, ValueRole::Before, error)
    } else if !values_fit(data.after.table(), rows) {
        values_refusal(data.after.table(), rows, ValueRole::After, error)
    } else if !values_fit(data.requested_internal.table(), flows) {
        values_refusal(data.requested_internal.table(), flows, ValueRole::RequestedInternal, error)
    } else if !values_fit(data.settled_internal.table(), flows) {
        values_refusal(data.settled_internal.table(), flows, ValueRole::SettledInternal, error)
    } else if !values_fit(data.requested_boundary.table(), ports) {
        values_refusal(data.requested_boundary.table(), ports, ValueRole::RequestedBoundary, error)
    } else if !values_fit(data.settled_boundary.table(), ports) {
        values_refusal(data.settled_boundary.table(), ports, ValueRole::SettledBoundary, error)
    } else if !values_fit(data.ledger_before.table(), ledgers) {
        values_refusal(data.ledger_before.table(), ledgers, ValueRole::LedgerBefore, error)
    } else if !values_fit(data.ledger_after.table(), ledgers) {
        values_refusal(data.ledger_after.table(), ledgers, ValueRole::LedgerAfter, error)
    } else if !all_nonnegative(data.requested_internal.table()) {
        negative_refusal(data.requested_internal.table(), error)
    } else if !all_nonnegative(data.settled_internal.table()) {
        negative_refusal(data.settled_internal.table(), error)
    } else if !all_nonnegative(data.requested_boundary.table()) {
        negative_refusal(data.requested_boundary.table(), error)
    } else if !all_nonnegative(data.settled_boundary.table()) {
        negative_refusal(data.settled_boundary.table(), error)
    } else if !settled_within(data.requested_internal.table(), data.settled_internal.table()) {
        excess_refusal(data.requested_internal.table(), data.settled_internal.table(), error)
    } else {
        excess_refusal(data.requested_boundary.table(), data.settled_boundary.table(), error)
    }
}

/// Copies the row table of a matrix as an expected-kind table.
fn copy_kinds<I: Symbol>(table: &[(I, KindId)]) -> (result: Vec<(I, KindId)>)
    ensures
        result@ == table@,
{
    let mut result: Vec<(I, KindId)> = Vec::new();
    let mut i: usize = 0;
    while i < table.len()
        invariant
            i <= table@.len(),
            result@ == table@.take(i as int),
        decreases table.len() - i,
    {
        result.push((table[i].0.duplicate(), table[i].1.clone()));
        proof {
            assert(result@ =~= table@.take(i + 1));
        }
        i += 1;
    }
    proof {
        assert(result@ =~= table@);
    }
    result
}

/// Each ledger's kind, in identifier order.
fn ledger_kind_table(identity: &CarrierIdentity) -> (result: Vec<(LedgerId, KindId)>)
    ensures
        result@ == ledger_kinds(*identity),
        keys_sorted(result@),
{
    identity.check_ordered();
    let ledgers = identity.ledgers();
    let mut result: Vec<(LedgerId, KindId)> = Vec::new();
    let mut i: usize = 0;
    while i < ledgers.len()
        invariant
            ledgers@ == identity.ledger_table(),
            i <= ledgers@.len(),
            result@ == ledger_kinds(*identity).take(i as int),
        decreases ledgers.len() - i,
    {
        result.push((ledgers[i].0.clone(), ledgers[i].1.kind().clone()));
        proof {
            assert(result@ =~= ledger_kinds(*identity).take(i + 1));
        }
        i += 1;
    }
    proof {
        assert(result@ =~= ledger_kinds(*identity));
        assert forall|a: int, b: int| 0 <= a < b < result@.len() implies crate::text::text_lt(
            (#[trigger] result@[a]).0@,
            (#[trigger] result@[b]).0@,
        ) by {
            assert(crate::text::text_lt(identity.ledger_table()[a].0@, identity.ledger_table()[b].0@));
        }
    }
    result
}


/// One immutable, structurally valid exact accepted transition.
#[derive(Debug, PartialEq, Eq)]
pub struct TransitionRecord {
    carrier: CarrierIdentity,
    data: TransitionRecordData,
}

impl TransitionRecord {
    /// The carrier identity under which the record was validated.
    pub closed spec fn identity_spec(&self) -> CarrierIdentity {
        self.carrier
    }

    /// The record's data.
    pub closed spec fn data_spec(&self) -> TransitionRecordData {
        self.data
    }

    #[verifier::type_invariant]
    closed spec fn validated(&self) -> bool {
        record_valid(self.carrier, self.data)
    }

    /// The record fits its carrier identity.
    pub fn check_valid(&self)
        ensures
            record_valid(self.identity_spec(), self.data_spec()),
    {
        proof {
            use_type_invariant(self);
        }
    }

    /// Validates a complete record against one exact carrier.
    pub fn new(carrier: &StockFlowCarrier, data: TransitionRecordData) -> (result: Result<Self, StockFlowError>)
        ensures
            result is Ok <==> record_valid(carrier.identity_spec(), data),
            match result {
                Ok(record) => identity_equivalent(record.identity_spec(), carrier.identity_spec())
                    && record.data_spec() == data,
                Err(error) => record_refusal(carrier.identity_spec(), data, error),
            },
    {
        let identity = carrier.identity();
        identity.internal_effects().check_total();
        identity.boundary_effects().check_total();
        let rows = copy_kinds(identity.internal_effects().row_slice());
        let flows = copy_kinds(identity.internal_effects().column_slice());
        let ports = copy_kinds(identity.boundary_effects().column_slice());
        let ledgers = ledger_kind_table(identity);
        validate_values(&data.before, &rows, ValueRole::Before)?;
        validate_values(&data.after, &rows, ValueRole::After)?;
        validate_values(&data.requested_internal, &flows, ValueRole::RequestedInternal)?;
        validate_values(&data.settled_internal, &flows, ValueRole::SettledInternal)?;
        validate_values(&data.requested_boundary, &ports, ValueRole::RequestedBoundary)?;
        validate_values(&data.settled_boundary, &ports, ValueRole::SettledBoundary)?;
        validate_values(&data.ledger_before, &ledgers, ValueRole::LedgerBefore)?;
        validate_values(&data.ledger_after, &ledgers, ValueRole::LedgerAfter)?;
        validate_nonnegative(&data.requested_internal)?;
        validate_nonnegative(&data.settled_internal)?;
        validate_nonnegative(&data.requested_boundary)?;
        validate_nonnegative(&data.settled_boundary)?;
        proof {
            lemma_same_names(data.requested_internal.table(), data.settled_internal.table(), flows@);
            lemma_same_names(data.requested_boundary.table(), data.settled_boundary.table(), ports@);
        }
        validate_settlement(&data.requested_internal, &data.settled_internal)?;
        validate_settlement(&data.requested_boundary, &data.settled_boundary)?;
        let copy = identity.clone();
        proof {
            assert(ledger_kinds(copy) =~= ledger_kinds(*identity));
        }
        Ok(TransitionRecord { carrier: copy, data })
    }

    /// Exact carrier identity under which this record was validated.
    pub fn carrier_identity(&self) -> (result: &CarrierIdentity)
        ensures
            *result == self.identity_spec(),
    {
        &self.carrier
    }

    /// Stock state before settlement.
    pub fn before(&self) -> (result: &ExactAmounts<AxisId>)
        ensures
            *result == self.data_spec().before,
    {
        &self.data.before
    }

    /// Stock state after settlement.
    pub fn after(&self) -> (result: &ExactAmounts<AxisId>)
        ensures
            *result == self.data_spec().after,
    {
        &self.data.after
    }

    /// Requested internal-flow amounts.
    pub fn requested_internal(&self) -> (result: &ExactAmounts<FlowId>)
        ensures
            *result == self.data_spec().requested_internal,
    {
        &self.data.requested_internal
    }

    /// Settled internal-flow amounts.
    pub fn settled_internal(&self) -> (result: &ExactAmounts<FlowId>)
        ensures
            *result == self.data_spec().settled_internal,
    {
        &self.data.settled_internal
    }

    /// Requested boundary-flow amounts.
    pub fn requested_boundary(&self) -> (result: &ExactAmounts<BoundaryId>)
        ensures
            *result == self.data_spec().requested_boundary,
    {
        &self.data.requested_boundary
    }

    /// Settled boundary-flow amounts.
    pub fn settled_boundary(&self) -> (result: &ExactAmounts<BoundaryId>)
        ensures
            *result == self.data_spec().settled_boundary,
    {
        &self.data.settled_boundary
    }

    /// Cumulative ledgers before settlement.
    pub fn ledger_before(&self) -> (result: &ExactAmounts<LedgerId>)
        ensures
            *result == self.data_spec().ledger_before,
    {
        &self.data.ledger_before
    }

    /// Cumulative ledgers after settlement.
    pub fn ledger_after(&self) -> (result: &ExactAmounts<LedgerId>)
        ensures
            *result == self.data_spec().ledger_after,
    {
        &self.data.ledger_after
    }

    /// Decomposes the record into rebuildable exact data.
    pub fn into_data(self) -> (result: TransitionRecordData)
        ensures
            result == self.data_spec(),
    {
        self.data
    }
}

/// Two vectors that both fit the same expected table name the same symbols.
proof fn lemma_same_names<I: Symbol>(
    requested: Seq<(I, (KindId, Rational))>,
    settled: Seq<(I, (KindId, Rational))>,
    expected: Seq<(I, KindId)>,
)
    requires
        values_fit(requested, expected),
        values_fit(settled, expected),
    ensures
        forall|i: int| 0 <= i < settled.len() ==> holds(requested, (#[trigger] settled[i]).0@),
{
    assert forall|i: int| 0 <= i < settled.len() implies holds(requested, (#[trigger] settled[i]).0@) by {
        assert(holds(expected, settled[i].0@));
        let j = choose|j: int| 0 <= j < expected.len() && (#[trigger] expected[j]).0@ == settled[i].0@;
        assert(holds(requested, expected[j].0@));
    }
}


/// Whether the states on either side of transition `k` agree: every stock
/// axis and every ledger of the carrier has the same amount after record
/// `k - 1` as before record `k`.
pub open spec fn continuous_at(identity: CarrierIdentity, records: Seq<TransitionRecord>, k: int) -> bool {
    let rows = identity.internal_spec().row_table();
    let ledgers = identity.ledger_table();
    &&& forall|r: int| 0 <= r < rows.len() ==> #[trigger] records[k - 1].data_spec().after.amount_of(rows[r].0@)
        == records[k].data_spec().before.amount_of(rows[r].0@)
    &&& forall|l: int| 0 <= l < ledgers.len() ==> #[trigger] records[k - 1].data_spec().ledger_after.amount_of(ledgers[l].0@)
        == records[k].data_spec().ledger_before.amount_of(ledgers[l].0@)
}

/// Whether every record has the carrier's identity and consecutive records
/// join without a gap.
pub open spec fn trace_valid(identity: CarrierIdentity, records: Seq<TransitionRecord>) -> bool {
    &&& forall|i: int| 0 <= i < records.len() ==> identity_equivalent((#[trigger] records[i]).identity_spec(), identity)
        && record_valid(records[i].identity_spec(), records[i].data_spec())
    &&& forall|k: int| 0 < k < records.len() ==> #[trigger] continuous_at(identity, records, k)
}

/// Whether `error` reports the first gap at transition `k`: the first stock
/// axis in order whose amounts differ, else the first ledger.
pub open spec fn gap_at(identity: CarrierIdentity, records: Seq<TransitionRecord>, k: int, error: StockFlowError) -> bool {
    let rows = identity.internal_spec().row_table();
    let ledgers = identity.ledger_table();
    let after = records[k - 1].data_spec();
    let before = records[k].data_spec();
    if exists|r: int| 0 <= r < rows.len() && #[trigger] after.after.amount_of(rows[r].0@) != before.before.amount_of(rows[r].0@) {
        exists|r: int|
            0 <= r < rows.len() && #[trigger] after.after.amount_of(rows[r].0@) != before.before.amount_of(rows[r].0@)
                && (forall|q: int| 0 <= q < r ==> #[trigger] after.after.amount_of(rows[q].0@) == before.before.amount_of(rows[q].0@))
                && (error matches StockFlowError::DiscontinuousState { transition, axis } && transition == k && axis@
                == rows[r].0@)
    } else {
        exists|l: int|
            0 <= l < ledgers.len() && #[trigger] after.ledger_after.amount_of(ledgers[l].0@) != before.ledger_before.amount_of(
                ledgers[l].0@,
            ) && (forall|q: int| 0 <= q < l ==> #[trigger] after.ledger_after.amount_of(ledgers[q].0@)
                == before.ledger_before.amount_of(ledgers[q].0@))
                && (error matches StockFlowError::DiscontinuousLedger { transition, ledger } && transition == k && ledger@
                == ledgers[l].0@)
    }
}

/// Whether `error` is the first failure of a trace: a record of another
/// carrier, then the first gap.
pub open spec fn trace_refusal(identity: CarrierIdentity, records: Seq<TransitionRecord>, error: StockFlowError) -> bool {
    if exists|i: int| 0 <= i < records.len() && !identity_equivalent((#[trigger] records[i]).identity_spec(), identity) {
        error == StockFlowError::CarrierMismatch
    } else {
        exists|k: int|
            0 < k < records.len() && (forall|j: int| 0 < j < k ==> #[trigger] continuous_at(identity, records, j))
                && #[trigger] gap_at(identity, records, k, error)
    }
}

/// Immutable, structurally continuous finite exact transition trace.
#[derive(Debug)]
pub struct TransitionTrace {
    carrier: std::sync::Arc<StockFlowCarrier>,
    records: Vec<TransitionRecord>,
}

impl TransitionTrace {
    /// The carrier shared by all records.
    pub closed spec fn carrier_spec(&self) -> StockFlowCarrier {
        *self.carrier
    }

    /// The records in trace order.
    pub closed spec fn record_seq(&self) -> Seq<TransitionRecord> {
        self.records@
    }

    #[verifier::type_invariant]
    closed spec fn continuous(&self) -> bool {
        trace_valid(self.carrier.identity_spec(), self.records@)
    }

    /// Every record has the carrier's identity and consecutive records join.
    pub fn check_continuous(&self)
        ensures
            trace_valid(self.carrier_spec().identity_spec(), self.record_seq()),
    {
        proof {
            use_type_invariant(self);
        }
    }
}

/// A record that fits an identity equivalent to the carrier's has a value for
/// every carrier axis and ledger.
proof fn lemma_record_covers(identity: CarrierIdentity, record: TransitionRecord)
    requires
        identity_equivalent(record.identity_spec(), identity),
        record_valid(record.identity_spec(), record.data_spec()),
    ensures
        forall|r: int| 0 <= r < identity.internal_spec().row_table().len() ==> {
            &&& record.data_spec().before.names((#[trigger] identity.internal_spec().row_table()[r]).0@)
            &&& record.data_spec().after.names(identity.internal_spec().row_table()[r].0@)
        },
        forall|l: int| 0 <= l < identity.ledger_table().len() ==> {
            &&& record.data_spec().ledger_before.names((#[trigger] identity.ledger_table()[l]).0@)
            &&& record.data_spec().ledger_after.names(identity.ledger_table()[l].0@)
        },
{
    let own = record.identity_spec();
    assert forall|r: int| 0 <= r < identity.internal_spec().row_table().len() implies {
        &&& record.data_spec().before.names((#[trigger] identity.internal_spec().row_table()[r]).0@)
        &&& record.data_spec().after.names(identity.internal_spec().row_table()[r].0@)
    } by {
        let rows = own.internal_spec().row_table();
        assert(rows[r].0@ == identity.internal_spec().row_table()[r].0@);
        assert(holds(record.data_spec().before.table(), rows[r].0@));
        assert(holds(record.data_spec().after.table(), rows[r].0@));
    }
    assert forall|l: int| 0 <= l < identity.ledger_table().len() implies {
        &&& record.data_spec().ledger_before.names((#[trigger] identity.ledger_table()[l]).0@)
        &&& record.data_spec().ledger_after.names(identity.ledger_table()[l].0@)
    } by {
        let kinds = ledger_kinds(own);
        assert(kinds[l].0@ == identity.ledger_table()[l].0@);
        assert(holds(record.data_spec().ledger_before.table(), kinds[l].0@));
        assert(holds(record.data_spec().ledger_after.table(), kinds[l].0@));
    }
}

/// The amount named `key` in a vector that names it.
pub(crate) fn amount_named<'a, I: Symbol>(amounts: &'a ExactAmounts<I>, key: &I) -> (result: &'a Rational)
    requires
        amounts.names(key@),
    ensures
        result@ == amounts.amount_of(key@),
{
    match amounts.amount(key) {
        Some(value) => value,
        None => {
            proof {
                assert(false);
            }
            &amounts.iter()[0].1.1
        },
    }
}

impl TransitionTrace {
    /// Validates record identity and exact before/after continuity.
    ///
    /// Empty traces are representable but semantic checkers reject them with a
    /// structural `TooShort` result rather than creating vacuous witnesses.
    #[verifier::loop_isolation(false)]
    pub fn new(carrier: std::sync::Arc<StockFlowCarrier>, records: Vec<TransitionRecord>) -> (result: Result<
        Self,
        StockFlowError,
    >)
        ensures
            result is Ok <==> trace_valid(carrier.identity_spec(), records@),
            match result {
                Ok(trace) => trace.carrier_spec() == *carrier && trace.record_seq() == records@,
                Err(error) => trace_refusal(carrier.identity_spec(), records@, error),
            },
    {
        let identity = carrier.identity();
        let mut i: usize = 0;
        while i < records.len()
            invariant
                *identity == carrier.identity_spec(),
                i <= records@.len(),
                forall|j: int| 0 <= j < i ==> identity_equivalent((#[trigger] records@[j]).identity_spec(), *identity)
                    && record_valid(records@[j].identity_spec(), records@[j].data_spec()),
            decreases records.len() - i,
        {
            if !records[i].carrier_identity().same_as(identity) {
                return Err(StockFlowError::CarrierMismatch);
            }
            records[i].check_valid();
            i += 1;
        }
        let rows = identity.internal_effects().axes();
        let ledgers = identity.ledgers();
        let mut k: usize = 1;
        while k < records.len()
            invariant
                *identity == carrier.identity_spec(),
                forall|j: int| 0 <= j < records@.len() ==> identity_equivalent((#[trigger] records@[j]).identity_spec(), *identity)
                    && record_valid(records@[j].identity_spec(), records@[j].data_spec()),
                rows@.len() == identity.internal_spec().row_table().len(),
                forall|r: int| 0 <= r < rows@.len() ==> #[trigger] rows@[r] == identity.internal_spec().row_table()[r].0,
                ledgers@ == identity.ledger_table(),
                1 <= k,
                forall|j: int| 0 < j < k && j < records@.len() ==> #[trigger] continuous_at(*identity, records@, j),
            decreases records.len() - k,
        {
            let earlier = &records[k - 1];
            let later = &records[k];
            earlier.check_valid();
            later.check_valid();
            proof {
                lemma_record_covers(*identity, *earlier);
                lemma_record_covers(*identity, *later);
            }
            let mut r: usize = 0;
            while r < rows.len()
                invariant
                    *earlier == records@[k - 1],
                    *later == records@[k as int],
                    rows@.len() == identity.internal_spec().row_table().len(),
                    forall|q: int| 0 <= q < rows@.len() ==> #[trigger] rows@[q] == identity.internal_spec().row_table()[q].0,
                    forall|q: int| 0 <= q < identity.internal_spec().row_table().len() ==> {
                        &&& earlier.data_spec().after.names((#[trigger] identity.internal_spec().row_table()[q]).0@)
                        &&& later.data_spec().before.names(identity.internal_spec().row_table()[q].0@)
                    },
                    r <= rows@.len(),
                    forall|q: int| 0 <= q < r ==> #[trigger] earlier.data_spec().after.amount_of(
                        identity.internal_spec().row_table()[q].0@,
                    ) == later.data_spec().before.amount_of(identity.internal_spec().row_table()[q].0@),
                decreases rows.len() - r,
            {
                let axis = &rows[r];
                proof {
                    assert(identity.internal_spec().row_table()[r as int].0 == *axis);
                }
                let a = amount_named(earlier.after(), axis);
                let b = amount_named(later.before(), axis);
                if !a.eq(b) {
                    let error = StockFlowError::DiscontinuousState { transition: k, axis: axis.clone() };
                    proof {
                        let rt = identity.internal_spec().row_table();
                        assert(records@[k - 1].data_spec().after.amount_of(rt[r as int].0@) != records@[k as int].data_spec().before.amount_of(
                            rt[r as int].0@,
                        ));
                        assert(gap_at(*identity, records@, k as int, error));
                        assert(!continuous_at(*identity, records@, k as int));
                    }
                    return Err(error);
                }
                r += 1;
            }
            let mut l: usize = 0;
            while l < ledgers.len()
                invariant
                    *earlier == records@[k - 1],
                    *later == records@[k as int],
                    ledgers@ == identity.ledger_table(),
                    forall|q: int| 0 <= q < identity.ledger_table().len() ==> {
                        &&& earlier.data_spec().ledger_after.names((#[trigger] identity.ledger_table()[q]).0@)
                        &&& later.data_spec().ledger_before.names(identity.ledger_table()[q].0@)
                    },
                    forall|q: int| 0 <= q < identity.internal_spec().row_table().len() ==> #[trigger] earlier.data_spec().after.amount_of(
                        identity.internal_spec().row_table()[q].0@,
                    ) == later.data_spec().before.amount_of(identity.internal_spec().row_table()[q].0@),
                    l <= ledgers@.len(),
                    forall|q: int| 0 <= q < l ==> #[trigger] earlier.data_spec().ledger_after.amount_of(
                        identity.ledger_table()[q].0@,
                    ) == later.data_spec().ledger_before.amount_of(identity.ledger_table()[q].0@),
                decreases ledgers.len() - l,
            {
                let ledger = &ledgers[l].0;
                let a = amount_named(earlier.ledger_after(), ledger);
                let b = amount_named(later.ledger_before(), ledger);
                if !a.eq(b) {
                    let error = StockFlowError::DiscontinuousLedger { transition: k, ledger: ledger.clone() };
                    proof {
                        let lt = identity.ledger_table();
                        assert(records@[k - 1].data_spec().ledger_after.amount_of(lt[l as int].0@) != records@[k as int].data_spec().ledger_before.amount_of(
                            lt[l as int].0@,
                        ));
                        assert(gap_at(*identity, records@, k as int, error));
                        assert(!continuous_at(*identity, records@, k as int));
                    }
                    return Err(error);
                }
                l += 1;
            }
            proof {
                assert(continuous_at(*identity, records@, k as int));
            }
            k += 1;
        }
        Ok(TransitionTrace { carrier, records })
    }

    /// Exact carrier shared by all records.
    pub fn carrier(&self) -> (result: &std::sync::Arc<StockFlowCarrier>)
        ensures
            **result == self.carrier_spec(),
    {
        &self.carrier
    }

    /// Accepted records in trace order.
    pub fn records(&self) -> (result: &[TransitionRecord])
        ensures
            result@ == self.record_seq(),
    {
        self.records.as_slice()
    }
}

/// Whether two amount tables have the same identifiers, kinds and values.
pub open spec fn amounts_alike<I: Symbol>(a: Seq<(I, (KindId, Rational))>, b: Seq<(I, (KindId, Rational))>) -> bool {
    &&& a.len() == b.len()
    &&& forall|i: int| 0 <= i < a.len() ==> (#[trigger] a[i]).0 == b[i].0 && a[i].1.0 == b[i].1.0 && a[i].1.1@ == b[i].1.1@
}

/// Alike sorted tables name the same identifiers with the same kinds and values.
proof fn lemma_amounts_alike<I: Symbol>(a: Seq<(I, (KindId, Rational))>, b: Seq<(I, (KindId, Rational))>)
    requires
        amounts_alike(a, b),
        keys_sorted(a),
        keys_sorted(b),
    ensures
        forall|k: Seq<char>| #[trigger] holds(a, k) == holds(b, k),
        forall|k: Seq<char>| holds(a, k) ==> #[trigger] value_of(a, k).0 == value_of(b, k).0 && value_of(a, k).1@ == value_of(
            b,
            k,
        ).1@,
{
    assert forall|k: Seq<char>| #[trigger] holds(a, k) == holds(b, k) by {
        if holds(a, k) {
            let i = choose|i: int| 0 <= i < a.len() && (#[trigger] a[i]).0@ == k;
            assert(b[i].0@ == k);
        }
        if holds(b, k) {
            let i = choose|i: int| 0 <= i < b.len() && (#[trigger] b[i]).0@ == k;
            assert(a[i].0@ == k);
        }
    }
    assert forall|k: Seq<char>| holds(a, k) implies #[trigger] value_of(a, k).0 == value_of(b, k).0 && value_of(a, k).1@
        == value_of(b, k).1@ by {
        let i = choose|i: int| 0 <= i < a.len() && (#[trigger] a[i]).0@ == k;
        lemma_position(a, i);
        assert(b[i].0@ == k);
        lemma_position(b, i);
    }
}

/// A copy of an amount vector is alike.
fn copy_amounts<I: Symbol>(amounts: &ExactAmounts<I>) -> (result: ExactAmounts<I>)
    ensures
        amounts_alike(result.table(), amounts.table()),
        forall|k: Seq<char>| #[trigger] result.names(k) == amounts.names(k),
        forall|k: Seq<char>| amounts.names(k) ==> #[trigger] result.kind_of(k) == amounts.kind_of(k) && result.amount_of(k)
            == amounts.amount_of(k),
        forall|k: Seq<char>| #[trigger] holds(result.table(), k) == holds(amounts.table(), k),
        forall|k: Seq<char>| holds(amounts.table(), k) ==> #[trigger] value_of(result.table(), k).0 == value_of(
            amounts.table(),
            k,
        ).0 && value_of(result.table(), k).1@ == value_of(amounts.table(), k).1@,
{
    let copy = amounts.clone();
    amounts.check_canonical();
    copy.check_canonical();
    proof {
        lemma_amounts_alike(copy.table(), amounts.table());
    }
    copy
}

impl Clone for TransitionRecord {
    fn clone(&self) -> (result: Self)
        ensures
            identity_equivalent(result.identity_spec(), self.identity_spec()),
            forall|k: Seq<char>| #[trigger] result.data_spec().before.names(k) == self.data_spec().before.names(k),
            forall|k: Seq<char>| #[trigger] result.data_spec().after.names(k) == self.data_spec().after.names(k),
            forall|k: Seq<char>| #[trigger] result.data_spec().ledger_before.names(k) == self.data_spec().ledger_before.names(k),
            forall|k: Seq<char>| #[trigger] result.data_spec().ledger_after.names(k) == self.data_spec().ledger_after.names(k),
            forall|k: Seq<char>| self.data_spec().before.names(k) ==> #[trigger] result.data_spec().before.amount_of(k)
                == self.data_spec().before.amount_of(k),
            forall|k: Seq<char>| self.data_spec().after.names(k) ==> #[trigger] result.data_spec().after.amount_of(k)
                == self.data_spec().after.amount_of(k),
            forall|k: Seq<char>| self.data_spec().ledger_before.names(k) ==> #[trigger] result.data_spec().ledger_before.amount_of(
                k,
            ) == self.data_spec().ledger_before.amount_of(k),
            forall|k: Seq<char>| self.data_spec().ledger_after.names(k) ==> #[trigger] result.data_spec().ledger_after.amount_of(
                k,
            ) == self.data_spec().ledger_after.amount_of(k),
    {
        proof {
            use_type_invariant(self);
        }
        let data = TransitionRecordData {
            before: copy_amounts(&self.data.before),
            after: copy_amounts(&self.data.after),
            requested_internal: copy_amounts(&self.data.requested_internal),
            settled_internal: copy_amounts(&self.data.settled_internal),
            requested_boundary: copy_amounts(&self.data.requested_boundary),
            settled_boundary: copy_amounts(&self.data.settled_boundary),
            ledger_before: copy_amounts(&self.data.ledger_before),
            ledger_after: copy_amounts(&self.data.ledger_after),
        };
        let carrier = self.carrier.clone();
        proof {
            assert(ledger_kinds(carrier) =~= ledger_kinds(self.carrier));
            let rows = self.carrier.internal_spec().row_table();
            let flows = self.carrier.internal_spec().column_table();
            let ports = self.carrier.boundary_spec().column_table();
            let ledgers = ledger_kinds(self.carrier);
            assert(values_fit(data.before.table(), rows));
            assert(values_fit(data.after.table(), rows));
            assert(values_fit(data.requested_internal.table(), flows));
            assert(values_fit(data.settled_internal.table(), flows));
            assert(values_fit(data.requested_boundary.table(), ports));
            assert(values_fit(data.settled_boundary.table(), ports));
            assert(values_fit(data.ledger_before.table(), ledgers));
            assert(values_fit(data.ledger_after.table(), ledgers));
            assert(all_nonnegative(data.requested_internal.table()));
            assert(all_nonnegative(data.settled_internal.table()));
            assert(all_nonnegative(data.requested_boundary.table()));
            assert(all_nonnegative(data.settled_boundary.table()));
            assert(settled_within(data.requested_internal.table(), data.settled_internal.table()));
            assert(settled_within(data.requested_boundary.table(), data.settled_boundary.table()));
        }
        TransitionRecord { carrier, data }
    }
}

impl Clone for TransitionTrace {
    fn clone(&self) -> (result: Self)
        ensures
            result.carrier_spec() == self.carrier_spec(),
            result.record_seq().len() == self.record_seq().len(),
    {
        proof {
            use_type_invariant(self);
        }
        let identity = self.carrier.identity();
        let mut records: Vec<TransitionRecord> = Vec::new();
        let mut i: usize = 0;
        while i < self.records.len()
            invariant
                *identity == self.carrier.identity_spec(),
                trace_valid(*identity, self.records@),
                i <= self.records@.len(),
                records@.len() == i,
                forall|j: int| 0 <= j < i ==> identity_equivalent((#[trigger] records@[j]).identity_spec(), *identity)
                    && record_valid(records@[j].identity_spec(), records@[j].data_spec()),
                forall|j: int, k: Seq<char>| 0 <= j < i ==> (#[trigger] records@[j].data_spec().after.names(k))
                    == self.records@[j].data_spec().after.names(k),
                forall|j: int, k: Seq<char>| 0 <= j < i ==> (#[trigger] records@[j].data_spec().before.names(k))
                    == self.records@[j].data_spec().before.names(k),
                forall|j: int, k: Seq<char>| 0 <= j < i ==> (#[trigger] records@[j].data_spec().ledger_after.names(k))
                    == self.records@[j].data_spec().ledger_after.names(k),
                forall|j: int, k: Seq<char>| 0 <= j < i ==> (#[trigger] records@[j].data_spec().ledger_before.names(k))
                    == self.records@[j].data_spec().ledger_before.names(k),
                forall|j: int, k: Seq<char>| 0 <= j < i && self.records@[j].data_spec().after.names(k) ==> (
                #[trigger] records@[j].data_spec().after.amount_of(k)) == self.records@[j].data_spec().after.amount_of(k),
                forall|j: int, k: Seq<char>| 0 <= j < i && self.records@[j].data_spec().before.names(k) ==> (
                #[trigger] records@[j].data_spec().before.amount_of(k)) == self.records@[j].data_spec().before.amount_of(k),
                forall|j: int, k: Seq<char>| 0 <= j < i && self.records@[j].data_spec().ledger_after.names(k) ==> (
                #[trigger] records@[j].data_spec().ledger_after.amount_of(k)) == self.records@[j].data_spec().ledger_after.amount_of(k),
                forall|j: int, k: Seq<char>| 0 <= j < i && self.records@[j].data_spec().ledger_before.names(k) ==> (
                #[trigger] records@[j].data_spec().ledger_before.amount_of(k))
                    == self.records@[j].data_spec().ledger_before.amount_of(k),
            decreases self.records.len() - i,
        {
            let copy = self.records[i].clone();
            copy.check_valid();
            proof {
                assert(identity_equivalent(self.records@[i as int].identity_spec(), *identity));
            }
            records.push(copy);
            i += 1;
        }
        proof {
            assert forall|k: int| 0 < k < records@.len() implies #[trigger] continuous_at(*identity, records@, k) by {
                assert(continuous_at(*identity, self.records@, k));
                lemma_record_covers(*identity, self.records@[k - 1]);
                lemma_record_covers(*identity, self.records@[k]);
                let rows = identity.internal_spec().row_table();
                let ledgers = identity.ledger_table();
                assert forall|r: int| 0 <= r < rows.len() implies #[trigger] records@[k - 1].data_spec().after.amount_of(
                    rows[r].0@,
                ) == records@[k].data_spec().before.amount_of(rows[r].0@) by {
                    assert(self.records@[k - 1].data_spec().after.names(rows[r].0@));
                    assert(self.records@[k].data_spec().before.names(rows[r].0@));
                }
                assert forall|l: int| 0 <= l < ledgers.len() implies #[trigger] records@[k - 1].data_spec().ledger_after.amount_of(
                    ledgers[l].0@,
                ) == records@[k].data_spec().ledger_before.amount_of(ledgers[l].0@) by {
                    assert(self.records@[k - 1].data_spec().ledger_after.names(ledgers[l].0@));
                    assert(self.records@[k].data_spec().ledger_before.names(ledgers[l].0@));
                }
            }
        }
        TransitionTrace { carrier: self.carrier.clone(), records }
    }
}


/// Whether a projected state holds every stock amount under its axis and
/// every ledger amount under the ledger's axis.
pub open spec fn projects(
    identity: CarrierIdentity,
    stocks: ExactAmounts<AxisId>,
    ledgers: ExactAmounts<LedgerId>,
    state: TraceState,
) -> bool {
    let rows = identity.internal_spec().row_table();
    let table = identity.ledger_table();
    &&& forall|r: int| 0 <= r < rows.len() ==> #[trigger] has_key(state.entries(), rows[r].0@) && sum_for(
        state.entries(),
        rows[r].0@,
    ) == stocks.amount_of(rows[r].0@)
    &&& forall|l: int| 0 <= l < table.len() ==> #[trigger] has_key(state.entries(), table[l].1.axis_spec()@) && sum_for(
        state.entries(),
        table[l].1.axis_spec()@,
    ) == ledgers.amount_of(table[l].0@)
    &&& forall|k: Seq<char>| #[trigger] has_key(state.entries(), k) ==> holds(rows, k) || exists|l: int|
        0 <= l < table.len() && (#[trigger] table[l]).1.axis_spec()@ == k
}

/// Projects one stock state and its ledgers into a trace state.
fn project_state(identity: &CarrierIdentity, stocks: &ExactAmounts<AxisId>, ledgers: &ExactAmounts<LedgerId>) -> (result:
    Result<TraceState, StockFlowError>)
    requires
        values_fit(stocks.table(), identity.internal_spec().row_table()),
        values_fit(ledgers.table(), ledger_kinds(*identity)),
    ensures
        result matches Ok(state) && projects(*identity, *stocks, *ledgers, state),
{
    identity.check_ordered();
    identity.internal_effects().check_total();
    stocks.check_canonical();
    let rows = identity.internal_effects().row_slice();
    let table = identity.ledgers();
    let stock_entries = stocks.iter();
    let mut values: Vec<(AxisId, Rational)> = Vec::new();
    let mut i: usize = 0;
    while i < stock_entries.len()
        invariant
            stock_entries@ == stocks.table(),
            keys_sorted(stock_entries@),
            i <= stock_entries@.len(),
            values@.len() == i,
            forall|j: int| 0 <= j < i ==> (#[trigger] values@[j]).0 == stock_entries@[j].0 && values@[j].1@
                == stock_entries@[j].1.1@,
        decreases stock_entries.len() - i,
    {
        values.push((stock_entries[i].0.clone(), stock_entries[i].1.1.clone()));
        i += 1;
    }
    let ghost stock_count = values@.len() as int;
    let mut l: usize = 0;
    while l < table.len()
        invariant
            table@ == identity.ledger_table(),
            values@.len() == stock_count + l,
            stock_count == stock_entries@.len(),
            l <= table@.len(),
            values_fit(ledgers.table(), ledger_kinds(*identity)),
            forall|j: int| 0 <= j < stock_count ==> (#[trigger] values@[j]).0 == stock_entries@[j].0 && values@[j].1@
                == stock_entries@[j].1.1@,
            forall|j: int| 0 <= j < l ==> (#[trigger] values@[stock_count + j]).0 == table@[j].1.axis_spec()
                && values@[stock_count + j].1@ == ledgers.amount_of(table@[j].0@),
        decreases table.len() - l,
    {
        let ledger = &table[l].0;
        proof {
            let kinds = ledger_kinds(*identity);
            assert(kinds[l as int].0 == *ledger);
            assert(holds(ledgers.table(), kinds[l as int].0@));
        }
        let amount = amount_named(ledgers, ledger);
        values.push((table[l].1.axis().clone(), amount.clone()));
        proof {
            assert(values@[stock_count + l as int].0 == table@[l as int].1.axis_spec());
        }
        l += 1;
    }
    proof {
        let all = values@;
        let rows_t = identity.internal_spec().row_table();
        assert forall|a: int, b: int| 0 <= a < b < all.len() implies (#[trigger] all[a]).0@ != (#[trigger] all[b]).0@ by {
            if b < stock_count {
                assert(text_lt(stock_entries@[a].0@, stock_entries@[b].0@));
                lemma_text_lt_irreflexive(stock_entries@[a].0@);
            } else if a < stock_count {
                let y = b - stock_count;
                assert(all[stock_count + y].0 == table@[y].1.axis_spec());
                assert(holds(rows_t, stock_entries@[a].0@));
                assert(!holds(rows_t, table@[y].1.axis_spec()@));
            } else {
                let x = a - stock_count;
                let y = b - stock_count;
                assert(all[stock_count + x].0 == table@[x].1.axis_spec());
                assert(all[stock_count + y].0 == table@[y].1.axis_spec());
                assert(table@[x].1.axis_spec()@ != table@[y].1.axis_spec()@);
            }
        }
    }
    let state = match TraceState::new(values) {
        Ok(state) => state,
        Err(error) => {
            proof {
                if values@.len() == 0 {
                    assert(identity.internal_spec().row_table().len() > 0);
                    assert(holds(stock_entries@, identity.internal_spec().row_table()[0].0@));
                }
            }
            return Err(StockFlowError::TraceState(error));
        },
    };
    proof {
        let all = values@;
        let rows_t = identity.internal_spec().row_table();
        let table_t = identity.ledger_table();
        assert forall|r: int| 0 <= r < rows_t.len() implies #[trigger] has_key(state.entries(), rows_t[r].0@) && sum_for(
            state.entries(),
            rows_t[r].0@,
        ) == stocks.amount_of(rows_t[r].0@) by {
            let j = position(stock_entries@, rows_t[r].0@);
            assert(holds(stock_entries@, rows_t[r].0@));
            lemma_position(stock_entries@, j);
            assert(all[j].0@ == rows_t[r].0@);
            assert(has_key(all, rows_t[r].0@));
            lemma_sum_for_distinct_at(all, j);
        }
        assert forall|q: int| 0 <= q < table_t.len() implies #[trigger] has_key(state.entries(), table_t[q].1.axis_spec()@)
            && sum_for(state.entries(), table_t[q].1.axis_spec()@) == ledgers.amount_of(table_t[q].0@) by {
            assert(all[stock_count + q].0 == table_t[q].1.axis_spec());
            assert(has_key(all, table_t[q].1.axis_spec()@));
            lemma_sum_for_distinct_at(all, stock_count + q);
        }
        assert forall|k: Seq<char>| #[trigger] has_key(state.entries(), k) implies holds(rows_t, k) || exists|q: int|
            0 <= q < table_t.len() && (#[trigger] table_t[q]).1.axis_spec()@ == k by {
            let j = choose|j: int| 0 <= j < all.len() && #[trigger] all[j].0@ == k;
            if j < stock_count {
                assert(holds(rows_t, stock_entries@[j].0@));
            } else {
                let q = j - stock_count;
                assert(all[stock_count + q].0 == table_t[q].1.axis_spec());
                assert(table_t[q].1.axis_spec()@ == k);
            }
        }
    }
    Ok(state)
}

/// Whether `states` are a trace's projected states: the state before the
/// first record, then the state after each record.
pub open spec fn projected_states(trace: TransitionTrace, states: Seq<TraceState>) -> bool {
    let records = trace.record_seq();
    let identity = trace.carrier_spec().identity_spec();
    &&& states.len() == if records.len() == 0 { 0 } else { records.len() + 1 }
    &&& records.len() > 0 ==> projects(identity, records[0].data_spec().before, records[0].data_spec().ledger_before, states[0])
    &&& forall|i: int| 0 <= i < records.len() ==> projects(
        identity,
        (#[trigger] records[i]).data_spec().after,
        records[i].data_spec().ledger_after,
        states[i + 1],
    )
}

impl TransitionTrace {
    /// Projects stock and ledger states into the existing graded trace carrier:
    /// the state before the first record, then the state after each record.
    pub fn graded_states(&self) -> (result: Result<Vec<TraceState>, StockFlowError>)
        ensures
            result matches Ok(states) && projected_states(*self, states@),
    {
        proof {
            use_type_invariant(self);
        }
        let mut states: Vec<TraceState> = Vec::new();
        if self.records.len() == 0 {
            return Ok(states);
        }
        let identity = self.carrier.identity();
        let first = &self.records[0];
        proof {
            lemma_fit_equivalent(first.identity_spec(), *identity, first.data_spec());
        }
        states.push(project_state(identity, first.before(), first.ledger_before())?);
        let mut i: usize = 0;
        while i < self.records.len()
            invariant
                *identity == self.carrier.identity_spec(),
                trace_valid(*identity, self.records@),
                self.records@.len() > 0,
                i <= self.records@.len(),
                states@.len() == i + 1,
                projects(*identity, self.records@[0].data_spec().before, self.records@[0].data_spec().ledger_before, states@[0]),
                forall|j: int| 0 <= j < i ==> projects(
                    *identity,
                    (#[trigger] self.records@[j]).data_spec().after,
                    self.records@[j].data_spec().ledger_after,
                    states@[j + 1],
                ),
            decreases self.records.len() - i,
        {
            let record = &self.records[i];
            proof {
                assert(identity_equivalent(self.records@[i as int].identity_spec(), *identity));
                lemma_fit_equivalent(record.identity_spec(), *identity, record.data_spec());
            }
            states.push(project_state(identity, record.after(), record.ledger_after())?);
            i += 1;
        }
        Ok(states)
    }
}

/// A record that fits one identity fits an equivalent one in its stock and
/// ledger vectors.
pub(crate) proof fn lemma_fit_equivalent(own: CarrierIdentity, other: CarrierIdentity, data: TransitionRecordData)
    requires
        identity_equivalent(own, other),
        record_valid(own, data),
    ensures
        values_fit(data.before.table(), other.internal_spec().row_table()),
        values_fit(data.after.table(), other.internal_spec().row_table()),
        values_fit(data.ledger_before.table(), ledger_kinds(other)),
        values_fit(data.ledger_after.table(), ledger_kinds(other)),
        forall|c: int| 0 <= c < other.internal_spec().column_table().len() ==> data.settled_internal.names(
            (#[trigger] other.internal_spec().column_table()[c]).0@,
        ) && data.requested_internal.names(other.internal_spec().column_table()[c].0@),
        forall|c: int| 0 <= c < other.boundary_spec().column_table().len() ==> data.settled_boundary.names(
            (#[trigger] other.boundary_spec().column_table()[c]).0@,
        ) && data.requested_boundary.names(other.boundary_spec().column_table()[c].0@),
{
    let fa = own.internal_spec().column_table();
    let fb = other.internal_spec().column_table();
    let pa = own.boundary_spec().column_table();
    let pb = other.boundary_spec().column_table();
    assert forall|c: int| 0 <= c < fb.len() implies data.settled_internal.names((#[trigger] fb[c]).0@)
        && data.requested_internal.names(fb[c].0@) by {
        assert(fa[c].0@ == fb[c].0@);
        assert(holds(data.settled_internal.table(), fa[c].0@));
        assert(holds(data.requested_internal.table(), fa[c].0@));
    }
    assert forall|c: int| 0 <= c < pb.len() implies data.settled_boundary.names((#[trigger] pb[c]).0@)
        && data.requested_boundary.names(pb[c].0@) by {
        assert(pa[c].0@ == pb[c].0@);
        assert(holds(data.settled_boundary.table(), pa[c].0@));
        assert(holds(data.requested_boundary.table(), pa[c].0@));
    }
    let a = own.internal_spec().row_table();
    let b = other.internal_spec().row_table();
    let la = ledger_kinds(own);
    let lb = ledger_kinds(other);
    assert forall|k: Seq<char>| #[trigger] holds(a, k) == holds(b, k) by {
        if holds(a, k) {
            let i = choose|i: int| 0 <= i < a.len() && (#[trigger] a[i]).0@ == k;
            assert(b[i].0@ == k);
        }
        if holds(b, k) {
            let i = choose|i: int| 0 <= i < b.len() && (#[trigger] b[i]).0@ == k;
            assert(a[i].0@ == k);
        }
    }
    assert forall|k: Seq<char>| #[trigger] holds(la, k) == holds(lb, k) by {
        if holds(la, k) {
            let i = choose|i: int| 0 <= i < la.len() && (#[trigger] la[i]).0@ == k;
            assert(lb[i].0@ == k);
        }
        if holds(lb, k) {
            let i = choose|i: int| 0 <= i < lb.len() && (#[trigger] lb[i]).0@ == k;
            assert(la[i].0@ == k);
        }
    }
    assert forall|j: int| 0 <= j < b.len() implies holds(a, (#[trigger] b[j]).0@) && a[j].1@ == b[j].1@ by {
        assert(a[j].0@ == b[j].0@);
    }
    assert forall|j: int| 0 <= j < lb.len() implies holds(la, (#[trigger] lb[j]).0@) && la[j].1@ == lb[j].1@ by {
        assert(la[j].0@ == lb[j].0@);
    }
}

} // verus!
