//! Named stock-flow sentences checked exactly against transition traces.
use crate::carrier::{
    identity_equivalent, CarrierIdentity, ExactAmounts, ExactEffectMatrix, LedgerIdentity, StockFlowCarrier, StockFlowError, Symbol,
    SymbolId,
};
use crate::entries::{all_nonzero, canonical_terms, has_key, lemma_sum_for_absent, lemma_sum_for_sorted_at, strictly_sorted, sum_for};
use crate::table::{holds, value_of};
use crate::text::{lemma_text_lt_irreflexive, lemma_text_lt_trichotomy, text_lt};
use crate::ident::{AxisId, BoundaryId, FlowId, KindId, LedgerId, SentenceId};
use crate::rational::Rational;
use crate::law::{BalanceLaw, GradedLaw};
use crate::record::{
    amount_named, lemma_fit_equivalent, projected_states, trace_valid, TransitionRecord, TransitionRecordData, TransitionTrace,
};
use crate::trace::{check_law, law_checked, LawVerdict, TraceError, TraceState};
use vstd::prelude::*;

verus! {

/// The exact product of row `r` of a matrix with the named amounts of its
/// first `count` columns.
pub open spec fn weighted_columns<C: Symbol>(m: ExactEffectMatrix<C>, r: int, amounts: ExactAmounts<C>, count: int) -> real
    decreases count,
{
    if count <= 0 {
        0real
    } else {
        weighted_columns(m, r, amounts, count - 1) + m.entry(r, count - 1) * amounts.amount_of(m.column_table()[count - 1].0@)
    }
}

/// The change of stock row `r` that a record's settled flows account for:
/// `(S f + B b)[r]`.
pub open spec fn accounted_delta(identity: CarrierIdentity, data: TransitionRecordData, r: int) -> real {
    let internal = identity.internal_spec();
    let boundary = identity.boundary_spec();
    weighted_columns(internal, r, data.settled_internal, internal.column_table().len() as int) + weighted_columns(
        boundary,
        r,
        data.settled_boundary,
        boundary.column_table().len() as int,
    )
}

/// The observed change of stock row `r` across a record.
pub open spec fn observed_delta(identity: CarrierIdentity, data: TransitionRecordData, r: int) -> real {
    let axis = identity.internal_spec().row_table()[r].0@;
    data.after.amount_of(axis) - data.before.amount_of(axis)
}

/// Whether row `r` of a record satisfies the transition equation.
pub open spec fn balanced_row(identity: CarrierIdentity, data: TransitionRecordData, r: int) -> bool {
    observed_delta(identity, data, r) == accounted_delta(identity, data, r)
}

/// Whether every row of every record satisfies the transition equation.
pub open spec fn transitions_balanced(identity: CarrierIdentity, records: Seq<TransitionRecord>) -> bool {
    forall|t: int, r: int|
        0 <= t < records.len() && 0 <= r < identity.internal_spec().row_table().len() ==> #[trigger] balanced_row(
            identity,
            records[t].data_spec(),
            r,
        )
}

/// Whether `violation` reports row `r` of a record as the first row, in
/// canonical axis order, that fails the transition equation.
pub open spec fn transition_failure(
    identity: CarrierIdentity,
    data: TransitionRecordData,
    r: int,
    violation: TransitionViolation,
) -> bool {
    let rows = identity.internal_spec().row_table();
    &&& 0 <= r < rows.len()
    &&& !balanced_row(identity, data, r)
    &&& forall|q: int| 0 <= q < r ==> #[trigger] balanced_row(identity, data, q)
    &&& violation.axis@ == rows[r].0@
    &&& violation.observed_delta@ == observed_delta(identity, data, r)
    &&& violation.accounted_delta@ == accounted_delta(identity, data, r)
    &&& violation.residual@ == observed_delta(identity, data, r) - accounted_delta(identity, data, r)
}

/// Named transition-equation sentence over the carrier's exact matrices.
#[derive(Debug, PartialEq, Eq)]
pub struct TransitionEquation {
    id: SentenceId,
}

impl TransitionEquation {
    /// The sentence identifier.
    pub closed spec fn id_spec(&self) -> SentenceId {
        self.id
    }

    /// Constructs a named transition-equation sentence.
    pub fn new(id: SentenceId) -> (result: Self)
        ensures
            result.id_spec() == id,
    {
        TransitionEquation { id }
    }

    /// Stable sentence identifier.
    pub fn id(&self) -> (result: &SentenceId)
        ensures
            *result == self.id_spec(),
    {
        &self.id
    }
}

impl Clone for TransitionEquation {
    fn clone(&self) -> (result: Self)
        ensures
            result.id_spec() == self.id_spec(),
    {
        TransitionEquation { id: self.id.clone() }
    }
}

/// Positive exact evidence for a transition equation.
#[derive(Debug, PartialEq, Eq)]
pub struct TransitionWitness {
    /// Sentence checked.
    pub sentence: SentenceId,
    /// Number of accepted transitions checked.
    pub transitions_checked: usize,
    /// Number of stock axes checked per transition.
    pub axes_checked: usize,
    /// Exact residual shared by all checked coordinates.
    pub residual: Rational,
    /// Exact carrier identity against which the witness was produced.
    pub carrier: CarrierIdentity,
}

/// First exact transition-equation failure.
#[derive(Debug, PartialEq, Eq)]
pub struct TransitionViolation {
    /// Sentence checked.
    pub sentence: SentenceId,
    /// First offending transition.
    pub transition: usize,
    /// First offending canonical stock axis.
    pub axis: AxisId,
    /// Exact observed state delta.
    pub observed_delta: Rational,
    /// Exact delta accounted for by settled flows.
    pub accounted_delta: Rational,
    /// `observed_delta - accounted_delta`.
    pub residual: Rational,
}

/// Typed semantic outcome for a transition-equation sentence.
#[derive(Debug, PartialEq, Eq)]
pub enum TransitionVerdict {
    /// Every transition and axis satisfied the equation.
    Satisfied(TransitionWitness),
    /// The first transition/axis mismatch.
    Violated(TransitionViolation),
}

impl TransitionVerdict {
    /// Returns whether this verdict carries positive evidence.
    pub fn is_satisfied(&self) -> (result: bool)
        ensures
            result == (self is Satisfied),
    {
        match self {
            TransitionVerdict::Satisfied(_) => true,
            TransitionVerdict::Violated(_) => false,
        }
    }
}

/// Computes the weighted sum of a matrix row with named amounts.
fn weigh_row<C: Symbol>(m: &ExactEffectMatrix<C>, r: usize, amounts: &ExactAmounts<C>) -> (result: Rational)
    requires
        r < m.row_table().len(),
        forall|c: int| 0 <= c < m.column_table().len() ==> amounts.names((#[trigger] m.column_table()[c]).0@),
    ensures
        result@ == weighted_columns(*m, r as int, *amounts, m.column_table().len() as int),
{
    let columns = m.column_slice();
    let mut total = Rational::zero();
    let mut c: usize = 0;
    while c < columns.len()
        invariant
            columns@ == m.column_table(),
            r < m.row_table().len(),
            forall|k: int| 0 <= k < m.column_table().len() ==> amounts.names((#[trigger] m.column_table()[k]).0@),
            c <= columns@.len(),
            total@ == weighted_columns(*m, r as int, *amounts, c as int),
        decreases columns.len() - c,
    {
        let amount = amount_named(amounts, &columns[c].0);
        total = total.add(&m.entry_at(r, c).mul(amount));
        c += 1;
    }
    total
}

/// Whether `error` is what a checker raises for an empty trace.
pub open spec fn too_short(error: StockFlowError) -> bool {
    error == StockFlowError::TooShort { transitions: 0 }
}

/// Whether `result` is what checking the transition equation on `trace` reports.
pub open spec fn transition_outcome(sentence: TransitionEquation, trace: TransitionTrace, result: Result<TransitionVerdict, StockFlowError>) -> bool {
    let identity = trace.carrier_spec().identity_spec();
    let records = trace.record_seq();
    let rows = identity.internal_spec().row_table();
    match result {
        Err(error) => records.len() == 0 && too_short(error),
        Ok(TransitionVerdict::Satisfied(witness)) => {
            &&& records.len() > 0
            &&& transitions_balanced(identity, records)
            &&& witness.sentence == sentence.id_spec()
            &&& witness.transitions_checked == records.len()
            &&& witness.axes_checked == rows.len()
            &&& witness.residual@ == 0real
            &&& identity_equivalent(witness.carrier, identity)
        },
        Ok(TransitionVerdict::Violated(violation)) => {
            let t = violation.transition as int;
            &&& t < records.len()
            &&& forall|u: int, r: int| 0 <= u < t && 0 <= r < rows.len() ==> #[trigger] balanced_row(
                identity,
                records[u].data_spec(),
                r,
            )
            &&& exists|r: int| #[trigger] transition_failure(identity, records[t].data_spec(), r, violation)
            &&& violation.sentence == sentence.id_spec()
        },
    }
}

/// Checks `after - before = S f + B b` exactly and axis-wise, reporting the
/// first transition and, within it, the first canonical axis that fails.
#[verifier::loop_isolation(false)]
pub fn check_transition_equation(sentence: &TransitionEquation, trace: &TransitionTrace) -> (result: Result<
    TransitionVerdict,
    StockFlowError,
>)
    ensures
        transition_outcome(*sentence, *trace, result),
{
    let records = trace.records();
    if records.len() == 0 {
        return Err(StockFlowError::TooShort { transitions: 0 });
    }
    trace.check_continuous();
    let identity = trace.carrier().identity();
    identity.check_ordered();
    let internal = identity.internal_effects();
    let boundary = identity.boundary_effects();
    let rows = internal.row_slice();
    let mut t: usize = 0;
    while t < records.len()
        invariant
            records@ == trace.record_seq(),
            *identity == trace.carrier_spec().identity_spec(),
            *internal == identity.internal_spec(),
            *boundary == identity.boundary_spec(),
            rows@ == internal.row_table(),
            boundary.row_table() == internal.row_table(),
            trace_valid(*identity, records@),
            t <= records@.len(),
            forall|u: int, r: int| 0 <= u < t && 0 <= r < rows@.len() ==> #[trigger] balanced_row(
                *identity,
                records@[u].data_spec(),
                r,
            ),
        decreases records.len() - t,
    {
        let record = &records[t];
        proof {
            assert(identity_equivalent(records@[t as int].identity_spec(), *identity));
            lemma_fit_equivalent(record.identity_spec(), *identity, record.data_spec());
        }
        let mut r: usize = 0;
        while r < rows.len()
            invariant
                *record == records@[t as int],
                *internal == identity.internal_spec(),
                *boundary == identity.boundary_spec(),
                rows@ == internal.row_table(),
                crate::record::values_fit(record.data_spec().before.table(), rows@),
                crate::record::values_fit(record.data_spec().after.table(), rows@),
                forall|c: int| 0 <= c < internal.column_table().len() ==> record.data_spec().settled_internal.names(
                    (#[trigger] internal.column_table()[c]).0@,
                ),
                forall|c: int| 0 <= c < boundary.column_table().len() ==> record.data_spec().settled_boundary.names(
                    (#[trigger] boundary.column_table()[c]).0@,
                ),
                boundary.row_table() == internal.row_table(),
                r <= rows@.len(),
                forall|q: int| 0 <= q < r ==> #[trigger] balanced_row(*identity, record.data_spec(), q),
            decreases rows.len() - r,
        {
            let axis = &rows[r].0;
            proof {
                assert(crate::table::holds(record.data_spec().after.table(), rows@[r as int].0@));
                assert(crate::table::holds(record.data_spec().before.table(), rows@[r as int].0@));
            }
            let observed = amount_named(record.after(), axis).sub(amount_named(record.before(), axis));
            let accounted = weigh_row(internal, r, record.settled_internal()).add(
                &weigh_row(boundary, r, record.settled_boundary()),
            );
            if !observed.eq(&accounted) {
                let residual = observed.sub(&accounted);
                let violation = TransitionViolation {
                    sentence: sentence.id.clone(),
                    transition: t,
                    axis: axis.clone(),
                    observed_delta: observed,
                    accounted_delta: accounted,
                    residual,
                };
                proof {
                    let data = records@[t as int].data_spec();
                    assert(transition_failure(*identity, data, r as int, violation));
                }
                return Ok(TransitionVerdict::Violated(violation));
            }
            r += 1;
        }
        t += 1;
    }
    let carrier = identity.clone();
    Ok(
        TransitionVerdict::Satisfied(
            TransitionWitness {
                sentence: sentence.id.clone(),
                transitions_checked: records.len(),
                axes_checked: rows.len(),
                residual: Rational::zero(),
                carrier,
            },
        ),
    )
}


/// Whether the carrier has an internal column named `flow` of kind `kind`.
pub open spec fn flow_fits(identity: CarrierIdentity, kind: KindId, flow: Seq<char>) -> bool {
    let columns = identity.internal_spec().column_table();
    holds(columns, flow) && value_of(columns, flow)@ == kind@
}

/// Whether `error` reports `flow` as unknown or of another kind.
pub open spec fn flow_misfit(identity: CarrierIdentity, sentence: SentenceId, kind: KindId, flow: Seq<char>, error: StockFlowError) -> bool {
    let columns = identity.internal_spec().column_table();
    if !holds(columns, flow) {
        error matches StockFlowError::UnknownFlow(f) && f@ == flow
    } else {
        &&& value_of(columns, flow)@ != kind@
        &&& error matches StockFlowError::SentenceKindMismatch { sentence: s, symbol: SymbolId::Flow(f), expected: e, actual: a }
            && s == sentence && f@ == flow && e == kind && a == value_of(columns, flow)
    }
}

/// Whether every term with a nonzero total names a carrier column of `kind`.
pub open spec fn terms_fit(identity: CarrierIdentity, kind: KindId, terms: Seq<(FlowId, Rational)>) -> bool {
    forall|k: Seq<char>| #[trigger] sum_for(terms, k) != 0real ==> flow_fits(identity, kind, k)
}

/// Whether `error` reports the least flow, in identifier order, with a
/// nonzero total that is unknown or of another kind.
pub open spec fn terms_refusal(
    identity: CarrierIdentity,
    sentence: SentenceId,
    kind: KindId,
    terms: Seq<(FlowId, Rational)>,
    error: StockFlowError,
) -> bool {
    exists|k: Seq<char>|
        #[trigger] sum_for(terms, k) != 0real && !flow_fits(identity, kind, k) && flow_misfit(identity, sentence, kind, k, error)
            && forall|j: Seq<char>| #[trigger] text_lt(j, k) && sum_for(terms, j) != 0real ==> flow_fits(identity, kind, j)
}

/// Named exact linear equation over settled internal-flow channels.
#[derive(Debug, PartialEq, Eq)]
pub struct LinearFlowConstraint {
    id: SentenceId,
    kind: KindId,
    coefficients: Vec<(FlowId, Rational)>,
    expected: Rational,
}

impl LinearFlowConstraint {
    /// The sentence identifier.
    pub closed spec fn id_spec(&self) -> SentenceId {
        self.id
    }

    /// The kind shared by every term.
    pub closed spec fn kind_spec(&self) -> KindId {
        self.kind
    }

    /// The canonical terms, in flow order.
    pub closed spec fn terms(&self) -> Seq<(FlowId, Rational)> {
        self.coefficients@
    }

    /// The exact expected value.
    pub closed spec fn expected_spec(&self) -> Rational {
        self.expected
    }

    #[verifier::type_invariant]
    closed spec fn canonical(&self) -> bool {
        &&& strictly_sorted(self.coefficients@)
        &&& all_nonzero(self.coefficients@)
        &&& self.coefficients@.len() > 0
    }

    /// Validates every referenced channel against a carrier.
    pub fn validate(&self, carrier: &StockFlowCarrier) -> (result: Result<(), StockFlowError>)
        ensures
            result is Ok <==> terms_fit(carrier.identity_spec(), self.kind_spec(), self.terms()),
            result matches Err(error) ==> terms_refusal(carrier.identity_spec(), self.id_spec(), self.kind_spec(), self.terms(), error),
    {
        proof {
            use_type_invariant(self);
        }
        let identity = carrier.identity();
        let internal = identity.internal_effects();
        let mut i: usize = 0;
        while i < self.coefficients.len()
            invariant
                *identity == carrier.identity_spec(),
                *internal == identity.internal_spec(),
                strictly_sorted(self.coefficients@),
                all_nonzero(self.coefficients@),
                i <= self.coefficients@.len(),
                forall|a: int| 0 <= a < i ==> flow_fits(*identity, self.kind, (#[trigger] self.coefficients@[a]).0@),
            decreases self.coefficients.len() - i,
        {
            let flow = &self.coefficients[i].0;
            let fits = match internal.column_kind(flow) {
                Some(actual) => {
                    if actual.same(&self.kind) {
                        true
                    } else {
                        let error = StockFlowError::SentenceKindMismatch {
                            sentence: self.id.clone(),
                            symbol: flow.symbol_id(),
                            expected: self.kind.clone(),
                            actual: actual.clone(),
                        };
                        proof {
                            lemma_first_misfit(*identity, self.id, self.kind, self.coefficients@, i as int, error);
                        }
                        return Err(error);
                    }
                },
                None => {
                    let error = StockFlowError::UnknownFlow(flow.clone());
                    proof {
                        lemma_first_misfit(*identity, self.id, self.kind, self.coefficients@, i as int, error);
                    }
                    return Err(error);
                },
            };
            i += 1;
        }
        proof {
            assert forall|k: Seq<char>| #[trigger] sum_for(self.coefficients@, k) != 0real implies flow_fits(*identity, self.kind, k) by {
                if !has_key(self.coefficients@, k) {
                    lemma_sum_for_absent(self.coefficients@, k);
                } else {
                    let a = choose|a: int| 0 <= a < self.coefficients@.len() && #[trigger] self.coefficients@[a].0@ == k;
                    assert(flow_fits(*identity, self.kind, self.coefficients@[a].0@));
                }
            }
        }
        Ok(())
    }
}

/// The first term of a canonical table that misfits is the least misfitting
/// flow with a nonzero total.
proof fn lemma_first_misfit(
    identity: CarrierIdentity,
    sentence: SentenceId,
    kind: KindId,
    terms: Seq<(FlowId, Rational)>,
    i: int,
    error: StockFlowError,
)
    requires
        strictly_sorted(terms),
        all_nonzero(terms),
        0 <= i < terms.len(),
        forall|a: int| 0 <= a < i ==> flow_fits(identity, kind, (#[trigger] terms[a]).0@),
        !flow_fits(identity, kind, terms[i].0@),
        flow_misfit(identity, sentence, kind, terms[i].0@, error),
    ensures
        terms_refusal(identity, sentence, kind, terms, error),
        !terms_fit(identity, kind, terms),
{
    let k = terms[i].0@;
    lemma_sum_for_sorted_at(terms, i);
    assert forall|j: Seq<char>| #[trigger] text_lt(j, k) && sum_for(terms, j) != 0real implies flow_fits(identity, kind, j) by {
        if !has_key(terms, j) {
            lemma_sum_for_absent(terms, j);
        } else {
            let a = choose|a: int| 0 <= a < terms.len() && #[trigger] terms[a].0@ == j;
            if a >= i {
                if a > i {
                    assert(text_lt(terms[i].0@, terms[a].0@));
                    lemma_text_lt_trichotomy(j, k);
                } else {
                    lemma_text_lt_irreflexive(k);
                }
            }
        }
    }
}

impl LinearFlowConstraint {
    /// Canonicalizes repeated terms, rejects a vacuous left-hand side, and
    /// validates every referenced channel against the carrier.
    pub fn new(
        carrier: &StockFlowCarrier,
        id: SentenceId,
        kind: KindId,
        coefficients: Vec<(FlowId, Rational)>,
        expected: Rational,
    ) -> (result: Result<Self, StockFlowError>)
        ensures
            result is Ok <==> (exists|k: Seq<char>| #[trigger] sum_for(coefficients@, k) != 0real) && terms_fit(
                carrier.identity_spec(),
                kind,
                coefficients@,
            ),
            match result {
                Ok(constraint) => {
                    &&& constraint.id_spec() == id
                    &&& constraint.kind_spec() == kind
                    &&& constraint.expected_spec() == expected
                    &&& forall|k: Seq<char>| #[trigger] sum_for(constraint.terms(), k) == sum_for(coefficients@, k)
                },
                Err(error) => if forall|k: Seq<char>| #[trigger] sum_for(coefficients@, k) == 0real {
                    error == StockFlowError::EmptyConstraint
                } else {
                    terms_refusal(carrier.identity_spec(), id, kind, coefficients@, error)
                },
            },
    {
        let canonical = canonical_terms(&coefficients);
        if canonical.len() == 0 {
            proof {
                assert forall|k: Seq<char>| #[trigger] sum_for(coefficients@, k) == 0real by {
                    if sum_for(coefficients@, k) != 0real {
                        assert(has_key(canonical@, k));
                    }
                }
            }
            return Err(StockFlowError::EmptyConstraint);
        }
        proof {
            assert(has_key(canonical@, canonical@[0].0@));
            assert(sum_for(coefficients@, canonical@[0].0@) != 0real);
        }
        let constraint = LinearFlowConstraint { id, kind, coefficients: canonical, expected };
        match constraint.validate(carrier) {
            Ok(()) => {
                proof {
                    assert forall|k: Seq<char>| #[trigger] sum_for(coefficients@, k) != 0real implies flow_fits(
                        carrier.identity_spec(),
                        kind,
                        k,
                    ) by {
                        assert(sum_for(canonical@, k) != 0real);
                    }
                }
                Ok(constraint)
            },
            Err(error) => {
                proof {
                    let k = choose|k: Seq<char>|
                        #[trigger] sum_for(canonical@, k) != 0real && !flow_fits(carrier.identity_spec(), kind, k) && flow_misfit(
                            carrier.identity_spec(),
                            constraint.id,
                            kind,
                            k,
                            error,
                        ) && forall|j: Seq<char>| #[trigger] text_lt(j, k) && sum_for(canonical@, j) != 0real ==> flow_fits(
                            carrier.identity_spec(),
                            kind,
                            j,
                        );
                    assert(sum_for(coefficients@, k) != 0real);
                    assert(!terms_fit(carrier.identity_spec(), kind, coefficients@));
                    assert(!(forall|k: Seq<char>| #[trigger] sum_for(coefficients@, k) == 0real));
                    assert forall|j: Seq<char>| #[trigger] text_lt(j, k) && sum_for(coefficients@, j) != 0real implies flow_fits(
                        carrier.identity_spec(),
                        kind,
                        j,
                    ) by {
                        assert(sum_for(canonical@, j) != 0real);
                    }
                }
                Err(error)
            },
        }
    }

    /// Stable sentence identifier.
    pub fn id(&self) -> (result: &SentenceId)
        ensures
            *result == self.id_spec(),
    {
        &self.id
    }

    /// Quantity kind shared by every term.
    pub fn kind(&self) -> (result: &KindId)
        ensures
            *result == self.kind_spec(),
    {
        &self.kind
    }

    /// Canonical exact nonzero coefficients.
    pub fn coefficients(&self) -> (result: &[(FlowId, Rational)])
        ensures
            result@ == self.terms(),
            strictly_sorted(result@),
            all_nonzero(result@),
    {
        proof {
            use_type_invariant(self);
        }
        self.coefficients.as_slice()
    }

    /// Exact expected value.
    pub fn expected(&self) -> (result: &Rational)
        ensures
            *result == self.expected_spec(),
    {
        &self.expected
    }
}


/// The exact value of the first `count` terms applied to named amounts.
pub open spec fn combination<I: Symbol>(terms: Seq<(I, Rational)>, amounts: ExactAmounts<I>, count: int) -> real
    decreases count,
{
    if count <= 0 {
        0real
    } else {
        combination(terms, amounts, count - 1) + terms[count - 1].1@ * amounts.amount_of(terms[count - 1].0@)
    }
}

/// Positive exact evidence for a linear flow constraint.
#[derive(Debug, PartialEq, Eq)]
pub struct FlowConstraintWitness {
    /// Sentence checked.
    pub sentence: SentenceId,
    /// Number of transitions checked.
    pub transitions_checked: usize,
    /// Exact expected value matched at every transition.
    pub expected: Rational,
}

/// First exact linear flow-constraint failure.
#[derive(Debug, PartialEq, Eq)]
pub struct FlowConstraintViolation {
    /// Sentence checked.
    pub sentence: SentenceId,
    /// First offending transition.
    pub transition: usize,
    /// Exact linear combination observed.
    pub observed: Rational,
    /// Exact expected value.
    pub expected: Rational,
}

/// Typed semantic outcome for a linear flow constraint.
#[derive(Debug, PartialEq, Eq)]
pub enum FlowConstraintVerdict {
    /// Every transition satisfied the constraint.
    Satisfied(FlowConstraintWitness),
    /// The first mismatching transition.
    Violated(FlowConstraintViolation),
}

impl FlowConstraintVerdict {
    /// Returns whether this verdict carries positive evidence.
    pub fn is_satisfied(&self) -> (result: bool)
        ensures
            result == (self is Satisfied),
    {
        match self {
            FlowConstraintVerdict::Satisfied(_) => true,
            FlowConstraintVerdict::Violated(_) => false,
        }
    }
}

/// A key held by a carrier column table is named by every record of the trace.
proof fn lemma_record_names_column(identity: CarrierIdentity, record: TransitionRecord, key: Seq<char>)
    requires
        identity_equivalent(record.identity_spec(), identity),
        crate::record::record_valid(record.identity_spec(), record.data_spec()),
        holds(identity.internal_spec().column_table(), key),
    ensures
        record.data_spec().settled_internal.names(key),
{
    lemma_fit_equivalent(record.identity_spec(), identity, record.data_spec());
    let c = choose|c: int| 0 <= c < identity.internal_spec().column_table().len() && (#[trigger] identity.internal_spec().column_table()[c]).0@ == key;
    assert(record.data_spec().settled_internal.names(identity.internal_spec().column_table()[c].0@));
}

/// Computes the value of canonical terms on named amounts.
fn evaluate_terms<I: Symbol>(terms: &[(I, Rational)], amounts: &ExactAmounts<I>) -> (result: Rational)
    requires
        forall|i: int| 0 <= i < terms@.len() ==> amounts.names((#[trigger] terms@[i]).0@),
    ensures
        result@ == combination(terms@, *amounts, terms@.len() as int),
{
    let mut total = Rational::zero();
    let mut i: usize = 0;
    while i < terms.len()
        invariant
            forall|a: int| 0 <= a < terms@.len() ==> amounts.names((#[trigger] terms@[a]).0@),
            i <= terms@.len(),
            total@ == combination(terms@, *amounts, i as int),
        decreases terms.len() - i,
    {
        let amount = amount_named(amounts, &terms[i].0);
        total = total.add(&terms[i].1.mul(amount));
        i += 1;
    }
    total
}

/// Whether `result` is what checking a linear flow constraint on `trace` reports.
pub open spec fn flow_outcome(sentence: LinearFlowConstraint, trace: TransitionTrace, result: Result<FlowConstraintVerdict, StockFlowError>) -> bool {
    let identity = trace.carrier_spec().identity_spec();
    let records = trace.record_seq();
    let terms = sentence.terms();
    let count = terms.len() as int;
    match result {
        Err(error) => if !terms_fit(identity, sentence.kind_spec(), terms) {
            terms_refusal(identity, sentence.id_spec(), sentence.kind_spec(), terms, error)
        } else {
            records.len() == 0 && too_short(error)
        },
        Ok(FlowConstraintVerdict::Satisfied(witness)) => {
            &&& terms_fit(identity, sentence.kind_spec(), terms)
            &&& records.len() > 0
            &&& forall|t: int| 0 <= t < records.len() ==> #[trigger] combination(
                terms,
                records[t].data_spec().settled_internal,
                count,
            ) == sentence.expected_spec()@
            &&& witness.sentence == sentence.id_spec()
            &&& witness.transitions_checked == records.len()
            &&& witness.expected@ == sentence.expected_spec()@
        },
        Ok(FlowConstraintVerdict::Violated(violation)) => {
            let t = violation.transition as int;
            &&& terms_fit(identity, sentence.kind_spec(), terms)
            &&& t < records.len()
            &&& forall|u: int| 0 <= u < t ==> #[trigger] combination(
                terms,
                records[u].data_spec().settled_internal,
                count,
            ) == sentence.expected_spec()@
            &&& combination(terms, records[t].data_spec().settled_internal, count) != sentence.expected_spec()@
            &&& violation.observed@ == combination(terms, records[t].data_spec().settled_internal, count)
            &&& violation.expected@ == sentence.expected_spec()@
            &&& violation.sentence == sentence.id_spec()
        },
    }
}

/// Checks one exact linear flow constraint over every accepted transition,
/// reporting the first transition whose combination differs.
#[verifier::loop_isolation(false)]
pub fn check_linear_flow_constraint(sentence: &LinearFlowConstraint, trace: &TransitionTrace) -> (result: Result<
    FlowConstraintVerdict,
    StockFlowError,
>)
    ensures
        flow_outcome(*sentence, *trace, result),
{
    sentence.validate(trace.carrier())?;
    let records = trace.records();
    if records.len() == 0 {
        return Err(StockFlowError::TooShort { transitions: 0 });
    }
    trace.check_continuous();
    let identity = trace.carrier().identity();
    let terms = sentence.coefficients();
    let mut t: usize = 0;
    while t < records.len()
        invariant
            records@ == trace.record_seq(),
            *identity == trace.carrier_spec().identity_spec(),
            terms@ == sentence.terms(),
            t <= records@.len(),
            forall|u: int| 0 <= u < t ==> #[trigger] combination(
                terms@,
                records@[u].data_spec().settled_internal,
                terms@.len() as int,
            ) == sentence.expected_spec()@,
        decreases records.len() - t,
    {
        let record = &records[t];
        proof {
            assert(identity_equivalent(records@[t as int].identity_spec(), *identity));
            assert forall|i: int| 0 <= i < terms@.len() implies record.data_spec().settled_internal.names((#[trigger] terms@[i]).0@) by {
                lemma_sum_for_sorted_at(terms@, i);
                assert(sum_for(terms@, terms@[i].0@) != 0real);
                lemma_record_names_column(*identity, *record, terms@[i].0@);
            }
        }
        let observed = evaluate_terms(terms, record.settled_internal());
        if !observed.eq(sentence.expected()) {
            return Ok(
                FlowConstraintVerdict::Violated(
                    FlowConstraintViolation {
                        sentence: sentence.id().clone(),
                        transition: t,
                        observed,
                        expected: sentence.expected().clone(),
                    },
                ),
            );
        }
        t += 1;
    }
    Ok(
        FlowConstraintVerdict::Satisfied(
            FlowConstraintWitness {
                sentence: sentence.id().clone(),
                transitions_checked: records.len(),
                expected: sentence.expected().clone(),
            },
        ),
    )
}


/// Named equality between one cumulative ledger and its declared ports.
#[derive(Debug, PartialEq, Eq)]
pub struct BoundaryCorrespondence {
    id: SentenceId,
    ledger: LedgerId,
}

impl BoundaryCorrespondence {
    /// The sentence identifier.
    pub closed spec fn id_spec(&self) -> SentenceId {
        self.id
    }

    /// The ledger checked.
    pub closed spec fn ledger_spec(&self) -> LedgerId {
        self.ledger
    }

    /// Constructs a sentence using the carrier-authoritative ledger mapping.
    pub fn new(id: SentenceId, ledger: LedgerId) -> (result: Self)
        ensures
            result.id_spec() == id,
            result.ledger_spec() == ledger,
    {
        BoundaryCorrespondence { id, ledger }
    }

    /// Stable sentence identifier.
    pub fn id(&self) -> (result: &SentenceId)
        ensures
            *result == self.id_spec(),
    {
        &self.id
    }

    /// Cumulative ledger checked by this sentence.
    pub fn ledger(&self) -> (result: &LedgerId)
        ensures
            *result == self.ledger_spec(),
    {
        &self.ledger
    }

    /// Validates that the carrier declares the ledger and its mapped ports.
    pub fn validate<'a>(&self, carrier: &'a StockFlowCarrier) -> (result: Result<&'a LedgerIdentity, StockFlowError>)
        ensures
            match result {
                Ok(identity) => holds(carrier.identity_spec().ledger_table(), self.ledger_spec()@) && *identity == value_of(
                    carrier.identity_spec().ledger_table(),
                    self.ledger_spec()@,
                ),
                Err(error) => !holds(carrier.identity_spec().ledger_table(), self.ledger_spec()@) && (error matches StockFlowError::UnknownLedger(
                    l,
                ) && l == self.ledger_spec()),
            },
    {
        match carrier.ledger(&self.ledger) {
            Some(identity) => Ok(identity),
            None => Err(StockFlowError::UnknownLedger(self.ledger.clone())),
        }
    }
}

impl Clone for BoundaryCorrespondence {
    fn clone(&self) -> (result: Self)
        ensures
            result.id_spec() == self.id_spec(),
            result.ledger_spec() == self.ledger_spec(),
    {
        BoundaryCorrespondence { id: self.id.clone(), ledger: self.ledger.clone() }
    }
}

/// Positive exact evidence for one boundary-ledger correspondence.
#[derive(Debug, PartialEq, Eq)]
pub struct BoundaryWitness {
    /// Sentence checked.
    pub sentence: SentenceId,
    /// Ledger checked.
    pub ledger: LedgerId,
    /// Canonical mapped ports.
    pub boundaries: Vec<BoundaryId>,
    /// Number of transitions checked.
    pub transitions_checked: usize,
}

/// First exact boundary-correspondence failure.
#[derive(Debug, PartialEq, Eq)]
pub struct BoundaryViolation {
    /// Sentence checked.
    pub sentence: SentenceId,
    /// First offending transition.
    pub transition: usize,
    /// Ledger whose increment was checked.
    pub ledger: LedgerId,
    /// Canonical mapped ports.
    pub boundaries: Vec<BoundaryId>,
    /// Exact observed ledger increment.
    pub observed_increment: Rational,
    /// Exact total settled across mapped ports.
    pub settled_total: Rational,
}

/// Typed semantic outcome for a boundary correspondence.
#[derive(Debug, PartialEq, Eq)]
pub enum BoundaryVerdict {
    /// Every ledger increment matched settled ports.
    Satisfied(BoundaryWitness),
    /// The first mismatching transition.
    Violated(BoundaryViolation),
}

impl BoundaryVerdict {
    /// Returns whether this verdict carries positive evidence.
    pub fn is_satisfied(&self) -> (result: bool)
        ensures
            result == (self is Satisfied),
    {
        match self {
            BoundaryVerdict::Satisfied(_) => true,
            BoundaryVerdict::Violated(_) => false,
        }
    }
}

/// The exact total of the first `count` ports' settled amounts.
pub open spec fn port_total(ports: Seq<(BoundaryId, ())>, amounts: ExactAmounts<BoundaryId>, count: int) -> real
    decreases count,
{
    if count <= 0 {
        0real
    } else {
        port_total(ports, amounts, count - 1) + amounts.amount_of(ports[count - 1].0@)
    }
}

/// A ledger's increment across a record.
pub open spec fn ledger_increment(data: TransitionRecordData, ledger: Seq<char>) -> real {
    data.ledger_after.amount_of(ledger) - data.ledger_before.amount_of(ledger)
}

/// Whether a ledger's increment in a record equals its ports' settled total.
pub open spec fn corresponds(data: TransitionRecordData, ledger: Seq<char>, ports: Seq<(BoundaryId, ())>) -> bool {
    ledger_increment(data, ledger) == port_total(ports, data.settled_boundary, ports.len() as int)
}

/// Computes the settled total of a ledger's ports.
fn settled_total(ports: &Vec<BoundaryId>, table: Ghost<Seq<(BoundaryId, ())>>, amounts: &ExactAmounts<BoundaryId>) -> (result: Rational)
    requires
        ports@.len() == table@.len(),
        forall|p: int| 0 <= p < ports@.len() ==> #[trigger] ports@[p] == table@[p].0,
        forall|p: int| 0 <= p < table@.len() ==> amounts.names((#[trigger] table@[p]).0@),
    ensures
        result@ == port_total(table@, *amounts, table@.len() as int),
{
    let mut total = Rational::zero();
    let mut p: usize = 0;
    while p < ports.len()
        invariant
            ports@.len() == table@.len(),
            forall|q: int| 0 <= q < ports@.len() ==> #[trigger] ports@[q] == table@[q].0,
            forall|q: int| 0 <= q < table@.len() ==> amounts.names((#[trigger] table@[q]).0@),
            p <= ports@.len(),
            total@ == port_total(table@, *amounts, p as int),
        decreases ports.len() - p,
    {
        proof {
            assert(amounts.names(table@[p as int].0@));
        }
        total = total.add(amount_named(amounts, &ports[p]));
        p += 1;
    }
    total
}

/// Whether `result` is what checking a boundary correspondence on `trace` reports.
pub open spec fn boundary_outcome(sentence: BoundaryCorrespondence, trace: TransitionTrace, result: Result<BoundaryVerdict, StockFlowError>) -> bool {
    let identity = trace.carrier_spec().identity_spec();
    let records = trace.record_seq();
    let key = sentence.ledger_spec()@;
    let ports = value_of(identity.ledger_table(), key).port_table();
    match result {
        Err(error) => if !holds(identity.ledger_table(), key) {
            error matches StockFlowError::UnknownLedger(l) && l == sentence.ledger_spec()
        } else {
            records.len() == 0 && too_short(error)
        },
        Ok(BoundaryVerdict::Satisfied(witness)) => {
            &&& holds(identity.ledger_table(), key)
            &&& records.len() > 0
            &&& forall|t: int| 0 <= t < records.len() ==> #[trigger] corresponds(records[t].data_spec(), key, ports)
            &&& witness.sentence == sentence.id_spec()
            &&& witness.ledger == sentence.ledger_spec()
            &&& witness.transitions_checked == records.len()
            &&& witness.boundaries@.len() == ports.len()
            &&& forall|p: int| 0 <= p < ports.len() ==> #[trigger] witness.boundaries@[p] == ports[p].0
        },
        Ok(BoundaryVerdict::Violated(violation)) => {
            let t = violation.transition as int;
            &&& holds(identity.ledger_table(), key)
            &&& t < records.len()
            &&& forall|u: int| 0 <= u < t ==> #[trigger] corresponds(records[u].data_spec(), key, ports)
            &&& !corresponds(records[t].data_spec(), key, ports)
            &&& violation.observed_increment@ == ledger_increment(records[t].data_spec(), key)
            &&& violation.settled_total@ == port_total(ports, records[t].data_spec().settled_boundary, ports.len() as int)
            &&& violation.sentence == sentence.id_spec()
            &&& violation.ledger == sentence.ledger_spec()
            &&& violation.boundaries@.len() == ports.len()
            &&& forall|p: int| 0 <= p < ports.len() ==> #[trigger] violation.boundaries@[p] == ports[p].0
        },
    }
}

/// Checks one carrier-authoritative ledger/port correspondence exactly,
/// reporting the first transition whose ledger increment differs from the
/// settled total of its ports.
#[verifier::loop_isolation(false)]
pub fn check_boundary_correspondence(sentence: &BoundaryCorrespondence, trace: &TransitionTrace) -> (result: Result<
    BoundaryVerdict,
    StockFlowError,
>)
    ensures
        boundary_outcome(*sentence, *trace, result),
{
    let ledger = sentence.validate(trace.carrier())?;
    let records = trace.records();
    if records.len() == 0 {
        return Err(StockFlowError::TooShort { transitions: 0 });
    }
    trace.check_continuous();
    let identity = trace.carrier().identity();
    identity.check_ordered();
    let ports = ledger.boundaries();
    let ghost table = ledger.port_table();
    let ghost key = sentence.ledger_spec()@;
    proof {
        let l = crate::table::position(identity.ledger_table(), key);
        crate::table::lemma_position(identity.ledger_table(), l);
    }
    let mut t: usize = 0;
    while t < records.len()
        invariant
            records@ == trace.record_seq(),
            forall|u: int| 0 <= u < t ==> #[trigger] corresponds(records@[u].data_spec(), key, table),
        decreases records.len() - t,
    {
        let record = &records[t];
        proof {
            assert(identity_equivalent(records@[t as int].identity_spec(), *identity));
            lemma_fit_equivalent(record.identity_spec(), *identity, record.data_spec());
            let l = crate::table::position(identity.ledger_table(), key);
            assert forall|p: int| 0 <= p < table.len() implies record.data_spec().settled_boundary.names((#[trigger] table[p]).0@) by {
                assert(holds(identity.boundary_spec().column_table(), identity.ledger_table()[l].1.port_table()[p].0@));
                let c = choose|c: int| 0 <= c < identity.boundary_spec().column_table().len() && (#[trigger] identity.boundary_spec().column_table()[c]).0@ == table[p].0@;
                assert(record.data_spec().settled_boundary.names(identity.boundary_spec().column_table()[c].0@));
            }
            let kinds = crate::record::ledger_kinds(*identity);
            assert(kinds[l].0@ == key);
            assert(holds(record.data_spec().ledger_after.table(), kinds[l].0@));
            assert(holds(record.data_spec().ledger_before.table(), kinds[l].0@));
        }
        let observed = amount_named(record.ledger_after(), &sentence.ledger).sub(
            amount_named(record.ledger_before(), &sentence.ledger),
        );
        let total = settled_total(&ports, Ghost(table), record.settled_boundary());
        if !observed.eq(&total) {
            return Ok(
                BoundaryVerdict::Violated(
                    BoundaryViolation {
                        sentence: sentence.id.clone(),
                        transition: t,
                        ledger: sentence.ledger.clone(),
                        boundaries: ports,
                        observed_increment: observed,
                        settled_total: total,
                    },
                ),
            );
        }
        t += 1;
    }
    Ok(
        BoundaryVerdict::Satisfied(
            BoundaryWitness {
                sentence: sentence.id.clone(),
                ledger: sentence.ledger.clone(),
                boundaries: ports,
                transitions_checked: records.len(),
            },
        ),
    )
}


/// Whether a ledger's projected axis is `axis`.
pub open spec fn ledger_axis_is(ledger: (LedgerId, LedgerIdentity), axis: Seq<char>) -> bool {
    ledger.1.axis_spec()@ == axis
}

/// The kind of a stock axis or projected ledger axis, when the carrier has it.
pub open spec fn axis_kind_in(identity: CarrierIdentity, axis: Seq<char>) -> Option<KindId> {
    let rows = identity.internal_spec().row_table();
    let ledgers = identity.ledger_table();
    if holds(rows, axis) {
        Some(value_of(rows, axis))
    } else if exists|l: int| 0 <= l < ledgers.len() && #[trigger] ledger_axis_is(ledgers[l], axis) {
        Some(ledgers[choose|l: int| 0 <= l < ledgers.len() && #[trigger] ledger_axis_is(ledgers[l], axis)].1.kind_spec())
    } else {
        None
    }
}

/// Whether every axis of a law is a carrier axis of the law's kind.
pub open spec fn law_fits(identity: CarrierIdentity, form: BalanceLaw) -> bool {
    forall|i: int| 0 <= i < form.terms().len() ==> (axis_kind_in(identity, (#[trigger] form.terms()[i]).0@) matches Some(
        k,
    ) && k@ == form.kind_spec()@)
}

/// Whether `error` reports the first axis of a law, in axis order, that is
/// unknown or of another kind.
pub open spec fn law_refusal(identity: CarrierIdentity, sentence: SentenceId, form: BalanceLaw, error: StockFlowError) -> bool {
    exists|i: int|
        0 <= i < form.terms().len() && (forall|a: int| 0 <= a < i ==> (axis_kind_in(identity, (#[trigger] form.terms()[a]).0@) matches Some(
            k,
        ) && k@ == form.kind_spec()@)) && #[trigger] axis_misfit(identity, sentence, form, form.terms()[i].0@, error)
}

/// Whether `error` reports `axis` as unknown or of a kind other than the law's.
pub open spec fn axis_misfit(identity: CarrierIdentity, sentence: SentenceId, form: BalanceLaw, axis: Seq<char>, error: StockFlowError) -> bool {
    match axis_kind_in(identity, axis) {
        None => error matches StockFlowError::UnknownAxis(a) && a@ == axis,
        Some(k) => k@ != form.kind_spec()@ && (error matches StockFlowError::SentenceKindMismatch {
            sentence: s,
            symbol: SymbolId::Axis(a),
            expected: e,
            actual: x,
        } && s == sentence && a@ == axis && e == form.kind_spec() && x == k),
    }
}

/// Named embedding of an existing graded state law.
#[derive(Debug, PartialEq, Eq)]
pub struct GradedStateLaw {
    id: SentenceId,
    law: GradedLaw,
}

/// The kind of an axis among the carrier's stock and ledger axes.
fn find_axis_kind<'a>(identity: &'a CarrierIdentity, axis: &AxisId) -> (result: Option<&'a KindId>)
    ensures
        match result {
            Some(kind) => axis_kind_in(*identity, axis@) == Some(*kind),
            None => axis_kind_in(*identity, axis@) is None,
        },
{
    identity.check_ordered();
    match identity.internal_effects().axis_kind(axis) {
        Some(kind) => {
            return Some(kind);
        },
        None => {},
    }
    let ledgers = identity.ledgers();
    let mut l: usize = 0;
    while l < ledgers.len()
        invariant
            ledgers@ == identity.ledger_table(),
            crate::carrier::ledger_axes_fresh(identity.internal_spec().row_table(), identity.ledger_table()),
            !holds(identity.internal_spec().row_table(), axis@),
            l <= ledgers@.len(),
            forall|m: int| 0 <= m < l ==> !#[trigger] ledger_axis_is(ledgers@[m], axis@),
        decreases ledgers.len() - l,
    {
        if ledgers[l].1.axis().same(axis) {
            proof {
                assert(ledger_axis_is(ledgers@[l as int], axis@));
                let chosen = choose|m: int| 0 <= m < ledgers@.len() && #[trigger] ledger_axis_is(ledgers@[m], axis@);
                if chosen != l {
                    if chosen < l {
                        assert(ledgers@[chosen].1.axis_spec()@ != ledgers@[l as int].1.axis_spec()@);
                    } else {
                        assert(ledgers@[l as int].1.axis_spec()@ != ledgers@[chosen].1.axis_spec()@);
                    }
                }
            }
            return Some(ledgers[l].1.kind());
        }
        l += 1;
    }
    None
}

impl GradedStateLaw {
    /// The sentence identifier.
    pub closed spec fn id_spec(&self) -> SentenceId {
        self.id
    }

    /// The graded law carried.
    pub closed spec fn law_spec(&self) -> GradedLaw {
        self.law
    }

    /// Constructs a named graded state sentence without changing its semantics.
    pub fn new(id: SentenceId, law: GradedLaw) -> (result: Self)
        ensures
            result.id_spec() == id,
            result.law_spec() == law,
    {
        GradedStateLaw { id, law }
    }

    /// Stable sentence identifier.
    pub fn id(&self) -> (result: &SentenceId)
        ensures
            *result == self.id_spec(),
    {
        &self.id
    }

    /// Existing graded law carried unchanged.
    pub fn law(&self) -> (result: &GradedLaw)
        ensures
            *result == self.law_spec(),
    {
        &self.law
    }

    /// Validates every law axis and kind against stocks or projected ledgers.
    pub fn validate(&self, carrier: &StockFlowCarrier) -> (result: Result<(), StockFlowError>)
        ensures
            result is Ok <==> law_fits(carrier.identity_spec(), self.law_spec().form_spec()),
            result matches Err(error) ==> law_refusal(carrier.identity_spec(), self.id_spec(), self.law_spec().form_spec(), error),
    {
        let identity = carrier.identity();
        let form = self.law.form();
        let terms = form.coefficients();
        let mut i: usize = 0;
        while i < terms.len()
            invariant
                *identity == carrier.identity_spec(),
                *form == self.law_spec().form_spec(),
                terms@ == form.terms(),
                i <= terms@.len(),
                forall|a: int| 0 <= a < i ==> (axis_kind_in(*identity, (#[trigger] form.terms()[a]).0@) matches Some(k)
                    && k@ == form.kind_spec()@),
            decreases terms.len() - i,
        {
            let axis = &terms[i].0;
            match find_axis_kind(identity, axis) {
                Some(actual) => {
                    if !actual.same(form.kind()) {
                        let error = StockFlowError::SentenceKindMismatch {
                            sentence: self.id.clone(),
                            symbol: axis.symbol_id(),
                            expected: form.kind().clone(),
                            actual: actual.clone(),
                        };
                        proof {
                            assert(axis_misfit(*identity, self.id, *form, form.terms()[i as int].0@, error));
                        }
                        return Err(error);
                    }
                },
                None => {
                    let error = StockFlowError::UnknownAxis(axis.clone());
                    proof {
                        assert(axis_misfit(*identity, self.id, *form, form.terms()[i as int].0@, error));
                    }
                    return Err(error);
                },
            }
            i += 1;
        }
        Ok(())
    }
}

/// Whether `result` is what checking a graded state law on `trace` reports.
pub open spec fn graded_outcome(sentence: GradedStateLaw, trace: TransitionTrace, result: Result<LawVerdict, StockFlowError>) -> bool {
    let identity = trace.carrier_spec().identity_spec();
    let form = sentence.law_spec().form_spec();
    match result {
        Ok(verdict) => {
            &&& law_fits(identity, form)
            &&& trace.record_seq().len() > 0
            &&& exists|states: Seq<TraceState>| #[trigger] projected_states(trace, states) && law_checked(
                sentence.law_spec(),
                states,
                Ok(verdict),
            )
        },
        Err(error) => if !law_fits(identity, form) {
            law_refusal(identity, sentence.id_spec(), form, error)
        } else if trace.record_seq().len() == 0 {
            too_short(error)
        } else {
            error matches StockFlowError::Trace(failure) && exists|states: Seq<TraceState>| #[trigger] projected_states(
                trace,
                states,
            ) && law_checked(sentence.law_spec(), states, Err(failure))
        },
    }
}

/// Delegates an embedded graded sentence to the existing exact trace checker
/// on the trace's projected states.
pub fn check_graded_state_law(sentence: &GradedStateLaw, trace: &TransitionTrace) -> (result: Result<LawVerdict, StockFlowError>)
    ensures
        graded_outcome(*sentence, *trace, result),
{
    sentence.validate(trace.carrier())?;
    if trace.records().len() == 0 {
        return Err(StockFlowError::TooShort { transitions: 0 });
    }
    let states = match trace.graded_states() {
        Ok(states) => states,
        Err(error) => {
            return Err(error);
        },
    };
    match check_law(sentence.law(), &states) {
        Ok(verdict) => Ok(verdict),
        Err(failure) => Err(StockFlowError::Trace(failure)),
    }
}

} // verus!
