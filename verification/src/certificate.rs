//! Exact left-nullspace certificates of a carrier's internal matrix and the
//! open balances they authorize.
use crate::carrier::{
    identity_equivalent, identity_sound, matrix_equivalent, CarrierIdentity, ExactEffectMatrix, LedgerIdentity, StockFlowCarrier, StockFlowError, Symbol,
    SymbolId,
};
use crate::entries::sum_for;
use crate::ident::{AxisId, BoundaryId, FlowId, KindId, LedgerId, SentenceId};
use crate::law::{BalanceLaw, Grade, GradedLaw, Provenance};
use crate::linear::{derive_left_nullspace, source_provenance, NullspaceSource, TransitionMatrix};
use crate::rational::Rational;
use crate::record::{amount_named, lemma_fit_equivalent, TransitionRecordData, TransitionTrace};
use crate::table::{holds, keys_sorted, position, value_of};
use crate::text::is_white_space;
use std::sync::Arc;
use vstd::prelude::*;

verus! {

/// The exact product `w^T M` at column `c`, over the first `count` terms of `w`.
pub open spec fn law_product<C: Symbol>(m: ExactEffectMatrix<C>, terms: Seq<(AxisId, Rational)>, c: int, count: int) -> real
    decreases count,
{
    if count <= 0 {
        0real
    } else {
        law_product(m, terms, c, count - 1) + terms[count - 1].1@ * m.coefficient_of(
            terms[count - 1].0@,
            m.column_table()[c].0@,
        )
    }
}

/// The product of a coefficient vector with column `c`, row by row over the
/// first `count` rows: each row's entry times the vector's total for the
/// row's axis.
pub open spec fn rowwise<C: Symbol>(m: ExactEffectMatrix<C>, coefficients: Seq<(AxisId, Rational)>, c: int, count: int) -> real
    decreases count,
{
    if count <= 0 {
        0real
    } else {
        rowwise(m, coefficients, c, count - 1) + m.entry(count - 1, c) * sum_for(coefficients, m.row_table()[count - 1].0@)
    }
}

/// A law's product with a column, taken over its terms, is the row-wise
/// product of any vector with the same coefficients.
pub(crate) proof fn lemma_product_rowwise<C: Symbol>(
    m: ExactEffectMatrix<C>,
    law: BalanceLaw,
    coefficients: Seq<(AxisId, Rational)>,
    c: int,
)
    requires
        keys_sorted(m.row_table()),
        keys_sorted(m.column_table()),
        0 <= c < m.column_table().len(),
        crate::entries::strictly_sorted(law.terms()),
        forall|i: int| 0 <= i < law.terms().len() ==> holds(m.row_table(), (#[trigger] law.terms()[i]).0@),
        forall|k: Seq<char>| #[trigger] law.coefficient_of(k) == sum_for(coefficients, k),
    ensures
        column_product(m, law, c) == rowwise(m, coefficients, c, m.row_table().len() as int),
{
    let terms = law.terms();
    let rows = m.row_table();
    let n = terms.len() as int;
    let slot = |i: int| crate::table::position(rows, terms[i].0@);
    let value = |r: int| m.entry(r, c) * sum_for(coefficients, rows[r].0@);
    let picks = |r: int| crate::entries::has_key(terms, rows[r].0@);
    crate::table::lemma_position(m.column_table(), c);
    assert forall|i: int| 0 <= i < n implies 0 <= #[trigger] slot(i) < rows.len() && picks(slot(i)) && rows[slot(i)].0@
        == terms[i].0@ by {
        assert(holds(rows, terms[i].0@));
    }
    lemma_terms_mapped(m, law, coefficients, c, slot, value, n);
    assert forall|i: int, j: int| 0 <= i < j < n implies #[trigger] slot(i) != #[trigger] slot(j) by {
        assert(crate::text::text_lt(terms[i].0@, terms[j].0@));
        crate::text::lemma_text_lt_irreflexive(terms[i].0@);
    }
    assert forall|r: int| 0 <= r < rows.len() && #[trigger] picks(r) implies crate::witness::hit(slot, r, n) by {
        let i = choose|i: int| 0 <= i < terms.len() && #[trigger] terms[i].0@ == rows[r].0@;
        crate::table::lemma_position(rows, r);
        assert(slot(i) == r);
    }
    crate::witness::lemma_reindex(slot, value, picks, n, rows.len() as int);
    lemma_picked_rowwise(m, law, coefficients, c, value, picks, rows.len() as int);
}

/// A law's product over its first `k` terms is the mapped total of the
/// row-wise values at the terms' rows.
proof fn lemma_terms_mapped<C: Symbol>(
    m: ExactEffectMatrix<C>,
    law: BalanceLaw,
    coefficients: Seq<(AxisId, Rational)>,
    c: int,
    slot: spec_fn(int) -> int,
    value: spec_fn(int) -> real,
    k: int,
)
    requires
        keys_sorted(m.column_table()),
        0 <= c < m.column_table().len(),
        crate::table::position(m.column_table(), m.column_table()[c].0@) == c,
        0 <= k <= law.terms().len(),
        crate::entries::strictly_sorted(law.terms()),
        forall|i: int| 0 <= i < law.terms().len() ==> #[trigger] slot(i) == crate::table::position(m.row_table(), law.terms()[i].0@)
            && m.row_table()[slot(i)].0@ == law.terms()[i].0@,
        forall|r: int| #[trigger] value(r) == m.entry(r, c) * sum_for(coefficients, m.row_table()[r].0@),
        forall|q: Seq<char>| #[trigger] law.coefficient_of(q) == sum_for(coefficients, q),
    ensures
        law_product(m, law.terms(), c, k) == crate::witness::mapped_total(slot, value, k),
    decreases k,
{
    if k > 0 {
        lemma_terms_mapped(m, law, coefficients, c, slot, value, k - 1);
        let i = k - 1;
        let terms = law.terms();
        crate::entries::lemma_sum_for_sorted_at(terms, i);
        assert(law.coefficient_of(terms[i].0@) == terms[i].1@);
        assert(sum_for(coefficients, m.row_table()[slot(i)].0@) == terms[i].1@);
        let e = m.entry(slot(i), c);
        assert(m.coefficient_of(terms[i].0@, m.column_table()[c].0@) == e);
        assert(terms[i].1@ * e == e * terms[i].1@) by (nonlinear_arith);
    }
}

/// The selected row-wise values total the whole row-wise product, since the
/// rows a law has no term for contribute nothing.
proof fn lemma_picked_rowwise<C: Symbol>(
    m: ExactEffectMatrix<C>,
    law: BalanceLaw,
    coefficients: Seq<(AxisId, Rational)>,
    c: int,
    value: spec_fn(int) -> real,
    picks: spec_fn(int) -> bool,
    k: int,
)
    requires
        forall|r: int| #[trigger] value(r) == m.entry(r, c) * sum_for(coefficients, m.row_table()[r].0@),
        forall|r: int| #[trigger] picks(r) == crate::entries::has_key(law.terms(), m.row_table()[r].0@),
        forall|q: Seq<char>| #[trigger] law.coefficient_of(q) == sum_for(coefficients, q),
    ensures
        crate::witness::picked_total(picks, value, k) == rowwise(m, coefficients, c, k),
    decreases k,
{
    if k > 0 {
        lemma_picked_rowwise(m, law, coefficients, c, value, picks, k - 1);
        let r = k - 1;
        if !picks(r) {
            crate::entries::lemma_sum_for_absent(law.terms(), m.row_table()[r].0@);
            assert(law.coefficient_of(m.row_table()[r].0@) == 0real);
            assert(m.entry(r, c) * 0real == 0real) by (nonlinear_arith);
        }
    }
}

/// The exact product of a law's terms with column `c`.
pub open spec fn column_product<C: Symbol>(m: ExactEffectMatrix<C>, law: BalanceLaw, c: int) -> real {
    law_product(m, law.terms(), c, law.terms().len() as int)
}

/// The sealed data of a certificate.
#[derive(Debug, PartialEq, Eq)]
struct Certificate {
    carrier: CarrierIdentity,
    law: BalanceLaw,
    source: NullspaceSource,
    annihilation: Vec<(FlowId, Rational)>,
    boundary_coefficients: Vec<(BoundaryId, Rational)>,
}

/// Sealed exact evidence that one typed coefficient vector annihilates `S`.
#[derive(Debug, PartialEq, Eq)]
pub struct CheckedNullspace {
    data: Arc<Certificate>,
}

impl CheckedNullspace {
    /// The carrier identity the certificate was checked against.
    pub closed spec fn carrier_spec(&self) -> CarrierIdentity {
        self.data.carrier
    }

    /// The checked linear form.
    pub closed spec fn law_spec(&self) -> BalanceLaw {
        self.data.law
    }

    /// The structural interpretation.
    pub closed spec fn source_spec(&self) -> NullspaceSource {
        self.data.source
    }

    /// The zero product of the form with each internal column, in column order.
    pub closed spec fn annihilation_table(&self) -> Seq<(FlowId, Rational)> {
        self.data.annihilation@
    }

    /// The product of the form with each boundary column, in column order.
    pub closed spec fn boundary_table(&self) -> Seq<(BoundaryId, Rational)> {
        self.data.boundary_coefficients@
    }

    #[verifier::type_invariant]
    closed spec fn sealed(&self) -> bool {
        certified(self.data.carrier, self.data.law, self.data.annihilation@, self.data.boundary_coefficients@)
    }

    /// The certificate's tables are what it states.
    pub fn check_sealed(&self)
        ensures
            certified(self.carrier_spec(), self.law_spec(), self.annihilation_table(), self.boundary_table()),
    {
        proof {
            use_type_invariant(self);
        }
    }
}

/// Whether a form's axes are carrier rows, its product with every internal
/// column is zero, and the tables hold those products and the products with
/// the boundary columns.
pub open spec fn certified(
    identity: CarrierIdentity,
    law: BalanceLaw,
    annihilation: Seq<(FlowId, Rational)>,
    boundary: Seq<(BoundaryId, Rational)>,
) -> bool {
    let internal = identity.internal_spec();
    let ports = identity.boundary_spec();
    &&& forall|i: int| 0 <= i < law.terms().len() ==> holds(internal.row_table(), (#[trigger] law.terms()[i]).0@)
    &&& annihilation.len() == internal.column_table().len()
    &&& forall|c: int| 0 <= c < annihilation.len() ==> (#[trigger] annihilation[c]).0 == internal.column_table()[c].0
        && annihilation[c].1@ == 0real && column_product(internal, law, c) == 0real
    &&& boundary.len() == ports.column_table().len()
    &&& forall|c: int| 0 <= c < boundary.len() ==> (#[trigger] boundary[c]).0 == ports.column_table()[c].0 && boundary[c].1@
        == column_product(ports, law, c)
    &&& keys_sorted(boundary)
}

impl Clone for CheckedNullspace {
    fn clone(&self) -> (result: Self)
        ensures
            result == *self,
    {
        proof {
            use_type_invariant(self);
        }
        let data = self.data.clone();
        assert(*data == *self.data);
        CheckedNullspace { data }
    }
}

/// Whether `error` reports the first coefficient axis, in input order, that is
/// not a stock axis of the certificate's kind.
pub open spec fn axis_refusal(
    identity: CarrierIdentity,
    kind: KindId,
    coefficients: Seq<(AxisId, Rational)>,
    error: StockFlowError,
) -> bool {
    let rows = identity.internal_spec().row_table();
    exists|i: int|
        0 <= i < coefficients.len() && (forall|a: int| 0 <= a < i ==> holds(rows, (#[trigger] coefficients[a]).0@) && value_of(
            rows,
            coefficients[a].0@,
        )@ == kind@) && #[trigger] row_misfit(rows, kind, coefficients[i].0@, error)
}

/// Whether `error` reports `axis` as unknown or of a kind other than `kind`.
pub open spec fn row_misfit(rows: Seq<(AxisId, KindId)>, kind: KindId, axis: Seq<char>, error: StockFlowError) -> bool {
    if !holds(rows, axis) {
        error matches StockFlowError::UnknownAxis(a) && a@ == axis
    } else {
        &&& value_of(rows, axis)@ != kind@
        &&& error matches StockFlowError::SentenceKindMismatch { sentence: s, symbol: SymbolId::Axis(a), expected: e, actual: x }
            && s@ == "nullspace-certificate"@ && a@ == axis && e == kind && x == value_of(rows, axis)
    }
}

/// Whether every coefficient axis is a stock axis of `kind`.
pub open spec fn axes_fit(identity: CarrierIdentity, kind: KindId, coefficients: Seq<(AxisId, Rational)>) -> bool {
    let rows = identity.internal_spec().row_table();
    forall|i: int| 0 <= i < coefficients.len() ==> holds(rows, (#[trigger] coefficients[i]).0@) && value_of(
        rows,
        coefficients[i].0@,
    )@ == kind@
}

/// The exact product of a form with column `c`.
fn product_at<C: Symbol>(m: &ExactEffectMatrix<C>, terms: &[(AxisId, Rational)], c: usize) -> (result: Rational)
    requires
        c < m.column_table().len(),
        forall|i: int| 0 <= i < terms@.len() ==> holds(m.row_table(), (#[trigger] terms@[i]).0@),
    ensures
        result@ == law_product(*m, terms@, c as int, terms@.len() as int),
{
    m.check_total();
    let columns = m.column_slice();
    let column = &columns[c].0;
    let mut total = Rational::zero();
    let mut i: usize = 0;
    while i < terms.len()
        invariant
            columns@ == m.column_table(),
            keys_sorted(m.column_table()),
            c < m.column_table().len(),
            *column == m.column_table()[c as int].0,
            forall|a: int| 0 <= a < terms@.len() ==> holds(m.row_table(), (#[trigger] terms@[a]).0@),
            i <= terms@.len(),
            total@ == law_product(*m, terms@, c as int, i as int),
        decreases terms.len() - i,
    {
        proof {
            assert(holds(m.row_table(), terms@[i as int].0@));
            assert(holds(m.column_table(), m.column_table()[c as int].0@));
        }
        let entry = match m.coefficient(&terms[i].0, column) {
            Some(entry) => entry,
            None => {
                proof {
                    assert(false);
                }
                return Rational::zero();
            },
        };
        total = total.add(&terms[i].1.mul(entry));
        i += 1;
    }
    total
}

/// The identifier of the sentence that certificate kind checks report.
fn certificate_sentence() -> (result: Result<SentenceId, crate::ident::IdentifierError>)
    ensures
        result matches Ok(id) && id@ == "nullspace-certificate"@,
{
    proof {
        reveal_strlit("nullspace-certificate");
        assert(!is_white_space('n'));
        assert("nullspace-certificate"@[0] == 'n');
    }
    SentenceId::new("nullspace-certificate")
}


/// Matrices with the same tables and entries give the same products.
proof fn lemma_product_alike<C: Symbol>(a: ExactEffectMatrix<C>, b: ExactEffectMatrix<C>, terms: Seq<(AxisId, Rational)>, c: int, count: int)
    requires
        a.row_table() == b.row_table(),
        a.column_table() == b.column_table(),
        forall|r: int, k: int| 0 <= r < a.row_table().len() && 0 <= k < a.column_table().len() ==> #[trigger] a.entry(r, k)
            == b.entry(r, k),
        0 <= c < a.column_table().len(),
        0 <= count <= terms.len(),
        forall|i: int| 0 <= i < terms.len() ==> holds(a.row_table(), (#[trigger] terms[i]).0@),
    ensures
        law_product(a, terms, c, count) == law_product(b, terms, c, count),
    decreases count,
{
    if count > 0 {
        lemma_product_alike(a, b, terms, c, count - 1);
        let axis = terms[count - 1].0@;
        assert(holds(a.row_table(), axis));
        let r = crate::table::position(a.row_table(), axis);
        let k = crate::table::position(a.column_table(), a.column_table()[c].0@);
        assert(holds(a.column_table(), a.column_table()[c].0@));
        assert(0 <= r < a.row_table().len());
        assert(0 <= k < a.column_table().len());
        assert(a.entry(r, k) == b.entry(r, k));
    }
}

/// Recomputes and seals one exact structural left-nullspace certificate of the
/// carrier's internal matrix for a typed coefficient vector.
#[verifier::loop_isolation(false)]
pub fn certify_nullspace(carrier: &StockFlowCarrier, kind: KindId, coefficients: Vec<(AxisId, Rational)>) -> (result: Result<
    CheckedNullspace,
    StockFlowError,
>)
    ensures
        ({
            let identity = carrier.identity_spec();
            let internal = identity.internal_spec();
            if !axes_fit(identity, kind, coefficients@) {
                result matches Err(error) && axis_refusal(identity, kind, coefficients@, error)
            } else if forall|k: Seq<char>| #[trigger] sum_for(coefficients@, k) == 0real {
                result == Err::<CheckedNullspace, StockFlowError>(StockFlowError::BalanceLaw(crate::law::BalanceLawError::Empty))
            } else if exists|c: int| 0 <= c < internal.column_table().len() && #[trigger] rowwise(
                internal,
                coefficients@,
                c,
                internal.row_table().len() as int,
            ) != 0real {
                result matches Err(error) && exists|c: int|
                    #![trigger rowwise(internal, coefficients@, c, internal.row_table().len() as int)]
                    0 <= c < internal.column_table().len() && rowwise(internal, coefficients@, c, internal.row_table().len() as int)
                        != 0real && (forall|d: int| 0 <= d < c ==> #[trigger] rowwise(
                        internal,
                        coefficients@,
                        d,
                        internal.row_table().len() as int,
                    ) == 0real) && (error matches StockFlowError::NonNullCertificate { flow, residual } && flow
                        == internal.column_table()[c].0 && residual@ == rowwise(
                        internal,
                        coefficients@,
                        c,
                        internal.row_table().len() as int,
                    ))
            } else {
                result matches Ok(certificate) && {
                    &&& identity_equivalent(certificate.carrier_spec(), identity)
                    &&& certificate.carrier_spec().internal_spec().row_table() == internal.row_table()
                    &&& certificate.carrier_spec().internal_spec().column_table() == internal.column_table()
                    &&& certificate.law_spec().kind_spec() == kind
                    &&& certificate.law_spec().provenance_spec() == Provenance::IncidenceNullspace
                    &&& certificate.source_spec() == NullspaceSource::Incidence
                    &&& forall|k: Seq<char>| #[trigger] certificate.law_spec().coefficient_of(k) == sum_for(coefficients@, k)
                    &&& forall|c: int| 0 <= c < internal.column_table().len() ==> #[trigger] column_product(
                        internal,
                        certificate.law_spec(),
                        c,
                    ) == 0real
                }
            }
        }),
{
    let identity = carrier.identity();
    let internal = identity.internal_effects();
    let ghost input = coefficients@;
    let mut i: usize = 0;
    while i < coefficients.len()
        invariant
            input == coefficients@,
            *identity == carrier.identity_spec(),
            *internal == identity.internal_spec(),
            i <= coefficients@.len(),
            forall|a: int| 0 <= a < i ==> holds(internal.row_table(), (#[trigger] coefficients@[a]).0@) && value_of(
                internal.row_table(),
                coefficients@[a].0@,
            )@ == kind@,
        decreases coefficients.len() - i,
    {
        let axis = &coefficients[i].0;
        match internal.axis_kind(axis) {
            Some(actual) => {
                if !actual.same(&kind) {
                    let sentence = match certificate_sentence() {
                        Ok(id) => id,
                        Err(_) => {
                            return Err(StockFlowError::UnknownAxis(axis.clone()));
                        },
                    };
                    let error = StockFlowError::SentenceKindMismatch {
                        sentence,
                        symbol: axis.symbol_id(),
                        expected: kind.clone(),
                        actual: actual.clone(),
                    };
                    proof {
                        assert(row_misfit(internal.row_table(), kind, coefficients@[i as int].0@, error));
                    }
                    return Err(error);
                }
            },
            None => {
                let error = StockFlowError::UnknownAxis(axis.clone());
                proof {
                    assert(row_misfit(internal.row_table(), kind, coefficients@[i as int].0@, error));
                }
                return Err(error);
            },
        }
        i += 1;
    }
    proof {
        assert(axes_fit(carrier.identity_spec(), kind, input));
    }
    let ghost wanted = kind;
    proof {
        assert(axes_fit(carrier.identity_spec(), wanted, input));
    }
    let law = match BalanceLaw::new(kind, coefficients, Provenance::IncidenceNullspace) {
        Ok(law) => law,
        Err(error) => {
            proof {
                assert(axes_fit(carrier.identity_spec(), wanted, input));
                assert(forall|k: Seq<char>| #[trigger] sum_for(input, k) == 0real);
            }
            return Err(StockFlowError::BalanceLaw(error));
        },
    };
    let terms = law.coefficients();
    proof {
        crate::entries::lemma_sum_for_sorted_at(terms@, 0);
        assert(law.coefficient_of(terms@[0].0@) == terms@[0].1@);
        assert(sum_for(input, terms@[0].0@) != 0real);
        assert forall|a: int| 0 <= a < terms@.len() implies holds(internal.row_table(), (#[trigger] terms@[a]).0@) by {
            crate::entries::lemma_sum_for_sorted_at(terms@, a);
            assert(law.coefficient_of(terms@[a].0@) == terms@[a].1@);
            assert(sum_for(input, terms@[a].0@) != 0real);
            if !crate::entries::has_key(input, terms@[a].0@) {
                crate::entries::lemma_sum_for_absent(input, terms@[a].0@);
            }
            let j = choose|j: int| 0 <= j < input.len() && #[trigger] input[j].0@ == terms@[a].0@;
            assert(holds(internal.row_table(), input[j].0@));
        }
    }
    identity.check_sound();
    let columns = internal.column_slice();
    let mut annihilation: Vec<(FlowId, Rational)> = Vec::new();
    let mut c: usize = 0;
    while c < columns.len()
        invariant
            columns@ == internal.column_table(),
            terms@ == law.terms(),
            law.kind_spec() == wanted,
            law.provenance_spec() == Provenance::IncidenceNullspace,
            forall|k: Seq<char>| #[trigger] law.coefficient_of(k) == sum_for(input, k),
            forall|a: int| 0 <= a < terms@.len() ==> holds(internal.row_table(), (#[trigger] terms@[a]).0@),
            crate::entries::strictly_sorted(terms@),
            identity_sound(*identity),
            *internal == identity.internal_spec(),
            c <= columns@.len(),
            annihilation@.len() == c,
            forall|d: int| 0 <= d < c ==> (#[trigger] annihilation@[d]).0 == internal.column_table()[d].0
                && annihilation@[d].1@ == 0real && column_product(*internal, law, d) == 0real,
        decreases columns.len() - c,
    {
        let residual = product_at(internal, terms, c);
        if !residual.is_zero() {
            let error = StockFlowError::NonNullCertificate { flow: columns[c].0.clone(), residual: Box::new(residual) };
            proof {
                let rows_count = internal.row_table().len() as int;
                lemma_product_rowwise(*internal, law, input, c as int);
                assert(rowwise(*internal, input, c as int, rows_count) != 0real);
                assert forall|d: int| 0 <= d < c implies #[trigger] rowwise(*internal, input, d, rows_count) == 0real by {
                    assert(annihilation@[d].1@ == 0real);
                    lemma_product_rowwise(*internal, law, input, d);
                }
            }
            return Err(error);
        }
        let ghost before = annihilation@;
        annihilation.push((columns[c].0.clone(), residual));
        proof {
            assert(column_product(*internal, law, c as int) == 0real);
            assert forall|d: int| 0 <= d < c + 1 implies (#[trigger] annihilation@[d]).0 == internal.column_table()[d].0
                && annihilation@[d].1@ == 0real && column_product(*internal, law, d) == 0real by {
                if d < c {
                    assert(annihilation@[d] == before[d]);
                }
            }
        }
        c += 1;
    }
    let boundary = identity.boundary_effects();
    let ports = boundary.column_slice();
    let mut boundary_coefficients: Vec<(BoundaryId, Rational)> = Vec::new();
    let mut c: usize = 0;
    identity.check_ordered();
    while c < ports.len()
        invariant
            *boundary == identity.boundary_spec(),
            boundary.row_table() == internal.row_table(),
            ports@ == boundary.column_table(),
            terms@ == law.terms(),
            law.kind_spec() == wanted,
            law.provenance_spec() == Provenance::IncidenceNullspace,
            forall|k: Seq<char>| #[trigger] law.coefficient_of(k) == sum_for(input, k),
            annihilation@.len() == internal.column_table().len(),
            forall|a: int| 0 <= a < terms@.len() ==> holds(internal.row_table(), (#[trigger] terms@[a]).0@),
            c <= ports@.len(),
            boundary_coefficients@.len() == c,
            forall|d: int| 0 <= d < c ==> (#[trigger] boundary_coefficients@[d]).0 == boundary.column_table()[d].0
                && boundary_coefficients@[d].1@ == column_product(*boundary, law, d),
        decreases ports.len() - c,
    {
        let value = product_at(boundary, terms, c);
        boundary_coefficients.push((ports[c].0.clone(), value));
        c += 1;
    }
    boundary.check_total();
    let sealed_identity = identity.clone();
    proof {
        assert forall|a: int, b: int| 0 <= a < b < boundary_coefficients@.len() implies crate::text::text_lt(
            (#[trigger] boundary_coefficients@[a]).0@,
            (#[trigger] boundary_coefficients@[b]).0@,
        ) by {
            assert(crate::text::text_lt(boundary.column_table()[a].0@, boundary.column_table()[b].0@));
        }
        assert forall|d: int| 0 <= d < internal.column_table().len() implies #[trigger] column_product(*internal, law, d)
            == 0real by {
            assert(annihilation@[d].1@ == 0real);
        }
        crate::entries::lemma_sum_for_sorted_at(terms@, 0);
        assert(law.coefficient_of(terms@[0].0@) == terms@[0].1@);
        assert(sum_for(input, terms@[0].0@) != 0real);
        let copy = sealed_identity;
        assert forall|d: int| 0 <= d < annihilation@.len() implies column_product(copy.internal_spec(), law, d) == 0real by {
            assert(annihilation@[d].1@ == 0real);
            assert(column_product(*internal, law, d) == 0real);
            assert(matrix_equivalent(copy.internal_spec(), *internal));
            lemma_product_alike(copy.internal_spec(), *internal, law.terms(), d, law.terms().len() as int);
        }
        assert forall|d: int| 0 <= d < boundary_coefficients@.len() implies column_product(copy.boundary_spec(), law, d)
            == column_product(*boundary, law, d) by {
            lemma_product_alike(copy.boundary_spec(), *boundary, law.terms(), d, law.terms().len() as int);
        }
    }
    proof {
        let rows_count = internal.row_table().len() as int;
        assert forall|d: int| 0 <= d < internal.column_table().len() implies #[trigger] rowwise(*internal, input, d, rows_count)
            == 0real by {
            assert(annihilation@[d].1@ == 0real);
            lemma_product_rowwise(*internal, law, input, d);
        }
    }
    let certificate = Certificate {
        carrier: sealed_identity,
        law,
        source: NullspaceSource::Incidence,
        annihilation,
        boundary_coefficients,
    };
    Ok(CheckedNullspace { data: Arc::new(certificate) })
}


impl CheckedNullspace {
    /// Checked canonical linear form.
    pub fn law(&self) -> (result: &BalanceLaw)
        ensures
            *result == self.law_spec(),
    {
        &self.data.law
    }

    /// Structural interpretation used to derive provenance.
    pub fn source(&self) -> (result: NullspaceSource)
        ensures
            result == self.source_spec(),
    {
        self.data.source
    }

    /// Exact zero product for every internal-flow column.
    pub fn annihilation(&self) -> (result: &[(FlowId, Rational)])
        ensures
            result@ == self.annihilation_table(),
            forall|c: int| 0 <= c < result@.len() ==> (#[trigger] result@[c]).1@ == 0real,
    {
        self.check_sealed();
        self.data.annihilation.as_slice()
    }

    /// Exact `w^T B` coefficient for one boundary port.
    pub fn boundary_coefficient(&self, boundary: &BoundaryId) -> (result: Option<&Rational>)
        ensures
            match result {
                Some(value) => holds(self.boundary_table(), boundary@) && *value == value_of(self.boundary_table(), boundary@),
                None => !holds(self.boundary_table(), boundary@),
            },
    {
        self.check_sealed();
        match crate::table::find_key(&self.data.boundary_coefficients, boundary.as_str()) {
            Some(index) => Some(&self.data.boundary_coefficients[index].1),
            None => None,
        }
    }

    /// Derives a named direct open-balance sentence.
    pub fn open_balance(&self, id: SentenceId) -> (result: OpenBalance)
        ensures
            result.id_spec() == id,
            result.certificate_spec() == *self,
    {
        OpenBalance { id, certificate: self.clone() }
    }
}

/// Named direct open-balance sentence derived from checked `w^T S = 0`.
#[derive(Debug, PartialEq, Eq)]
pub struct OpenBalance {
    id: SentenceId,
    certificate: CheckedNullspace,
}

impl OpenBalance {
    /// The sentence identifier.
    pub closed spec fn id_spec(&self) -> SentenceId {
        self.id
    }

    /// The certificate authorizing the sentence.
    pub closed spec fn certificate_spec(&self) -> CheckedNullspace {
        self.certificate
    }

    /// Stable sentence identifier.
    pub fn id(&self) -> (result: &SentenceId)
        ensures
            *result == self.id_spec(),
    {
        &self.id
    }

    /// Sealed derivation evidence authorizing this sentence.
    pub fn certificate(&self) -> (result: &CheckedNullspace)
        ensures
            *result == self.certificate_spec(),
    {
        &self.certificate
    }
}

impl Clone for OpenBalance {
    fn clone(&self) -> (result: Self)
        ensures
            result.id_spec() == self.id_spec(),
            result.certificate_spec() == self.certificate_spec(),
    {
        OpenBalance { id: self.id.clone(), certificate: self.certificate.clone() }
    }
}

/// Positive exact evidence for a derived direct open balance.
#[derive(Debug, PartialEq, Eq)]
pub struct OpenBalanceWitness {
    /// Sentence checked.
    pub sentence: SentenceId,
    /// Number of transitions checked.
    pub transitions_checked: usize,
    /// Exact derivation certificate kept separate from runtime evidence.
    pub certificate: CheckedNullspace,
}

/// First exact direct open-balance failure.
#[derive(Debug, PartialEq, Eq)]
pub struct OpenBalanceViolation {
    /// Sentence checked.
    pub sentence: SentenceId,
    /// First offending transition.
    pub transition: usize,
    /// Exact observed weighted stock delta.
    pub observed_delta: Rational,
    /// Exact weighted boundary contribution.
    pub boundary_delta: Rational,
    /// `observed_delta - boundary_delta`.
    pub residual: Rational,
}

/// Typed semantic outcome for a derived direct open balance.
#[derive(Debug, PartialEq, Eq)]
pub enum OpenBalanceVerdict {
    /// Every transition satisfied the derived balance.
    Satisfied(OpenBalanceWitness),
    /// The first mismatching transition.
    Violated(OpenBalanceViolation),
}

impl OpenBalanceVerdict {
    /// Returns whether this verdict carries positive evidence.
    pub fn is_satisfied(&self) -> (result: bool)
        ensures
            result == (self is Satisfied),
    {
        match self {
            OpenBalanceVerdict::Satisfied(_) => true,
            OpenBalanceVerdict::Violated(_) => false,
        }
    }
}

/// The weighted stock change `w^T (after - before)` over the first `count` terms.
pub open spec fn weighted_delta(terms: Seq<(AxisId, Rational)>, data: TransitionRecordData, count: int) -> real
    decreases count,
{
    if count <= 0 {
        0real
    } else {
        weighted_delta(terms, data, count - 1) + terms[count - 1].1@ * (data.after.amount_of(terms[count - 1].0@)
            - data.before.amount_of(terms[count - 1].0@))
    }
}

/// The weighted boundary flow `(w^T B) b` over the first `count` ports.
pub open spec fn boundary_delta(table: Seq<(BoundaryId, Rational)>, data: TransitionRecordData, count: int) -> real
    decreases count,
{
    if count <= 0 {
        0real
    } else {
        boundary_delta(table, data, count - 1) + table[count - 1].1@ * data.settled_boundary.amount_of(table[count - 1].0@)
    }
}

/// Whether a record satisfies a certificate's open balance.
pub open spec fn open_balanced(certificate: CheckedNullspace, data: TransitionRecordData) -> bool {
    let terms = certificate.law_spec().terms();
    let table = certificate.boundary_table();
    weighted_delta(terms, data, terms.len() as int) == boundary_delta(table, data, table.len() as int)
}

/// Whether `result` is what checking a derived open balance on `trace` reports.
pub open spec fn open_balance_outcome(sentence: OpenBalance, trace: TransitionTrace, result: Result<OpenBalanceVerdict, StockFlowError>) -> bool {
    let identity = trace.carrier_spec().identity_spec();
    let records = trace.record_seq();
    let certificate = sentence.certificate_spec();
    let terms = certificate.law_spec().terms();
    let table = certificate.boundary_table();
    match result {
        Err(error) => if !identity_equivalent(certificate.carrier_spec(), identity) {
            error == StockFlowError::CarrierMismatch
        } else {
            records.len() == 0 && error == StockFlowError::TooShort { transitions: 0 }
        },
        Ok(OpenBalanceVerdict::Satisfied(witness)) => {
            &&& identity_equivalent(certificate.carrier_spec(), identity)
            &&& records.len() > 0
            &&& forall|t: int| 0 <= t < records.len() ==> #[trigger] open_balanced(certificate, records[t].data_spec())
            &&& witness.sentence == sentence.id_spec()
            &&& witness.transitions_checked == records.len()
            &&& witness.certificate == certificate
        },
        Ok(OpenBalanceVerdict::Violated(violation)) => {
            let t = violation.transition as int;
            let data = records[t].data_spec();
            &&& identity_equivalent(certificate.carrier_spec(), identity)
            &&& t < records.len()
            &&& forall|u: int| 0 <= u < t ==> #[trigger] open_balanced(certificate, records[u].data_spec())
            &&& !open_balanced(certificate, data)
            &&& violation.observed_delta@ == weighted_delta(terms, data, terms.len() as int)
            &&& violation.boundary_delta@ == boundary_delta(table, data, table.len() as int)
            &&& violation.residual@ == weighted_delta(terms, data, terms.len() as int) - boundary_delta(table, data, table.len() as int)
            &&& violation.sentence == sentence.id_spec()
        },
    }
}

/// Checks a certificate-derived direct open balance on one exact trace,
/// reporting the first transition whose weighted change differs from its
/// weighted boundary flow.
#[verifier::loop_isolation(false)]
pub fn check_open_balance(sentence: &OpenBalance, trace: &TransitionTrace) -> (result: Result<OpenBalanceVerdict, StockFlowError>)
    ensures
        open_balance_outcome(*sentence, *trace, result),
{
    let certificate = &sentence.certificate;
    if !certificate.data.carrier.same_as(trace.carrier().identity()) {
        return Err(StockFlowError::CarrierMismatch);
    }
    let records = trace.records();
    if records.len() == 0 {
        return Err(StockFlowError::TooShort { transitions: 0 });
    }
    trace.check_continuous();
    certificate.check_sealed();
    let identity = trace.carrier().identity();
    let terms = certificate.data.law.coefficients();
    let table = certificate.data.boundary_coefficients.as_slice();
    let mut t: usize = 0;
    while t < records.len()
        invariant
            records@ == trace.record_seq(),
            forall|u: int| 0 <= u < t ==> #[trigger] open_balanced(*certificate, records@[u].data_spec()),
        decreases records.len() - t,
    {
        let record = &records[t];
        proof {
            assert(identity_equivalent(records@[t as int].identity_spec(), *identity));
            lemma_fit_equivalent(record.identity_spec(), *identity, record.data_spec());
        }
        let mut observed = Rational::zero();
        let mut i: usize = 0;
        while i < terms.len()
            invariant
                i <= terms@.len(),
                observed@ == weighted_delta(terms@, record.data_spec(), i as int),
            decreases terms.len() - i,
        {
            let axis = &terms[i].0;
            proof {
                let rows = identity.internal_spec().row_table();
                let own = certificate.carrier_spec().internal_spec().row_table();
                assert(holds(own, terms@[i as int].0@));
                let r = choose|r: int| 0 <= r < own.len() && (#[trigger] own[r]).0@ == terms@[i as int].0@;
                assert(rows[r].0@ == own[r].0@);
                assert(holds(record.data_spec().after.table(), rows[r].0@));
                assert(holds(record.data_spec().before.table(), rows[r].0@));
            }
            let change = amount_named(record.after(), axis).sub(amount_named(record.before(), axis));
            observed = observed.add(&terms[i].1.mul(&change));
            i += 1;
        }
        let mut flow = Rational::zero();
        let mut b: usize = 0;
        while b < table.len()
            invariant
                b <= table@.len(),
                flow@ == boundary_delta(table@, record.data_spec(), b as int),
            decreases table.len() - b,
        {
            proof {
                let ports = identity.boundary_spec().column_table();
                let own = certificate.carrier_spec().boundary_spec().column_table();
                assert(table@[b as int].0 == own[b as int].0);
                assert(ports[b as int].0@ == own[b as int].0@);
                assert(record.data_spec().settled_boundary.names(ports[b as int].0@));
            }
            let amount = amount_named(record.settled_boundary(), &table[b].0);
            flow = flow.add(&table[b].1.mul(amount));
            b += 1;
        }
        if !observed.eq(&flow) {
            let residual = observed.sub(&flow);
            return Ok(
                OpenBalanceVerdict::Violated(
                    OpenBalanceViolation {
                        sentence: sentence.id.clone(),
                        transition: t,
                        observed_delta: observed,
                        boundary_delta: flow,
                        residual,
                    },
                ),
            );
        }
        t += 1;
    }
    Ok(
        OpenBalanceVerdict::Satisfied(
            OpenBalanceWitness {
                sentence: sentence.id.clone(),
                transitions_checked: records.len(),
                certificate: certificate.clone(),
            },
        ),
    )
}


/// Whether the carrier has a stock axis of `kind`.
pub open spec fn kind_has_axis(identity: CarrierIdentity, kind: KindId) -> bool {
    let rows = identity.internal_spec().row_table();
    exists|r: int| 0 <= r < rows.len() && (#[trigger] rows[r]).1@ == kind@
}

/// Whether a certificate is a checked exact left-nullspace member of the
/// carrier's internal matrix for `kind`.
pub open spec fn basis_member(identity: CarrierIdentity, kind: KindId, certificate: CheckedNullspace) -> bool {
    let internal = identity.internal_spec();
    &&& identity_equivalent(certificate.carrier_spec(), identity)
    &&& certificate.law_spec().kind_spec() == kind
    &&& certificate.law_spec().provenance_spec() == Provenance::IncidenceNullspace
    &&& certificate.source_spec() == NullspaceSource::Incidence
    &&& forall|c: int| 0 <= c < internal.column_table().len() ==> #[trigger] column_product(
        internal,
        certificate.law_spec(),
        c,
    ) == 0real
}

/// Whether [`certify_nullspace`] accepts the form: every axis is a stock axis
/// of `kind`, some axis has a nonzero total, and the row-wise product with
/// every internal column is zero.
pub open spec fn certifiable(identity: CarrierIdentity, kind: KindId, coefficients: Seq<(AxisId, Rational)>) -> bool {
    let internal = identity.internal_spec();
    &&& axes_fit(identity, kind, coefficients)
    &&& exists|k: Seq<char>| #[trigger] sum_for(coefficients, k) != 0real
    &&& forall|c: int| 0 <= c < internal.column_table().len() ==> #[trigger] rowwise(
        internal,
        coefficients,
        c,
        internal.row_table().len() as int,
    ) == 0real
}

/// Whether two forms have the same axes and coefficient values, term by term.
pub open spec fn same_terms(a: Seq<(AxisId, Rational)>, b: Seq<(AxisId, Rational)>) -> bool {
    &&& a.len() == b.len()
    &&& forall|i: int| 0 <= i < a.len() ==> (#[trigger] a[i]).0 == b[i].0 && a[i].1@ == b[i].1@
}

/// Forms with the same terms have the same totals.
proof fn lemma_same_totals(a: Seq<(AxisId, Rational)>, b: Seq<(AxisId, Rational)>, key: Seq<char>)
    requires
        same_terms(a, b),
    ensures
        sum_for(a, key) == sum_for(b, key),
    decreases a.len(),
{
    if a.len() > 0 {
        assert(same_terms(a.drop_last(), b.drop_last()));
        lemma_same_totals(a.drop_last(), b.drop_last(), key);
        assert(a.last().0 == b.last().0 && a.last().1@ == b.last().1@);
    }
}

/// Forms with the same totals have the same row-wise products.
proof fn lemma_same_rowwise<C: Symbol>(m: ExactEffectMatrix<C>, a: Seq<(AxisId, Rational)>, b: Seq<(AxisId, Rational)>, c: int, count: int)
    requires
        forall|k: Seq<char>| #[trigger] sum_for(a, k) == sum_for(b, k),
    ensures
        rowwise(m, a, c, count) == rowwise(m, b, c, count),
    decreases count,
{
    if count > 0 {
        lemma_same_rowwise(m, a, b, c, count - 1);
        assert(sum_for(a, m.row_table()[count - 1].0@) == sum_for(b, m.row_table()[count - 1].0@));
    }
}

/// Whether a form is certifiable does not depend on how its terms are held.
proof fn lemma_same_certifiable(identity: CarrierIdentity, kind: KindId, a: Seq<(AxisId, Rational)>, b: Seq<(AxisId, Rational)>)
    requires
        same_terms(a, b),
        certifiable(identity, kind, b),
    ensures
        certifiable(identity, kind, a),
{
    let internal = identity.internal_spec();
    assert forall|k: Seq<char>| #[trigger] sum_for(a, k) == sum_for(b, k) by {
        lemma_same_totals(a, b, k);
    }
    assert forall|c: int| 0 <= c < internal.column_table().len() implies #[trigger] rowwise(
        internal,
        a,
        c,
        internal.row_table().len() as int,
    ) == 0real by {
        lemma_same_rowwise(internal, a, b, c, internal.row_table().len() as int);
    }
    let k = choose|k: Seq<char>| #[trigger] sum_for(b, k) != 0real;
    assert(sum_for(a, k) != 0real);
    assert forall|i: int| 0 <= i < a.len() implies holds(identity.internal_spec().row_table(), (#[trigger] a[i]).0@) && value_of(
        identity.internal_spec().row_table(),
        a[i].0@,
    )@ == kind@ by {
        assert(a[i].0 == b[i].0);
    }
}

/// Whether every nonzero entry of `m` joins a row and a column of one kind.
pub open spec fn kinds_apart<C: Symbol>(m: ExactEffectMatrix<C>) -> bool {
    forall|q: int, c: int|
        0 <= q < m.row_table().len() && 0 <= c < m.column_table().len() && #[trigger] m.entry(q, c) != 0real
            ==> m.row_table()[q].1@ == m.column_table()[c].1@
}

/// Rows on which a form's total vanishes add nothing to a row-wise product,
/// so it is the total over the rows `picks` selects.
proof fn lemma_rowwise_selected<C: Symbol>(
    m: ExactEffectMatrix<C>,
    coefficients: Seq<(AxisId, Rational)>,
    c: int,
    value: spec_fn(int) -> real,
    picks: spec_fn(int) -> bool,
    k: int,
)
    requires
        forall|r: int| #[trigger] value(r) == m.entry(r, c) * sum_for(coefficients, m.row_table()[r].0@),
        forall|r: int| 0 <= r < k && !(#[trigger] picks(r)) ==> sum_for(coefficients, m.row_table()[r].0@) == 0real,
    ensures
        crate::witness::picked_total(picks, value, k) == rowwise(m, coefficients, c, k),
    decreases k,
{
    if k > 0 {
        lemma_rowwise_selected(m, coefficients, c, value, picks, k - 1);
        let r = k - 1;
        if !picks(r) {
            assert(m.entry(r, c) * 0real == 0real) by (nonlinear_arith);
        }
    }
}

/// A row-wise product is zero when each row has a zero entry or a zero total.
proof fn lemma_rowwise_vanishes<C: Symbol>(m: ExactEffectMatrix<C>, coefficients: Seq<(AxisId, Rational)>, c: int, k: int)
    requires
        forall|r: int| 0 <= r < k ==> #[trigger] m.entry(r, c) == 0real || sum_for(coefficients, m.row_table()[r].0@) == 0real,
    ensures
        rowwise(m, coefficients, c, k) == 0real,
    decreases k,
{
    if k > 0 {
        lemma_rowwise_vanishes(m, coefficients, c, k - 1);
        let e = m.entry(k - 1, c);
        let t = sum_for(coefficients, m.row_table()[k - 1].0@);
        assert(e * t == 0real) by (nonlinear_arith)
            requires
                e == 0real || t == 0real,
        ;
    }
}

/// Two mapped totals whose terms agree position by position are equal.
proof fn lemma_mapped_alike(
    first_slot: spec_fn(int) -> int,
    first: spec_fn(int) -> real,
    second_slot: spec_fn(int) -> int,
    second: spec_fn(int) -> real,
    k: int,
)
    requires
        forall|i: int| 0 <= i < k ==> #[trigger] first(first_slot(i)) == second(second_slot(i)),
    ensures
        crate::witness::mapped_total(first_slot, first, k) == crate::witness::mapped_total(second_slot, second, k),
    decreases k,
{
    if k > 0 {
        lemma_mapped_alike(first_slot, first, second_slot, second, k - 1);
        assert(first(first_slot(k - 1)) == second(second_slot(k - 1)));
    }
}

/// A dot product is the mapped total of its termwise products.
proof fn lemma_dot_mapped(row: Seq<real>, x: Seq<real>, slot: spec_fn(int) -> int, value: spec_fn(int) -> real, n: int)
    requires
        forall|i: int| 0 <= i < n ==> #[trigger] value(slot(i)) == row[i] * x[i],
    ensures
        crate::linear::dot(row, x, n) == crate::witness::mapped_total(slot, value, n),
    decreases n,
{
    if n > 0 {
        lemma_dot_mapped(row, x, slot, value, n - 1);
        assert(value(slot(n - 1)) == row[n - 1] * x[n - 1]);
    }
}

/// On a column of `kind`, the row-wise product of a form that vanishes off
/// the kind's rows is the product of the form's totals on the submatrix's
/// axes with the submatrix's column.
proof fn lemma_kind_column(
    internal: ExactEffectMatrix<FlowId>,
    kind: KindId,
    positions: Seq<usize>,
    axes: Seq<AxisId>,
    entries: Seq<Vec<Rational>>,
    f: int,
    c: int,
    matrix: TransitionMatrix,
    coefs: Seq<real>,
    coefficients: Seq<(AxisId, Rational)>,
)
    requires
        keys_sorted(internal.row_table()),
        0 <= c < internal.column_table().len(),
        positions.len() == axes.len(),
        entries.len() == axes.len(),
        forall|j: int|
            0 <= j < positions.len() ==> (#[trigger] positions[j]) < internal.row_table().len() && axes[j]
                == internal.row_table()[positions[j] as int].0 && internal.row_table()[positions[j] as int].1@ == kind@,
        forall|j: int, i: int| 0 <= j < i < positions.len() ==> #[trigger] positions[j] < #[trigger] positions[i],
        forall|q: int|
            0 <= q < internal.row_table().len() && (#[trigger] internal.row_table()[q]).1@ == kind@ ==> exists|j: int|
                0 <= j < positions.len() && #[trigger] positions[j] == q,
        forall|j: int|
            0 <= j < entries.len() ==> 0 <= f < (#[trigger] entries[j])@.len() && entries[j]@[f]@ == internal.entry(
                positions[j] as int,
                c,
            ),
        matrix.shaped(),
        matrix.axis_ids().len() == axes.len(),
        crate::linear::rows_placed(matrix.axis_ids(), matrix.rows(), axes, crate::linear::row_values(entries)),
        forall|a: int| 0 <= a < axes.len() ==> #[trigger] coefs[a] == sum_for(coefficients, matrix.axis_ids()[a]@),
        forall|q: int|
            0 <= q < internal.row_table().len() && (#[trigger] internal.row_table()[q]).1@ != kind@ ==> sum_for(
                coefficients,
                internal.row_table()[q].0@,
            ) == 0real,
    ensures
        rowwise(internal, coefficients, c, internal.row_table().len() as int) == crate::linear::dot(
            crate::linear::transition_column(matrix, f),
            coefs,
            axes.len() as int,
        ),
{
    let rows = internal.row_table();
    let n = rows.len() as int;
    let width = axes.len() as int;
    let value = |q: int| internal.entry(q, c) * sum_for(coefficients, rows[q].0@);
    let picks = |q: int| rows[q].1@ == kind@;
    assert forall|q: int| 0 <= q < n && !(#[trigger] picks(q)) implies sum_for(coefficients, rows[q].0@) == 0real by {
        assert(rows[q].1@ != kind@);
    }
    lemma_rowwise_selected(internal, coefficients, c, value, picks, n);
    let slot = |j: int| positions[j] as int;
    assert forall|j: int| 0 <= j < width implies 0 <= #[trigger] slot(j) < n && picks(slot(j)) by {
        assert(positions[j] < n);
    }
    assert forall|j: int, i: int| 0 <= j < i < width implies #[trigger] slot(j) != #[trigger] slot(i) by {
        assert(positions[j] < positions[i]);
    }
    assert forall|q: int| 0 <= q < n && #[trigger] picks(q) implies crate::witness::hit(slot, q, width) by {
        assert(rows[q].1@ == kind@);
        let j = choose|j: int| 0 <= j < positions.len() && #[trigger] positions[j] == q;
        assert(slot(j) == q);
    }
    crate::witness::lemma_reindex(slot, value, picks, width, n);
    let value2 = |j: int| entries[j]@[f]@ * sum_for(coefficients, axes[j]@);
    let ident = |j: int| j;
    assert forall|j: int| 0 <= j < width implies #[trigger] value(slot(j)) == value2(ident(j)) by {
        assert(positions[j] < n);
        assert(entries[j]@[f]@ == internal.entry(positions[j] as int, c));
    }
    lemma_mapped_alike(slot, value, ident, value2, width);
    let all = |j: int| true;
    assert forall|j: int| 0 <= j < width implies 0 <= #[trigger] ident(j) < width && all(ident(j)) by {}
    assert forall|j: int, i: int| 0 <= j < i < width implies #[trigger] ident(j) != #[trigger] ident(i) by {}
    assert forall|t: int| 0 <= t < width && #[trigger] all(t) implies crate::witness::hit(ident, t, width) by {
        assert(ident(t) == t);
    }
    crate::witness::lemma_reindex(ident, value2, all, width, width);
    let sorted = matrix.axis_ids();
    let slot2 = |a: int| choose|j: int| 0 <= j < width && #[trigger] axes[j] == sorted[a];
    assert forall|a: int| 0 <= a < width implies 0 <= #[trigger] slot2(a) < width && all(slot2(a)) && axes[slot2(a)]
        == sorted[a] by {
        assert(crate::linear::has_axis(axes, sorted[a]));
    }
    assert forall|a: int, b: int| 0 <= a < b < width implies #[trigger] slot2(a) != #[trigger] slot2(b) by {
        assert(crate::text::text_lt(sorted[a]@, sorted[b]@));
        crate::text::lemma_text_lt_irreflexive(sorted[a]@);
        assert(axes[slot2(a)] == sorted[a]);
        assert(axes[slot2(b)] == sorted[b]);
    }
    assert forall|t: int| 0 <= t < width && #[trigger] all(t) implies crate::witness::hit(slot2, t, width) by {
        assert(crate::linear::has_axis(sorted, axes[t]));
        let a = choose|a: int| 0 <= a < sorted.len() && sorted[a] == axes[t];
        let j = slot2(a);
        assert(0 <= j < width && axes[j] == sorted[a]);
        if j != t {
            assert(positions[j] < n && positions[t] < n);
            assert(rows[positions[j] as int].0@ == rows[positions[t] as int].0@);
            crate::table::lemma_unique_position(rows, positions[j] as int, positions[t] as int);
            if j < t {
                assert(positions[j] < positions[t]);
            } else {
                assert(positions[t] < positions[j]);
            }
        }
        assert(slot2(a) == t);
    }
    crate::witness::lemma_reindex(slot2, value2, all, width, width);
    let column = crate::linear::transition_column(matrix, f);
    assert forall|a: int| 0 <= a < width implies #[trigger] value2(slot2(a)) == column[a] * coefs[a] by {
        let j = slot2(a);
        assert(0 <= j < width && axes[j] == sorted[a]);
        assert(matrix.rows()[a] == crate::linear::row_values(entries)[j]);
        assert(column[a] == matrix.rows()[a][f]);
        assert(crate::linear::row_values(entries)[j] == crate::exact::reals(entries[j]@));
        assert(crate::exact::reals(entries[j]@)[f] == entries[j]@[f]@);
        assert(coefs[a] == sum_for(coefficients, sorted[a]@));
    }
    lemma_dot_mapped(column, coefs, slot2, value2, width);
}

/// A form certifies when its axes are stock axes of `kind`, it has a nonzero
/// total, it vanishes on the rows of other kinds, and its row-wise product
/// with each column of `kind` is zero: where the internal matrix keeps kinds
/// apart, a column of another kind meets only zero entries or zero totals.
proof fn lemma_separated_certifiable(identity: CarrierIdentity, kind: KindId, coefficients: Seq<(AxisId, Rational)>)
    requires
        axes_fit(identity, kind, coefficients),
        exists|k: Seq<char>| #[trigger] sum_for(coefficients, k) != 0real,
        kinds_apart(identity.internal_spec()),
        forall|q: int|
            0 <= q < identity.internal_spec().row_table().len() && (#[trigger] identity.internal_spec().row_table()[q]).1@
                != kind@ ==> sum_for(coefficients, identity.internal_spec().row_table()[q].0@) == 0real,
        forall|c: int|
            0 <= c < identity.internal_spec().column_table().len() && (#[trigger] identity.internal_spec().column_table()[c]).1@
                == kind@ ==> rowwise(
                identity.internal_spec(),
                coefficients,
                c,
                identity.internal_spec().row_table().len() as int,
            ) == 0real,
    ensures
        certifiable(identity, kind, coefficients),
{
    let internal = identity.internal_spec();
    let rows = internal.row_table();
    let columns = internal.column_table();
    assert forall|c: int| 0 <= c < columns.len() implies #[trigger] rowwise(internal, coefficients, c, rows.len() as int)
        == 0real by {
        if columns[c].1@ != kind@ {
            assert forall|q: int| 0 <= q < rows.len() implies #[trigger] internal.entry(q, c) == 0real || sum_for(
                coefficients,
                rows[q].0@,
            ) == 0real by {
                if rows[q].1@ != kind@ {
                    assert(sum_for(coefficients, rows[q].0@) == 0real);
                }
            }
            lemma_rowwise_vanishes(internal, coefficients, c, rows.len() as int);
        } else {
            assert(columns[c].1@ == kind@);
        }
    }
}

/// A law of the kind's submatrix, copied term by term, certifies against the
/// whole carrier: its axes are the kind's stock axes, it has a term, it
/// vanishes on every other row, and it annihilates each of the kind's columns.
proof fn lemma_law_certifiable(
    identity: CarrierIdentity,
    kind: KindId,
    positions: Seq<usize>,
    axes: Seq<AxisId>,
    entries: Seq<Vec<Rational>>,
    flows: Seq<usize>,
    matrix: TransitionMatrix,
    law: BalanceLaw,
    coefficients: Seq<(AxisId, Rational)>,
)
    requires
        keys_sorted(identity.internal_spec().row_table()),
        kinds_apart(identity.internal_spec()),
        positions.len() == axes.len(),
        entries.len() == axes.len(),
        forall|j: int|
            0 <= j < positions.len() ==> (#[trigger] positions[j]) < identity.internal_spec().row_table().len() && axes[j]
                == identity.internal_spec().row_table()[positions[j] as int].0
                && identity.internal_spec().row_table()[positions[j] as int].1@ == kind@,
        forall|j: int, i: int| 0 <= j < i < positions.len() ==> #[trigger] positions[j] < #[trigger] positions[i],
        forall|q: int|
            0 <= q < identity.internal_spec().row_table().len() && (#[trigger] identity.internal_spec().row_table()[q]).1@
                == kind@ ==> exists|j: int| 0 <= j < positions.len() && #[trigger] positions[j] == q,
        forall|j: int| 0 <= j < flows.len() ==> (#[trigger] flows[j]) < identity.internal_spec().column_table().len(),
        forall|d: int|
            0 <= d < identity.internal_spec().column_table().len() && (#[trigger] identity.internal_spec().column_table()[d]).1@
                == kind@ ==> exists|j: int| 0 <= j < flows.len() && #[trigger] flows[j] == d,
        forall|j: int, f: int|
            #![trigger entries[j]@[f]]
            0 <= j < entries.len() && 0 <= f < flows.len() ==> entries[j]@.len() == flows.len() && entries[j]@[f]@
                == identity.internal_spec().entry(positions[j] as int, flows[f] as int),
        matrix.shaped(),
        matrix.axis_ids().len() == axes.len(),
        matrix.column_count() == flows.len(),
        crate::linear::rows_placed(matrix.axis_ids(), matrix.rows(), axes, crate::linear::row_values(entries)),
        crate::linear::annihilates(matrix, law),
        crate::linear::supported_on(matrix, law),
        law.terms().len() > 0,
        forall|k: Seq<char>| #[trigger] crate::entries::has_key(law.terms(), k) <==> law.coefficient_of(k) != 0real,
        same_terms(coefficients, law.terms()),
    ensures
        certifiable(identity, kind, coefficients),
{
    let internal = identity.internal_spec();
    let rows = internal.row_table();
    let columns = internal.column_table();
    let terms = law.terms();
    assert forall|k: Seq<char>| #[trigger] law.coefficient_of(k) == sum_for(coefficients, k) by {
        lemma_same_totals(coefficients, terms, k);
    }
    assert forall|k: Seq<char>| law.coefficient_of(k) != 0real implies exists|j: int|
        0 <= j < positions.len() && k == rows[#[trigger] positions[j] as int].0@ by {
        assert(law.coefficient_of(k) != 0real);
        let a = choose|a: int| 0 <= a < matrix.axis_ids().len() && matrix.axis_ids()[a]@ == k;
        assert(crate::linear::has_axis(axes, matrix.axis_ids()[a]));
        let j = choose|j: int| 0 <= j < axes.len() && axes[j] == matrix.axis_ids()[a];
        assert(k == rows[positions[j] as int].0@);
    }
    assert forall|q: int| 0 <= q < rows.len() && (#[trigger] rows[q]).1@ != kind@ implies sum_for(coefficients, rows[q].0@)
        == 0real by {
        if law.coefficient_of(rows[q].0@) != 0real {
            let j = choose|j: int| 0 <= j < positions.len() && rows[q].0@ == rows[#[trigger] positions[j] as int].0@;
            crate::table::lemma_unique_position(rows, q, positions[j] as int);
        }
    }
    assert forall|i: int| 0 <= i < coefficients.len() implies holds(rows, (#[trigger] coefficients[i]).0@) && value_of(
        rows,
        coefficients[i].0@,
    )@ == kind@ by {
        let key = terms[i].0@;
        assert(coefficients[i].0 == terms[i].0);
        assert(crate::entries::has_key(terms, key));
        let j = choose|j: int| 0 <= j < positions.len() && key == rows[#[trigger] positions[j] as int].0@;
        crate::table::lemma_position(rows, positions[j] as int);
    }
    let first = terms[0].0@;
    assert(crate::entries::has_key(terms, first));
    assert(sum_for(coefficients, first) != 0real);
    assert forall|d: int| 0 <= d < columns.len() && (#[trigger] columns[d]).1@ == kind@ implies rowwise(
        internal,
        coefficients,
        d,
        rows.len() as int,
    ) == 0real by {
        let f = choose|j: int| 0 <= j < flows.len() && #[trigger] flows[j] == d;
        assert(f < matrix.column_count());
        assert(crate::linear::dot(
            crate::linear::transition_column(matrix, f),
            crate::linear::law_coefficients(matrix, law),
            matrix.axis_ids().len() as int,
        ) == 0real);
        assert forall|j: int| 0 <= j < entries.len() implies 0 <= f < (#[trigger] entries[j])@.len() && entries[j]@[f]@
            == internal.entry(positions[j] as int, d) by {
            assert(entries[j]@[f]@ == internal.entry(positions[j] as int, flows[f] as int));
        }
        let coefs = crate::linear::law_coefficients(matrix, law);
        assert forall|a: int| 0 <= a < axes.len() implies #[trigger] coefs[a] == sum_for(coefficients, matrix.axis_ids()[a]@) by {
            assert(coefs[a] == law.coefficient_of(matrix.axis_ids()[a]@));
        }
        lemma_kind_column(internal, kind, positions, axes, entries, f, d, matrix, coefs, coefficients);
    }
    lemma_separated_certifiable(identity, kind, coefficients);
}

/// `weights[0]·l_0(axis) + ... + weights[count - 1]·l_{count - 1}(axis)`, where
/// `l_b` is the coefficient function of the law of `basis[b]`.
pub open spec fn basis_combination(basis: Seq<CheckedNullspace>, weights: Seq<real>, axis: Seq<char>, count: int) -> real
    decreases count,
{
    if count <= 0 {
        0real
    } else {
        basis_combination(basis, weights, axis, count - 1) + weights[count - 1] * basis[count - 1].law_spec().coefficient_of(axis)
    }
}

/// Whether a form's row-wise product with every internal column is zero.
pub open spec fn annihilates_internal(identity: CarrierIdentity, coefficients: Seq<(AxisId, Rational)>) -> bool {
    let internal = identity.internal_spec();
    forall|c: int| 0 <= c < internal.column_table().len() ==> #[trigger] rowwise(
        internal,
        coefficients,
        c,
        internal.row_table().len() as int,
    ) == 0real
}

/// Whether every form on the stock axes of `kind` that annihilates the
/// internal matrix has, axis by axis, the totals of a combination of the
/// basis laws.
pub open spec fn spans_kind(identity: CarrierIdentity, kind: KindId, basis: Seq<CheckedNullspace>) -> bool {
    forall|coefficients: Seq<(AxisId, Rational)>|
        #[trigger] axes_fit(identity, kind, coefficients) && annihilates_internal(identity, coefficients) ==> exists|
            weights: Seq<real>,
        |
            #![trigger weights.len()]
            weights.len() == basis.len() && forall|axis: Seq<char>| #[trigger] sum_for(coefficients, axis) == basis_combination(
                basis,
                weights,
                axis,
                basis.len() as int,
            )
}

/// Whether the only combination of the basis laws with every coefficient
/// zero is the one with every weight zero.
pub open spec fn independent_basis(basis: Seq<CheckedNullspace>) -> bool {
    forall|weights: Seq<real>|
        weights.len() == basis.len() && (forall|axis: Seq<char>| #[trigger] basis_combination(
            basis,
            weights,
            axis,
            basis.len() as int,
        ) == 0real) ==> forall|b: int| 0 <= b < weights.len() ==> #[trigger] weights[b] == 0real
}

/// A combination of laws whose coefficients at `axis` are the vectors'
/// entries at `a` is the combination of the vectors at `a`.
proof fn lemma_basis_matches(basis: Seq<CheckedNullspace>, weights: Seq<real>, axis: Seq<char>, vectors: Seq<Seq<real>>, a: int, count: int)
    requires
        forall|b: int| 0 <= b < count ==> #[trigger] basis[b].law_spec().coefficient_of(axis) == vectors[b][a],
    ensures
        basis_combination(basis, weights, axis, count) == crate::linear::combination(vectors, weights, a, count),
    decreases count,
{
    if count > 0 {
        lemma_basis_matches(basis, weights, axis, vectors, a, count - 1);
        assert(basis[count - 1].law_spec().coefficient_of(axis) == vectors[count - 1][a]);
    }
}

/// A combination of laws that all lack `axis` is zero there.
proof fn lemma_basis_zero(basis: Seq<CheckedNullspace>, weights: Seq<real>, axis: Seq<char>, count: int)
    requires
        forall|b: int| 0 <= b < count ==> #[trigger] basis[b].law_spec().coefficient_of(axis) == 0real,
    ensures
        basis_combination(basis, weights, axis, count) == 0real,
    decreases count,
{
    if count > 0 {
        lemma_basis_zero(basis, weights, axis, count - 1);
        assert(basis[count - 1].law_spec().coefficient_of(axis) == 0real);
        assert(weights[count - 1] * 0real == 0real) by (nonlinear_arith);
    }
}

/// A combination in which only law `b` has `axis` is that law's weighted
/// coefficient.
proof fn lemma_basis_single(basis: Seq<CheckedNullspace>, weights: Seq<real>, axis: Seq<char>, b: int, count: int)
    requires
        0 <= b < count,
        forall|d: int| 0 <= d < count && d != b ==> #[trigger] basis[d].law_spec().coefficient_of(axis) == 0real,
    ensures
        basis_combination(basis, weights, axis, count) == weights[b] * basis[b].law_spec().coefficient_of(axis),
    decreases count,
{
    if b == count - 1 {
        lemma_basis_zero(basis, weights, axis, count - 1);
    } else {
        lemma_basis_single(basis, weights, axis, b, count - 1);
        assert(basis[count - 1].law_spec().coefficient_of(axis) == 0real);
        assert(weights[count - 1] * 0real == 0real) by (nonlinear_arith);
    }
}

/// A form on the stock axes of `kind` has no total off those axes.
proof fn lemma_fit_off_kind(rows: Seq<(AxisId, KindId)>, kind: KindId, coefficients: Seq<(AxisId, Rational)>, axis: Seq<char>)
    requires
        keys_sorted(rows),
        forall|i: int| 0 <= i < coefficients.len() ==> holds(rows, (#[trigger] coefficients[i]).0@) && value_of(rows, coefficients[i].0@)@
            == kind@,
        !exists|q: int| 0 <= q < rows.len() && (#[trigger] rows[q]).0@ == axis && rows[q].1@ == kind@,
    ensures
        sum_for(coefficients, axis) == 0real,
{
    if crate::entries::has_key(coefficients, axis) {
        let i = choose|i: int| 0 <= i < coefficients.len() && #[trigger] coefficients[i].0@ == axis;
        assert(holds(rows, coefficients[i].0@));
        let q = choose|q: int| 0 <= q < rows.len() && (#[trigger] rows[q]).0@ == axis;
        crate::table::lemma_position(rows, q);
        assert(rows[q].0@ == axis && rows[q].1@ == kind@);
    }
    crate::entries::lemma_sum_for_absent(coefficients, axis);
}

/// The unit forms of the stock axes of a kind with no flow span every form
/// of the kind and are independent.
proof fn lemma_unit_basis(identity: CarrierIdentity, kind: KindId, positions: Seq<usize>, axes: Seq<AxisId>, basis: Seq<CheckedNullspace>)
    requires
        keys_sorted(identity.internal_spec().row_table()),
        positions.len() == axes.len(),
        basis.len() == axes.len(),
        forall|j: int|
            0 <= j < positions.len() ==> (#[trigger] positions[j]) < identity.internal_spec().row_table().len() && axes[j]
                == identity.internal_spec().row_table()[positions[j] as int].0
                && identity.internal_spec().row_table()[positions[j] as int].1@ == kind@,
        forall|j: int, i: int| 0 <= j < i < positions.len() ==> #[trigger] positions[j] < #[trigger] positions[i],
        forall|q: int|
            0 <= q < identity.internal_spec().row_table().len() && (#[trigger] identity.internal_spec().row_table()[q]).1@
                == kind@ ==> exists|j: int| 0 <= j < positions.len() && #[trigger] positions[j] == q,
        forall|b: int, k: Seq<char>|
            0 <= b < basis.len() ==> #[trigger] basis[b].law_spec().coefficient_of(k) == if k == axes[b]@ {
                1real
            } else {
                0real
            },
    ensures
        spans_kind(identity, kind, basis),
        independent_basis(basis),
{
    let rows = identity.internal_spec().row_table();
    let count = basis.len() as int;
    assert forall|j: int, i: int| 0 <= j < count && 0 <= i < count && j != i implies axes[j]@ != axes[i]@ by {
        if axes[j]@ == axes[i]@ {
            crate::table::lemma_unique_position(rows, positions[j] as int, positions[i] as int);
            if j < i {
                assert(positions[j] < positions[i]);
            } else {
                assert(positions[i] < positions[j]);
            }
        }
    }
    assert forall|coefficients: Seq<(AxisId, Rational)>|
        #[trigger] axes_fit(identity, kind, coefficients) && annihilates_internal(identity, coefficients) implies exists|
            weights: Seq<real>,
        |
            #![trigger weights.len()]
            weights.len() == basis.len() && forall|axis: Seq<char>| #[trigger] sum_for(coefficients, axis) == basis_combination(
                basis,
                weights,
                axis,
                basis.len() as int,
            ) by {
        let weights = Seq::new(count as nat, |b: int| sum_for(coefficients, axes[b]@));
        assert forall|axis: Seq<char>| #[trigger] sum_for(coefficients, axis) == basis_combination(basis, weights, axis, count) by {
            if exists|b: int| 0 <= b < count && axes[b]@ == axis {
                let b = choose|b: int| 0 <= b < count && axes[b]@ == axis;
                assert forall|d: int| 0 <= d < count && d != b implies #[trigger] basis[d].law_spec().coefficient_of(axis) == 0real by {
                    assert(axes[d]@ != axes[b]@);
                }
                lemma_basis_single(basis, weights, axis, b, count);
                assert(basis[b].law_spec().coefficient_of(axis) == 1real);
                assert(weights[b] * 1real == weights[b]) by (nonlinear_arith);
            } else {
                assert forall|d: int| 0 <= d < count implies #[trigger] basis[d].law_spec().coefficient_of(axis) == 0real by {
                    assert(axes[d]@ != axis);
                }
                lemma_basis_zero(basis, weights, axis, count);
                if exists|q: int| 0 <= q < rows.len() && (#[trigger] rows[q]).0@ == axis && rows[q].1@ == kind@ {
                    let q = choose|q: int| 0 <= q < rows.len() && (#[trigger] rows[q]).0@ == axis && rows[q].1@ == kind@;
                    let j = choose|j: int| 0 <= j < positions.len() && #[trigger] positions[j] == q;
                    assert(axes[j]@ == axis);
                }
                lemma_fit_off_kind(rows, kind, coefficients, axis);
            }
        }
        assert(weights.len() == basis.len());
    }
    assert forall|weights: Seq<real>|
        weights.len() == basis.len() && (forall|axis: Seq<char>| #[trigger] basis_combination(basis, weights, axis, basis.len() as int)
            == 0real) implies forall|b: int| 0 <= b < weights.len() ==> #[trigger] weights[b] == 0real by {
        assert forall|b: int| 0 <= b < weights.len() implies #[trigger] weights[b] == 0real by {
            let axis = axes[b]@;
            assert forall|d: int| 0 <= d < count && d != b implies #[trigger] basis[d].law_spec().coefficient_of(axis) == 0real by {
                assert(axes[d]@ != axes[b]@);
            }
            lemma_basis_single(basis, weights, axis, b, count);
            assert(basis_combination(basis, weights, axis, count) == 0real);
            assert(weights[b] * 1real == weights[b]) by (nonlinear_arith);
        }
    }
}

/// The certified copies of a basis of the kind's submatrix left nullspace
/// span every form of the kind that annihilates the internal matrix, and are
/// independent.
proof fn lemma_submatrix_basis(
    identity: CarrierIdentity,
    kind: KindId,
    positions: Seq<usize>,
    axes: Seq<AxisId>,
    entries: Seq<Vec<Rational>>,
    flows: Seq<usize>,
    matrix: TransitionMatrix,
    laws: Seq<BalanceLaw>,
    basis: Seq<CheckedNullspace>,
)
    requires
        keys_sorted(identity.internal_spec().row_table()),
        positions.len() == axes.len(),
        entries.len() == axes.len(),
        forall|j: int|
            0 <= j < positions.len() ==> (#[trigger] positions[j]) < identity.internal_spec().row_table().len() && axes[j]
                == identity.internal_spec().row_table()[positions[j] as int].0
                && identity.internal_spec().row_table()[positions[j] as int].1@ == kind@,
        forall|j: int, i: int| 0 <= j < i < positions.len() ==> #[trigger] positions[j] < #[trigger] positions[i],
        forall|q: int|
            0 <= q < identity.internal_spec().row_table().len() && (#[trigger] identity.internal_spec().row_table()[q]).1@
                == kind@ ==> exists|j: int| 0 <= j < positions.len() && #[trigger] positions[j] == q,
        forall|j: int| 0 <= j < flows.len() ==> (#[trigger] flows[j]) < identity.internal_spec().column_table().len(),
        forall|j: int, f: int|
            #![trigger entries[j]@[f]]
            0 <= j < entries.len() && 0 <= f < flows.len() ==> entries[j]@.len() == flows.len() && entries[j]@[f]@
                == identity.internal_spec().entry(positions[j] as int, flows[f] as int),
        matrix.shaped(),
        matrix.axis_ids().len() == axes.len(),
        matrix.column_count() == flows.len(),
        crate::linear::rows_placed(matrix.axis_ids(), matrix.rows(), axes, crate::linear::row_values(entries)),
        crate::linear::spans(
            crate::linear::transition_rows(matrix),
            crate::linear::law_vectors(matrix, laws),
            axes.len() as int,
        ),
        crate::linear::independent(crate::linear::law_vectors(matrix, laws), axes.len() as int),
        forall|l: int| 0 <= l < laws.len() ==> crate::linear::supported_on(matrix, #[trigger] laws[l]),
        basis.len() == laws.len(),
        forall|b: int, k: Seq<char>|
            0 <= b < basis.len() ==> #[trigger] basis[b].law_spec().coefficient_of(k) == laws[b].coefficient_of(k),
    ensures
        spans_kind(identity, kind, basis),
        independent_basis(basis),
{
    let internal = identity.internal_spec();
    let rows = internal.row_table();
    let sorted = matrix.axis_ids();
    let width = axes.len() as int;
    let count = basis.len() as int;
    let vectors = crate::linear::law_vectors(matrix, laws);
    assert forall|q: int| 0 <= q < rows.len() && (#[trigger] rows[q]).1@ == kind@ implies exists|a: int|
        0 <= a < width && sorted[a]@ == rows[q].0@ by {
        let j = choose|j: int| 0 <= j < positions.len() && #[trigger] positions[j] == q;
        assert(crate::linear::has_axis(sorted, axes[j]));
        let a = choose|a: int| 0 <= a < sorted.len() && sorted[a] == axes[j];
        assert(sorted[a]@ == rows[q].0@);
    }
    assert forall|coefficients: Seq<(AxisId, Rational)>|
        #[trigger] axes_fit(identity, kind, coefficients) && annihilates_internal(identity, coefficients) implies exists|
            weights: Seq<real>,
        |
            #![trigger weights.len()]
            weights.len() == basis.len() && forall|axis: Seq<char>| #[trigger] sum_for(coefficients, axis) == basis_combination(
                basis,
                weights,
                axis,
                basis.len() as int,
            ) by {
        assert forall|q: int| 0 <= q < rows.len() && (#[trigger] rows[q]).1@ != kind@ implies sum_for(coefficients, rows[q].0@)
            == 0real by {
            if exists|p: int| 0 <= p < rows.len() && (#[trigger] rows[p]).0@ == rows[q].0@ && rows[p].1@ == kind@ {
                let p = choose|p: int| 0 <= p < rows.len() && (#[trigger] rows[p]).0@ == rows[q].0@ && rows[p].1@ == kind@;
                crate::table::lemma_unique_position(rows, p, q);
            }
            lemma_fit_off_kind(rows, kind, coefficients, rows[q].0@);
        }
        let y = Seq::new(width as nat, |a: int| sum_for(coefficients, sorted[a]@));
        let transitions = crate::linear::transition_rows(matrix);
        assert forall|t: int| 0 <= t < transitions.len() implies #[trigger] crate::linear::dot(transitions[t], y, width) == 0real by {
            let c = flows[t] as int;
            assert forall|j: int| 0 <= j < entries.len() implies 0 <= t < (#[trigger] entries[j])@.len() && entries[j]@[t]@
                == internal.entry(positions[j] as int, c) by {
                assert(entries[j]@[t]@ == internal.entry(positions[j] as int, flows[t] as int));
            }
            assert forall|a: int| 0 <= a < width implies #[trigger] y[a] == sum_for(coefficients, sorted[a]@) by {}
            lemma_kind_column(internal, kind, positions, axes, entries, t, c, matrix, y, coefficients);
            assert(rowwise(internal, coefficients, c, rows.len() as int) == 0real);
        }
        assert(crate::linear::solves(transitions, y, width));
        let weights = choose|weights: Seq<real>|
            #![trigger weights.len()]
            weights.len() == vectors.len() && forall|c: int|
                0 <= c < width ==> y[c] == #[trigger] crate::linear::combination(vectors, weights, c, vectors.len() as int);
        assert forall|axis: Seq<char>| #[trigger] sum_for(coefficients, axis) == basis_combination(basis, weights, axis, count) by {
            if exists|a: int| 0 <= a < width && sorted[a]@ == axis {
                let a = choose|a: int| 0 <= a < width && sorted[a]@ == axis;
                assert forall|b: int| 0 <= b < count implies #[trigger] basis[b].law_spec().coefficient_of(axis) == vectors[b][a] by {
                    assert(vectors[b] == crate::linear::law_coefficients(matrix, laws[b]));
                }
                lemma_basis_matches(basis, weights, axis, vectors, a, count);
                assert(y[a] == crate::linear::combination(vectors, weights, a, count));
            } else {
                assert forall|b: int| 0 <= b < count implies #[trigger] basis[b].law_spec().coefficient_of(axis) == 0real by {
                    assert(crate::linear::supported_on(matrix, laws[b]));
                    if laws[b].coefficient_of(axis) != 0real {
                        let a = choose|a: int| 0 <= a < sorted.len() && sorted[a]@ == axis;
                    }
                }
                lemma_basis_zero(basis, weights, axis, count);
                if exists|q: int| 0 <= q < rows.len() && (#[trigger] rows[q]).0@ == axis && rows[q].1@ == kind@ {
                    let q = choose|q: int| 0 <= q < rows.len() && (#[trigger] rows[q]).0@ == axis && rows[q].1@ == kind@;
                    assert(exists|a: int| 0 <= a < width && sorted[a]@ == rows[q].0@);
                }
                lemma_fit_off_kind(rows, kind, coefficients, axis);
            }
        }
        assert(weights.len() == basis.len());
    }
    assert forall|weights: Seq<real>|
        weights.len() == basis.len() && (forall|axis: Seq<char>| #[trigger] basis_combination(basis, weights, axis, basis.len() as int)
            == 0real) implies forall|b: int| 0 <= b < weights.len() ==> #[trigger] weights[b] == 0real by {
        assert forall|a: int| 0 <= a < width implies #[trigger] crate::linear::combination(vectors, weights, a, vectors.len() as int)
            == 0real by {
            let axis = sorted[a]@;
            assert forall|b: int| 0 <= b < count implies #[trigger] basis[b].law_spec().coefficient_of(axis) == vectors[b][a] by {
                assert(vectors[b] == crate::linear::law_coefficients(matrix, laws[b]));
            }
            lemma_basis_matches(basis, weights, axis, vectors, a, count);
            assert(basis_combination(basis, weights, axis, count) == 0real);
        }
    }
}

/// Certifies each candidate form in turn, stopping at the first refusal.
fn certify_all(carrier: &StockFlowCarrier, kind: &KindId, candidates: &Vec<Vec<(AxisId, Rational)>>) -> (result: Result<
    Vec<CheckedNullspace>,
    StockFlowError,
>)
    ensures
        match result {
            Ok(basis) => {
                &&& basis@.len() == candidates@.len()
                &&& forall|b: int| 0 <= b < basis@.len() ==> basis_member(carrier.identity_spec(), *kind, #[trigger] basis@[b])
                &&& forall|b: int, k: Seq<char>|
                    0 <= b < basis@.len() ==> #[trigger] basis@[b].law_spec().coefficient_of(k) == sum_for(candidates@[b]@, k)
            },
            Err(error) => !(error is UnknownKind),
        },
        (forall|n: int| 0 <= n < candidates@.len() ==> certifiable(carrier.identity_spec(), *kind, #[trigger] candidates@[n]@))
            ==> result is Ok,
{
    let mut basis: Vec<CheckedNullspace> = Vec::new();
    let mut n: usize = 0;
    while n < candidates.len()
        invariant
            n <= candidates@.len(),
            basis@.len() == n,
            forall|b: int| 0 <= b < n ==> basis_member(carrier.identity_spec(), *kind, #[trigger] basis@[b]),
            forall|b: int, k: Seq<char>|
                0 <= b < n ==> #[trigger] basis@[b].law_spec().coefficient_of(k) == sum_for(candidates@[b]@, k),
        decreases candidates.len() - n,
    {
        let mut coefficients: Vec<(AxisId, Rational)> = Vec::new();
        let mut i: usize = 0;
        while i < candidates[n].len()
            invariant
                n < candidates@.len(),
                i <= candidates@[n as int]@.len(),
                same_terms(coefficients@, candidates@[n as int]@.take(i as int)),
            decreases candidates[n as int]@.len() - i,
        {
            coefficients.push((candidates[n][i].0.clone(), candidates[n][i].1.clone()));
            i += 1;
        }
        proof {
            assert(candidates@[n as int]@.take(i as int) =~= candidates@[n as int]@);
            if forall|m: int| 0 <= m < candidates@.len() ==> certifiable(carrier.identity_spec(), *kind, #[trigger] candidates@[m]@) {
                assert(certifiable(carrier.identity_spec(), *kind, candidates@[n as int]@));
                lemma_same_certifiable(carrier.identity_spec(), *kind, coefficients@, candidates@[n as int]@);
            }
        }
        let certificate = match certify_nullspace(carrier, kind.clone(), coefficients) {
            Ok(certificate) => certificate,
            Err(error) => {
                proof {
                    if error is UnknownKind {
                        let identity = carrier.identity_spec();
                        if !axes_fit(identity, *kind, coefficients@) {
                            let i = choose|i: int|
                                0 <= i < coefficients@.len() && (forall|a: int| 0 <= a < i ==> holds(identity.internal_spec().row_table(), (#[trigger] coefficients@[a]).0@) && value_of(
                                    identity.internal_spec().row_table(),
                                    coefficients@[a].0@,
                                )@ == kind@) && #[trigger] row_misfit(identity.internal_spec().row_table(), *kind, coefficients@[i].0@, error);
                        }
                    }
                }
                return Err(error);
            },
        };
        proof {
            assert forall|k: Seq<char>| #[trigger] certificate.law_spec().coefficient_of(k) == sum_for(candidates@[n as int]@, k) by {
                lemma_same_totals(coefficients@, candidates@[n as int]@, k);
            }
        }
        basis.push(certificate);
        proof {
            assert forall|b: int, k: Seq<char>| 0 <= b < n + 1 implies #[trigger] basis@[b].law_spec().coefficient_of(k) == sum_for(
                candidates@[b]@,
                k,
            ) by {
                if b == n {
                    assert(basis@[b] == certificate);
                }
            }
        }
        n += 1;
    }
    Ok(basis)
}

/// Derives and seals a deterministic exact basis of the left nullspace of
/// the carrier's internal matrix, restricted to the stock axes and flows of
/// one kind.
///
/// A kind with no flow gives one unit form per stock axis; otherwise the
/// forms are those of [`derive_left_nullspace`](crate::linear::derive_left_nullspace)
/// on the kind's submatrix. Each form is certified against the whole carrier.
pub fn derive_nullspace_basis(carrier: &StockFlowCarrier, kind: KindId) -> (result: Result<
    Vec<CheckedNullspace>,
    StockFlowError,
>)
    ensures
        !kind_has_axis(carrier.identity_spec(), kind) <==> (result matches Err(StockFlowError::UnknownKind(k)) && k == kind),
        kind_has_axis(carrier.identity_spec(), kind) ==> result is Ok,
        match result {
            Ok(basis) => {
                &&& forall|b: int| 0 <= b < basis@.len() ==> basis_member(carrier.identity_spec(), kind, #[trigger] basis@[b])
                &&& spans_kind(carrier.identity_spec(), kind, basis@)
                &&& independent_basis(basis@)
            },
            Err(_) => true,
        },
{
    let internal = carrier.internal_effects();
    internal.check_total();
    carrier.check_compiled();
    let ghost identity = carrier.identity_spec();
    proof {
        assert forall|q: int, c: int|
            0 <= q < internal.row_table().len() && 0 <= c < internal.column_table().len() && #[trigger] internal.entry(q, c)
                != 0real implies internal.row_table()[q].1@ == internal.column_table()[c].1@ by {
            crate::witness::lemma_kinds_apart(*carrier, carrier.stock_declarations(), carrier.ledger_declarations(), q, c);
        }
        assert(kinds_apart(identity.internal_spec()));
    }
    let rows = internal.row_slice();
    let columns = internal.column_slice();
    let mut axes: Vec<AxisId> = Vec::new();
    let mut positions: Vec<usize> = Vec::new();
    let mut r: usize = 0;
    while r < rows.len()
        invariant
            rows@ == internal.row_table(),
            r <= rows@.len(),
            axes@.len() == positions@.len(),
            forall|j: int|
                0 <= j < positions@.len() ==> (#[trigger] positions@[j]) < r && axes@[j] == rows@[positions@[j] as int].0
                    && rows@[positions@[j] as int].1@ == kind@,
            forall|j: int, i: int| 0 <= j < i < positions@.len() ==> #[trigger] positions@[j] < #[trigger] positions@[i],
            forall|q: int|
                0 <= q < r && (#[trigger] rows@[q]).1@ == kind@ ==> exists|j: int| 0 <= j < positions@.len() && #[trigger] positions@[j] == q,
        decreases rows.len() - r,
    {
        let ghost earlier = positions@;
        if rows[r].1.same(&kind) {
            axes.push(rows[r].0.clone());
            positions.push(r);
        }
        proof {
            assert forall|q: int| 0 <= q <= r && (#[trigger] rows@[q]).1@ == kind@ implies exists|j: int|
                0 <= j < positions@.len() && #[trigger] positions@[j] == q by {
                if q == r {
                    let last = positions@.len() - 1;
                    assert(positions@[last] == r);
                } else {
                    let j = choose|j: int| 0 <= j < earlier.len() && #[trigger] earlier[j] == q;
                    assert(positions@[j] == earlier[j]);
                }
            }
        }
        r += 1;
    }
    if axes.len() == 0 {
        proof {
            assert forall|q: int| 0 <= q < rows@.len() implies (#[trigger] rows@[q]).1@ != kind@ by {
                if rows@[q].1@ == kind@ {
                    let j = choose|j: int| 0 <= j < positions@.len() && #[trigger] positions@[j] == q;
                }
            }
        }
        return Err(StockFlowError::UnknownKind(kind));
    }
    proof {
        assert(positions@.len() > 0);
        let p = positions@[0] as int;
        assert(rows@[p].1@ == kind@);
        assert(kind_has_axis(carrier.identity_spec(), kind));
    }
    let mut flows: Vec<usize> = Vec::new();
    let mut c: usize = 0;
    while c < columns.len()
        invariant
            columns@ == internal.column_table(),
            c <= columns@.len(),
            forall|j: int| 0 <= j < flows@.len() ==> (#[trigger] flows@[j]) < columns@.len() && columns@[flows@[j] as int].1@ == kind@,
            forall|d: int|
                0 <= d < c && (#[trigger] columns@[d]).1@ == kind@ ==> exists|j: int| 0 <= j < flows@.len() && #[trigger] flows@[j] == d,
        decreases columns.len() - c,
    {
        let ghost earlier = flows@;
        if columns[c].1.same(&kind) {
            flows.push(c);
        }
        proof {
            assert forall|d: int| 0 <= d <= c && (#[trigger] columns@[d]).1@ == kind@ implies exists|j: int|
                0 <= j < flows@.len() && #[trigger] flows@[j] == d by {
                if d == c {
                    let last = flows@.len() - 1;
                    assert(flows@[last] == c);
                } else {
                    let j = choose|j: int| 0 <= j < earlier.len() && #[trigger] earlier[j] == d;
                    assert(flows@[j] == earlier[j]);
                }
            }
        }
        c += 1;
    }
    let mut candidates: Vec<Vec<(AxisId, Rational)>> = Vec::new();
    if flows.len() == 0 {
        let mut a: usize = 0;
        while a < axes.len()
            invariant
                rows@ == internal.row_table(),
                columns@ == internal.column_table(),
                identity == carrier.identity_spec(),
                *internal == identity.internal_spec(),
                keys_sorted(internal.row_table()),
                kinds_apart(identity.internal_spec()),
                flows@.len() == 0,
                forall|d: int|
                    0 <= d < columns@.len() && (#[trigger] columns@[d]).1@ == kind@ ==> exists|j: int|
                        0 <= j < flows@.len() && #[trigger] flows@[j] == d,
                axes@.len() == positions@.len(),
                forall|j: int|
                    0 <= j < positions@.len() ==> (#[trigger] positions@[j]) < rows@.len() && axes@[j] == rows@[positions@[j] as int].0
                        && rows@[positions@[j] as int].1@ == kind@,
                forall|j: int, i: int| 0 <= j < i < positions@.len() ==> #[trigger] positions@[j] < #[trigger] positions@[i],
                forall|q: int|
                    0 <= q < rows@.len() && (#[trigger] rows@[q]).1@ == kind@ ==> exists|j: int|
                        0 <= j < positions@.len() && #[trigger] positions@[j] == q,
                a <= axes@.len(),
                candidates@.len() == a,
                forall|n: int| 0 <= n < a ==> certifiable(identity, kind, #[trigger] candidates@[n]@),
                forall|n: int, k: Seq<char>|
                    0 <= n < a ==> #[trigger] sum_for(candidates@[n]@, k) == if k == axes@[n]@ {
                        1real
                    } else {
                        0real
                    },
            decreases axes.len() - a,
        {
            let mut unit: Vec<(AxisId, Rational)> = Vec::new();
            unit.push((axes[a].clone(), Rational::one()));
            proof {
                reveal_with_fuel(sum_for, 2);
                let form = unit@;
                let p = positions@[a as int] as int;
                let key = rows@[p].0@;
                assert(form.len() == 1 && form[0].0@ == key && form[0].1@ == 1real);
                crate::table::lemma_position(rows@, p);
                assert(form.drop_last().len() == 0);
                assert(sum_for(form, key) == 1real);
                assert forall|q: int| 0 <= q < rows@.len() && (#[trigger] rows@[q]).1@ != kind@ implies sum_for(
                    form,
                    rows@[q].0@,
                ) == 0real by {
                    if rows@[q].0@ == key {
                        crate::table::lemma_unique_position(rows@, q, p);
                    }
                }
                assert forall|d: int| 0 <= d < columns@.len() && (#[trigger] columns@[d]).1@ == kind@ implies rowwise(
                    identity.internal_spec(),
                    form,
                    d,
                    rows@.len() as int,
                ) == 0real by {
                    let j = choose|j: int| 0 <= j < flows@.len() && #[trigger] flows@[j] == d;
                }
                lemma_separated_certifiable(identity, kind, form);
                assert forall|k: Seq<char>| #[trigger] sum_for(form, k) == if k == axes@[a as int]@ {
                    1real
                } else {
                    0real
                } by {}
            }
            candidates.push(unit);
            a += 1;
        }
        let result = certify_all(carrier, &kind, &candidates);
        proof {
            if let Ok(basis) = &result {
                assert forall|b: int, k: Seq<char>| 0 <= b < basis@.len() implies #[trigger] basis@[b].law_spec().coefficient_of(k)
                    == if k == axes@[b]@ {
                    1real
                } else {
                    0real
                } by {
                    assert(sum_for(candidates@[b]@, k) == if k == axes@[b]@ {
                        1real
                    } else {
                        0real
                    });
                }
                lemma_unit_basis(identity, kind, positions@, axes@, basis@);
            }
        }
        result
    } else {
        let mut entries: Vec<Vec<Rational>> = Vec::new();
        let mut a: usize = 0;
        while a < positions.len()
            invariant
                rows@ == internal.row_table(),
                columns@ == internal.column_table(),
                a <= positions@.len(),
                entries@.len() == a,
                forall|j: int| 0 <= j < positions@.len() ==> (#[trigger] positions@[j]) < rows@.len(),
                forall|j: int| 0 <= j < flows@.len() ==> (#[trigger] flows@[j]) < columns@.len(),
                forall|j: int| 0 <= j < a ==> (#[trigger] entries@[j])@.len() == flows@.len(),
                forall|j: int, f: int|
                    #![trigger entries@[j]@[f]]
                    0 <= j < a && 0 <= f < flows@.len() ==> entries@[j]@[f]@ == internal.entry(positions@[j] as int, flows@[f] as int),
            decreases positions.len() - a,
        {
            let mut row: Vec<Rational> = Vec::new();
            let mut f: usize = 0;
            while f < flows.len()
                invariant
                    rows@ == internal.row_table(),
                    columns@ == internal.column_table(),
                    a < positions@.len(),
                    f <= flows@.len(),
                    row@.len() == f,
                    forall|j: int| 0 <= j < positions@.len() ==> (#[trigger] positions@[j]) < rows@.len(),
                    forall|j: int| 0 <= j < flows@.len() ==> (#[trigger] flows@[j]) < columns@.len(),
                    forall|g: int| 0 <= g < f ==> (#[trigger] row@[g])@ == internal.entry(positions@[a as int] as int, flows@[g] as int),
                decreases flows.len() - f,
            {
                row.push(internal.entry_at(positions[a], flows[f]).clone());
                f += 1;
            }
            entries.push(row);
            proof {
                assert(entries@[a as int] == row);
            }
            a += 1;
        }
        let ghost sub_axes = axes@;
        let ghost sub_entries = entries@;
        proof {
            assert forall|j: int, i: int| 0 <= j < i < sub_axes.len() implies (#[trigger] sub_axes[j])@ != (#[trigger] sub_axes[i])@ by {
                assert(positions@[j] < positions@[i]);
                if sub_axes[j]@ == sub_axes[i]@ {
                    crate::table::lemma_unique_position(rows@, positions@[j] as int, positions@[i] as int);
                }
            }
            assert(crate::linear::distinct_axis_prefix(sub_axes, sub_axes.len() as int));
            assert forall|j: int| 0 <= j < sub_entries.len() implies (#[trigger] sub_entries[j])@.len() == sub_entries[0]@.len() by {
                assert(sub_entries[j]@.len() == flows@.len());
                assert(sub_entries[0]@.len() == flows@.len());
            }
            assert(sub_entries[0]@.len() == flows@.len());
        }
        let matrix = match TransitionMatrix::new(axes, entries) {
            Ok(matrix) => matrix,
            Err(error) => {
                return Err(StockFlowError::Matrix(error));
            },
        };
        matrix.check_shape();
        let laws = match derive_left_nullspace(&matrix, kind.clone(), NullspaceSource::Incidence) {
            Ok(laws) => laws,
            Err(error) => {
                return Err(StockFlowError::BalanceLaw(error));
            },
        };
        let mut l: usize = 0;
        while l < laws.len()
            invariant
                rows@ == internal.row_table(),
                columns@ == internal.column_table(),
                identity == carrier.identity_spec(),
                *internal == identity.internal_spec(),
                keys_sorted(internal.row_table()),
                kinds_apart(identity.internal_spec()),
                sub_axes.len() == positions@.len(),
                sub_entries.len() == sub_axes.len(),
                forall|j: int|
                    0 <= j < positions@.len() ==> (#[trigger] positions@[j]) < rows@.len() && sub_axes[j] == rows@[positions@[j] as int].0
                        && rows@[positions@[j] as int].1@ == kind@,
                forall|j: int, i: int| 0 <= j < i < positions@.len() ==> #[trigger] positions@[j] < #[trigger] positions@[i],
                forall|q: int|
                    0 <= q < rows@.len() && (#[trigger] rows@[q]).1@ == kind@ ==> exists|j: int|
                        0 <= j < positions@.len() && #[trigger] positions@[j] == q,
                forall|j: int| 0 <= j < flows@.len() ==> (#[trigger] flows@[j]) < columns@.len(),
                forall|d: int|
                    0 <= d < columns@.len() && (#[trigger] columns@[d]).1@ == kind@ ==> exists|j: int|
                        0 <= j < flows@.len() && #[trigger] flows@[j] == d,
                forall|j: int| 0 <= j < sub_entries.len() ==> (#[trigger] sub_entries[j])@.len() == flows@.len(),
                forall|j: int, f: int|
                    #![trigger sub_entries[j]@[f]]
                    0 <= j < sub_entries.len() && 0 <= f < flows@.len() ==> sub_entries[j]@[f]@ == internal.entry(
                        positions@[j] as int,
                        flows@[f] as int,
                    ),
                matrix.shaped(),
                matrix.axis_ids().len() == sub_axes.len(),
                matrix.column_count() == flows@.len(),
                crate::linear::rows_placed(matrix.axis_ids(), matrix.rows(), sub_axes, crate::linear::row_values(sub_entries)),
                forall|m: int|
                    0 <= m < laws@.len() ==> crate::linear::annihilates(matrix, #[trigger] laws@[m]) && crate::linear::supported_on(
                        matrix,
                        laws@[m],
                    ),
                crate::linear::spans(
                    crate::linear::transition_rows(matrix),
                    crate::linear::law_vectors(matrix, laws@),
                    sub_axes.len() as int,
                ),
                crate::linear::independent(crate::linear::law_vectors(matrix, laws@), sub_axes.len() as int),
                l <= laws@.len(),
                candidates@.len() == l,
                forall|n: int| 0 <= n < l ==> certifiable(identity, kind, #[trigger] candidates@[n]@),
                forall|n: int, k: Seq<char>| 0 <= n < l ==> #[trigger] sum_for(candidates@[n]@, k) == laws@[n].coefficient_of(k),
            decreases laws.len() - l,
        {
            let terms = laws[l].coefficients();
            let mut copy: Vec<(AxisId, Rational)> = Vec::new();
            let mut i: usize = 0;
            while i < terms.len()
                invariant
                    i <= terms@.len(),
                    same_terms(copy@, terms@.take(i as int)),
                decreases terms.len() - i,
            {
                copy.push((terms[i].0.clone(), terms[i].1.clone()));
                i += 1;
            }
            proof {
                assert(terms@.take(i as int) =~= terms@);
                lemma_law_certifiable(
                    identity,
                    kind,
                    positions@,
                    sub_axes,
                    sub_entries,
                    flows@,
                    matrix,
                    laws@[l as int],
                    copy@,
                );
                assert forall|k: Seq<char>| #[trigger] sum_for(copy@, k) == laws@[l as int].coefficient_of(k) by {
                    lemma_same_totals(copy@, terms@, k);
                }
            }
            candidates.push(copy);
            l += 1;
        }
        let result = certify_all(carrier, &kind, &candidates);
        proof {
            if let Ok(basis) = &result {
                assert forall|b: int, k: Seq<char>| 0 <= b < basis@.len() implies #[trigger] basis@[b].law_spec().coefficient_of(k)
                    == laws@[b].coefficient_of(k) by {
                    assert(sum_for(candidates@[b]@, k) == laws@[b].coefficient_of(k));
                }
                lemma_submatrix_basis(identity, kind, positions@, sub_axes, sub_entries, flows@, matrix, laws@, basis@);
            }
        }
        result
    }
}


/// Scans the ports of one selected ledger from position `p`: each port must
/// not be covered yet, and every port of the ledger must carry the same
/// certificate coefficient. Gives the ports covered afterwards and the
/// ledger's common coefficient, if it has a port.
pub open spec fn port_scan(
    table: Seq<(BoundaryId, Rational)>,
    ledger: LedgerId,
    ports: Seq<(BoundaryId, ())>,
    p: int,
    covered: Set<Seq<char>>,
    coefficient: Option<real>,
) -> Result<(Set<Seq<char>>, Option<real>), StockFlowError>
    decreases ports.len() - p,
{
    if p >= ports.len() {
        Ok((covered, coefficient))
    } else {
        let port = ports[p].0;
        let value = value_of(table, port@)@;
        if covered.contains(port@) {
            Err(StockFlowError::DuplicateBoundaryCoverage(port))
        } else {
            match coefficient {
                Some(current) => if current != value {
                    Err(StockFlowError::IncompatibleLedgerCoefficient(ledger))
                } else {
                    port_scan(table, ledger, ports, p + 1, covered.insert(port@), coefficient)
                },
                None => port_scan(table, ledger, ports, p + 1, covered.insert(port@), Some(value)),
            }
        }
    }
}

/// Scans the selected ledgers from position `n`, collecting the covered
/// ports and, for each ledger with a port, its axis with the negated common
/// coefficient.
pub open spec fn ledger_scan(
    identity: CarrierIdentity,
    table: Seq<(BoundaryId, Rational)>,
    selected: Seq<LedgerId>,
    n: int,
    covered: Set<Seq<char>>,
    extras: Seq<(Seq<char>, real)>,
) -> Result<(Set<Seq<char>>, Seq<(Seq<char>, real)>), StockFlowError>
    decreases selected.len() - n,
{
    if n >= selected.len() {
        Ok((covered, extras))
    } else {
        let id = selected[n];
        let ledgers = identity.ledger_table();
        if !holds(ledgers, id@) {
            Err(StockFlowError::UnknownLedger(id))
        } else {
            let ledger = value_of(ledgers, id@);
            match port_scan(table, id, ledger.port_table(), 0, covered, None) {
                Err(error) => Err(error),
                Ok((now, coefficient)) => ledger_scan(
                    identity,
                    table,
                    selected,
                    n + 1,
                    now,
                    match coefficient {
                        Some(value) => extras.push((ledger.axis_spec()@, -value)),
                        None => extras,
                    },
                ),
            }
        }
    }
}

/// The total ledger term of `axis`.
pub open spec fn ledger_sum(extras: Seq<(Seq<char>, real)>, axis: Seq<char>) -> real
    decreases extras.len(),
{
    if extras.len() == 0 {
        0real
    } else {
        ledger_sum(extras.drop_last(), axis) + if extras.last().0 == axis {
            extras.last().1
        } else {
            0real
        }
    }
}

/// Whether boundary entry `c` has a nonzero coefficient no selected ledger covers.
pub open spec fn uncovered_at(table: Seq<(BoundaryId, Rational)>, covered: Set<Seq<char>>, c: int) -> bool {
    table[c].1@ != 0real && !covered.contains(table[c].0@)
}

/// The exact value an optional coefficient holds.
pub open spec fn optional_value(value: Option<Rational>) -> Option<real> {
    match value {
        Some(v) => Some(v@),
        None => None,
    }
}

/// The identifier texts of the covered ports.
pub open spec fn cover_set(covered: Seq<BoundaryId>) -> Set<Seq<char>> {
    Set::new(|k: Seq<char>| exists|i: int| 0 <= i < covered.len() && (#[trigger] covered[i])@ == k)
}

/// Covering one more port adds its text.
proof fn lemma_cover_push(covered: Seq<BoundaryId>, port: BoundaryId)
    ensures
        cover_set(covered.push(port)) == cover_set(covered).insert(port@),
{
    let next = covered.push(port);
    assert forall|k: Seq<char>| cover_set(next).contains(k) implies cover_set(covered).insert(port@).contains(k) by {
        let i = choose|i: int| 0 <= i < next.len() && (#[trigger] next[i])@ == k;
        if i < covered.len() {
            assert(covered[i] == next[i]);
        }
    }
    assert forall|k: Seq<char>| cover_set(covered).insert(port@).contains(k) implies cover_set(next).contains(k) by {
        if k == port@ {
            assert(next[covered.len() as int]@ == k);
        } else {
            let i = choose|i: int| 0 <= i < covered.len() && (#[trigger] covered[i])@ == k;
            assert(next[i] == covered[i]);
        }
    }
    assert(cover_set(next) =~= cover_set(covered).insert(port@));
}

/// Whether `port` is among the covered ports.
fn covers(covered: &Vec<BoundaryId>, port: &BoundaryId) -> (result: bool)
    ensures
        result <==> cover_set(covered@).contains(port@),
{
    let mut i: usize = 0;
    while i < covered.len()
        invariant
            i <= covered@.len(),
            forall|j: int| 0 <= j < i ==> (#[trigger] covered@[j])@ != port@,
        decreases covered.len() - i,
    {
        if covered[i].same(port) {
            assert(covered@[i as int]@ == port@);
            return true;
        }
        i += 1;
    }
    false
}

/// Covers the ports of one selected ledger, as [`port_scan`] describes, and
/// gives the ledger's common coefficient.
fn scan_ports(
    table: &[(BoundaryId, Rational)],
    id: &LedgerId,
    ledger: &LedgerIdentity,
    covered: &mut Vec<BoundaryId>,
) -> (result: Result<Option<Rational>, StockFlowError>)
    requires
        keys_sorted(table@),
        forall|p: int| 0 <= p < ledger.port_table().len() ==> holds(table@, (#[trigger] ledger.port_table()[p]).0@),
    ensures
        port_scan(table@, *id, ledger.port_table(), 0, cover_set(old(covered)@), None) == match result {
            Ok(value) => Ok((cover_set(final(covered)@), optional_value(value))),
            Err(error) => Err::<(Set<Seq<char>>, Option<real>), StockFlowError>(error),
        },
{
    let ports = ledger.boundaries();
    let mut current: Option<Rational> = None;
    let mut p: usize = 0;
    while p < ports.len()
        invariant
            keys_sorted(table@),
            forall|q: int| 0 <= q < ledger.port_table().len() ==> holds(table@, (#[trigger] ledger.port_table()[q]).0@),
            p <= ports@.len(),
            ports@.len() == ledger.port_table().len(),
            forall|j: int| 0 <= j < ports@.len() ==> #[trigger] ports@[j] == ledger.port_table()[j].0,
            port_scan(table@, *id, ledger.port_table(), 0, cover_set(old(covered)@), None) == port_scan(
                table@,
                *id,
                ledger.port_table(),
                p as int,
                cover_set(covered@),
                optional_value(current),
            ),
        decreases ports.len() - p,
    {
        let port = &ports[p];
        if covers(covered, port) {
            return Err(StockFlowError::DuplicateBoundaryCoverage(port.clone()));
        }
        proof {
            assert(holds(table@, ledger.port_table()[p as int].0@));
        }
        let index = match crate::table::find_key(table, port.as_str()) {
            Some(index) => index,
            None => {
                return Err(StockFlowError::UncoveredBoundary(port.clone()));
            },
        };
        let value = &table[index].1;
        let ghost before = covered@;
        let copy = port.clone();
        covered.push(copy);
        proof {
            lemma_cover_push(before, copy);
        }
        match &current {
            Some(existing) => {
                if !existing.eq(value) {
                    return Err(StockFlowError::IncompatibleLedgerCoefficient(id.clone()));
                }
            },
            None => {
                current = Some(value.clone());
            },
        }
        p += 1;
    }
    Ok(current)
}

/// Covers the ports of each selected ledger in turn, as [`ledger_scan`]
/// describes, appending each ledger's term to `coefficients`.
#[verifier::loop_isolation(false)]
fn scan_ledgers(
    table: &[(BoundaryId, Rational)],
    carrier: &StockFlowCarrier,
    selected: &Vec<LedgerId>,
    coefficients: &mut Vec<(AxisId, Rational)>,
) -> (result: Result<Vec<BoundaryId>, StockFlowError>)
    requires
        keys_sorted(table@),
        forall|k: Seq<char>| #[trigger] holds(carrier.identity_spec().boundary_spec().column_table(), k) ==> holds(table@, k),
    ensures
        match result {
            Ok(covered) => ledger_scan(carrier.identity_spec(), table@, selected@, 0, Set::empty(), Seq::empty()) matches Ok(
                (now, extras),
            ) && now == cover_set(covered@) && forall|k: Seq<char>| #[trigger] sum_for(final(coefficients)@, k) == sum_for(
                old(coefficients)@,
                k,
            ) + ledger_sum(extras, k),
            Err(error) => ledger_scan(carrier.identity_spec(), table@, selected@, 0, Set::empty(), Seq::empty()) == Err::<
                (Set<Seq<char>>, Seq<(Seq<char>, real)>),
                StockFlowError,
            >(error),
        },
{
    let identity = carrier.identity();
    identity.check_ordered();
    let ghost start = ledger_scan(*identity, table@, selected@, 0, Set::empty(), Seq::empty());
    let ghost mut extras: Seq<(Seq<char>, real)> = Seq::empty();
    let mut covered: Vec<BoundaryId> = Vec::new();
    proof {
        assert(cover_set(covered@) =~= Set::<Seq<char>>::empty());
    }
    let n_total = selected.len();
    let mut n: usize = 0;
    while n < n_total
        invariant
            n <= selected@.len(),
            n_total == selected@.len(),
            start == ledger_scan(*identity, table@, selected@, n as int, cover_set(covered@), extras),
            forall|k: Seq<char>| #[trigger] sum_for(coefficients@, k) == sum_for(old(coefficients)@, k) + ledger_sum(extras, k),
        decreases n_total - n,
    {
        let id = &selected[n];
        let ledger = match carrier.ledger(id) {
            Some(ledger) => ledger,
            None => {
                return Err(StockFlowError::UnknownLedger(id.clone()));
            },
        };
        proof {
            let ledgers = identity.ledger_table();
            let l = position(ledgers, id@);
            assert(ledgers[l].1 == *ledger);
            assert forall|p: int| 0 <= p < ledger.port_table().len() implies holds(table@, (#[trigger] ledger.port_table()[p]).0@) by {
                assert(holds(identity.boundary_spec().column_table(), ledgers[l].1.port_table()[p].0@));
            }
        }
        let current = scan_ports(table, id, ledger, &mut covered)?;
        match current {
            Some(value) => {
                let ghost before = coefficients@;
                coefficients.push((ledger.axis().clone(), value.neg()));
                proof {
                    let old_extras = extras;
                    extras = extras.push((ledger.axis_spec()@, -value@));
                    assert(coefficients@.drop_last() =~= before);
                    assert(extras.drop_last() =~= old_extras);
                    assert forall|k: Seq<char>| #[trigger] sum_for(coefficients@, k) == sum_for(old(coefficients)@, k) + ledger_sum(
                        extras,
                        k,
                    ) by {
                        assert(sum_for(coefficients@, k) == sum_for(before, k) + crate::entries::contribution(coefficients@.last(), k));
                    }
                }
            },
            None => {},
        }
        n += 1;
    }
    Ok(covered)
}

impl CheckedNullspace {
    /// Derives the graded invariant over stocks and selected ledgers that
    /// this certificate implies.
    ///
    /// Selected ledgers must cover every nonzero boundary coefficient exactly
    /// once, and every port grouped by one ledger must carry the same
    /// coefficient; the ledger's axis then enters the form with that
    /// coefficient negated.
    #[verifier::loop_isolation(false)]
    pub fn graded_invariant(&self, carrier: &StockFlowCarrier, selected: Vec<LedgerId>) -> (result: Result<
        GradedLaw,
        StockFlowError,
    >)
        ensures
            ({
                let identity = carrier.identity_spec();
                let table = self.boundary_table();
                let law = self.law_spec();
                if !identity_equivalent(self.carrier_spec(), identity) {
                    result matches Err(error) && error is CarrierMismatch
                } else {
                    match ledger_scan(identity, table, selected@, 0, Set::empty(), Seq::empty()) {
                        Err(error) => result matches Err(e) && e == error,
                        Ok((covered, extras)) => if exists|c: int| 0 <= c < table.len() && #[trigger] uncovered_at(table, covered, c) {
                            result matches Err(e) && exists|c: int|
                                0 <= c < table.len() && #[trigger] uncovered_at(table, covered, c) && (forall|d: int|
                                    0 <= d < c ==> !#[trigger] uncovered_at(table, covered, d)) && (e matches
                                    StockFlowError::UncoveredBoundary(b) && b == table[c].0)
                        } else {
                            match result {
                                Ok(graded) => {
                                    &&& graded.grade_spec() == Grade::Invariant
                                    &&& graded.form_spec().kind_spec() == law.kind_spec()
                                    &&& graded.form_spec().provenance_spec() == source_provenance(self.source_spec())
                                    &&& forall|k: Seq<char>| #[trigger] graded.form_spec().coefficient_of(k)
                                        == law.coefficient_of(k) + ledger_sum(extras, k)
                                },
                                Err(e) => {
                                    &&& e == StockFlowError::BalanceLaw(crate::law::BalanceLawError::Empty)
                                    &&& forall|k: Seq<char>| #[trigger] law.coefficient_of(k) + ledger_sum(extras, k) == 0real
                                },
                            }
                        },
                    }
                }
            }),
    {
        if !self.data.carrier.same_as(carrier.identity()) {
            return Err(StockFlowError::CarrierMismatch);
        }
        self.check_sealed();
        let table = self.data.boundary_coefficients.as_slice();
        proof {
            let identity = carrier.identity_spec();
            let columns = identity.boundary_spec().column_table();
            let own = self.carrier_spec().boundary_spec().column_table();
            assert forall|k: Seq<char>| #[trigger] holds(columns, k) implies holds(table@, k) by {
                let c = choose|c: int| 0 <= c < columns.len() && (#[trigger] columns[c]).0@ == k;
                assert(own[c].0@ == columns[c].0@);
                assert(table@[c].0 == own[c].0);
            }
        }
        let terms = self.data.law.coefficients();
        let mut coefficients: Vec<(AxisId, Rational)> = Vec::new();
        let mut i: usize = 0;
        while i < terms.len()
            invariant
                i <= terms@.len(),
                coefficients@.len() == i,
                forall|j: int| 0 <= j < i ==> (#[trigger] coefficients@[j]).0 == terms@[j].0 && coefficients@[j].1@ == terms@[j].1@,
            decreases terms.len() - i,
        {
            coefficients.push((terms[i].0.clone(), terms[i].1.clone()));
            i += 1;
        }
        proof {
            crate::entries::lemma_same_views_same_sums(coefficients@, terms@);
        }
        let covered = scan_ledgers(table, carrier, &selected, &mut coefficients)?;
        let mut c: usize = 0;
        while c < table.len()
            invariant
                c <= table@.len(),
                forall|d: int| 0 <= d < c ==> !#[trigger] uncovered_at(table@, cover_set(covered@), d),
            decreases table.len() - c,
        {
            if !table[c].1.is_zero() && !covers(&covered, &table[c].0) {
                proof {
                    let scanned = ledger_scan(carrier.identity_spec(), table@, selected@, 0, Set::empty(), Seq::empty());
                    assert(scanned->Ok_0.0 == cover_set(covered@));
                    assert(uncovered_at(table@, cover_set(covered@), c as int));
                }
                return Err(StockFlowError::UncoveredBoundary(table[c].0.clone()));
            }
            c += 1;
        }
        match BalanceLaw::new(self.data.law.kind().clone(), coefficients, self.data.source.provenance()) {
            Ok(law) => Ok(GradedLaw::from(law)),
            Err(error) => {
                proof {
                    let extras = ledger_scan(carrier.identity_spec(), table@, selected@, 0, Set::empty(), Seq::empty())->Ok_0.1;
                    assert forall|k: Seq<char>| #[trigger] self.law_spec().coefficient_of(k) + ledger_sum(extras, k) == 0real by {
                        assert(sum_for(coefficients@, k) == 0real);
                    }
                }
                Err(StockFlowError::BalanceLaw(error))
            },
        }
    }
}

} // verus!
