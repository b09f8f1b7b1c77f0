//! Laws that relate the carrier's transition equation to the open balances
//! its nullspace certificates authorize.
use crate::carrier::{identity_equivalent, identity_sound, CarrierIdentity, ExactAmounts, ExactEffectMatrix, Symbol};
use crate::carrier::StockFlowError;
use crate::certificate::{
    boundary_delta, certified, column_product, law_product, open_balance_outcome, open_balanced, weighted_delta, CheckedNullspace,
    OpenBalance, OpenBalanceVerdict,
};
use crate::evidence::{transition_outcome, TransitionEquation, TransitionVerdict};
use crate::record::TransitionTrace;
use crate::evidence::{balanced_row, weighted_columns};
use crate::ident::AxisId;
use crate::rational::Rational;
use crate::record::TransitionRecordData;
use crate::table::{holds, keys_sorted, lemma_unique_position, position};
use vstd::prelude::*;

verus! {

/// `g(i, 0) + ... + g(i, m - 1)`.
pub open spec fn row_total(g: spec_fn(int, int) -> real, i: int, m: int) -> real
    decreases m,
{
    if m <= 0 {
        0real
    } else {
        row_total(g, i, m - 1) + g(i, m - 1)
    }
}

/// `g(0, c) + ... + g(k - 1, c)`.
pub open spec fn column_total(g: spec_fn(int, int) -> real, c: int, k: int) -> real
    decreases k,
{
    if k <= 0 {
        0real
    } else {
        column_total(g, c, k - 1) + g(k - 1, c)
    }
}

/// The total of the first `k` rows of `g` over its first `m` columns.
pub open spec fn rows_total(g: spec_fn(int, int) -> real, k: int, m: int) -> real
    decreases k,
{
    if k <= 0 {
        0real
    } else {
        rows_total(g, k - 1, m) + row_total(g, k - 1, m)
    }
}

/// The total of the first `m` columns of `g` over its first `k` rows.
pub open spec fn columns_total(g: spec_fn(int, int) -> real, k: int, m: int) -> real
    decreases m,
{
    if m <= 0 {
        0real
    } else {
        columns_total(g, k, m - 1) + column_total(g, m - 1, k)
    }
}

/// Adding a row to every column adds its row total.
proof fn lemma_columns_step(g: spec_fn(int, int) -> real, k: int, m: int)
    requires
        k > 0,
    ensures
        columns_total(g, k, m) == columns_total(g, k - 1, m) + row_total(g, k - 1, m),
    decreases m,
{
    if m > 0 {
        lemma_columns_step(g, k, m - 1);
    }
}

/// A finite double sum may be taken row by row or column by column.
pub(crate) proof fn lemma_swap(g: spec_fn(int, int) -> real, k: int, m: int)
    ensures
        rows_total(g, k, m) == columns_total(g, k, m),
    decreases k,
{
    if k > 0 {
        lemma_swap(g, k - 1, m);
        lemma_columns_step(g, k, m);
    } else {
        lemma_zero_columns(g, k, m);
    }
}

/// With no rows, every column total is zero.
proof fn lemma_zero_columns(g: spec_fn(int, int) -> real, k: int, m: int)
    requires
        k <= 0,
    ensures
        columns_total(g, k, m) == 0real,
    decreases m,
{
    if m > 0 {
        lemma_zero_columns(g, k, m - 1);
    }
}

/// Columns that all total zero total zero.
proof fn lemma_null_columns(g: spec_fn(int, int) -> real, k: int, m: int)
    requires
        forall|c: int| 0 <= c < m ==> #[trigger] column_total(g, c, k) == 0real,
    ensures
        columns_total(g, k, m) == 0real,
    decreases m,
{
    if m > 0 {
        lemma_null_columns(g, k, m - 1);
    }
}

/// `w (x + y z) = w x + w (y z)`.
proof fn lemma_spread(w: real, x: real, y: real, z: real)
    ensures
        w * (x + y * z) == w * x + w * (y * z),
{
    assert(w * (x + y * z) == w * x + w * (y * z)) by (nonlinear_arith);
}

/// `(x + w e) f = x f + w (e f)`.
proof fn lemma_regroup(x: real, w: real, e: real, f: real)
    ensures
        (x + w * e) * f == x * f + w * (e * f),
{
    assert((x + w * e) * f == x * f + w * (e * f)) by (nonlinear_arith);
}

/// `w (x + y) = w x + w y`.
proof fn lemma_distribute(w: real, x: real, y: real)
    ensures
        w * (x + y) == w * x + w * y,
{
    assert(w * (x + y) == w * x + w * y) by (nonlinear_arith);
}

/// A weight times a matrix row's weighted columns is the row total of the
/// weighted products.
proof fn lemma_weighted_row<C: Symbol>(
    g: spec_fn(int, int) -> real,
    i: int,
    w: real,
    m: ExactEffectMatrix<C>,
    r: int,
    amounts: ExactAmounts<C>,
    count: int,
)
    requires
        forall|c: int| 0 <= c < count ==> #[trigger] g(i, c) == w * (m.entry(r, c) * amounts.amount_of(m.column_table()[c].0@)),
    ensures
        w * weighted_columns(m, r, amounts, count) == row_total(g, i, count),
    decreases count,
{
    if count > 0 {
        lemma_weighted_row(g, i, w, m, r, amounts, count - 1);
        lemma_spread(
            w,
            weighted_columns(m, r, amounts, count - 1),
            m.entry(r, count - 1),
            amounts.amount_of(m.column_table()[count - 1].0@),
        );
    } else {
        assert(w * 0real == 0real) by (nonlinear_arith);
    }
}

/// In matrices with the same named tables, the coefficient one names at a
/// row and column of the other is the other's entry there.
proof fn lemma_coefficient_alike<C: Symbol>(own: ExactEffectMatrix<C>, other: ExactEffectMatrix<C>, r: int, c: int)
    requires
        crate::carrier::matrix_equivalent(own, other),
        keys_sorted(other.row_table()),
        keys_sorted(other.column_table()),
        0 <= r < other.row_table().len(),
        0 <= c < other.column_table().len(),
    ensures
        own.coefficient_of(other.row_table()[r].0@, own.column_table()[c].0@) == other.entry(r, c),
{
    let axis = other.row_table()[r].0@;
    let column = own.column_table()[c].0@;
    assert(own.row_table()[r].0@ == axis);
    let p = position(own.row_table(), axis);
    assert(own.row_table()[p].0@ == axis);
    assert(other.row_table()[p].0@ == own.row_table()[p].0@);
    lemma_unique_position(other.row_table(), p, r);
    assert(own.column_table()[c].0@ == column);
    let q = position(own.column_table(), column);
    assert(own.column_table()[q].0@ == column);
    assert(other.column_table()[q].0@ == own.column_table()[q].0@);
    assert(other.column_table()[c].0@ == own.column_table()[c].0@);
    lemma_unique_position(other.column_table(), q, c);
}

/// The row of a record's identity that a law term names.
pub open spec fn term_row(identity: CarrierIdentity, terms: Seq<(AxisId, Rational)>, i: int) -> int {
    position(identity.internal_spec().row_table(), terms[i].0@)
}

/// A certificate form's product with a column, times the column's amount,
/// is the column total of the weighted products.
proof fn lemma_product_column<C: Symbol>(
    g: spec_fn(int, int) -> real,
    own: ExactEffectMatrix<C>,
    other: ExactEffectMatrix<C>,
    rows: Seq<int>,
    terms: Seq<(AxisId, Rational)>,
    amounts: ExactAmounts<C>,
    c: int,
    k: int,
)
    requires
        crate::carrier::matrix_equivalent(own, other),
        keys_sorted(other.row_table()),
        keys_sorted(other.column_table()),
        0 <= c < other.column_table().len(),
        0 <= k <= terms.len(),
        rows.len() == terms.len(),
        forall|i: int| 0 <= i < terms.len() ==> 0 <= #[trigger] rows[i] < other.row_table().len() && other.row_table()[rows[i]].0@
            == terms[i].0@,
        forall|i: int| 0 <= i < k ==> #[trigger] g(i, c) == terms[i].1@ * (other.entry(rows[i], c) * amounts.amount_of(
            other.column_table()[c].0@,
        )),
    ensures
        law_product(own, terms, c, k) * amounts.amount_of(other.column_table()[c].0@) == column_total(g, c, k),
    decreases k,
{
    let f = amounts.amount_of(other.column_table()[c].0@);
    if k > 0 {
        lemma_product_column(g, own, other, rows, terms, amounts, c, k - 1);
        let i = k - 1;
        lemma_coefficient_alike(own, other, rows[i], c);
        assert(own.coefficient_of(terms[i].0@, own.column_table()[c].0@) == other.entry(rows[i], c));
        lemma_regroup(law_product(own, terms, c, k - 1), terms[i].1@, other.entry(rows[i], c), f);
    } else {
        assert(0real * f == 0real) by (nonlinear_arith);
    }
}

/// A record's weighted stock change splits into weighted internal and
/// boundary products when every named row satisfies the transition equation.
proof fn lemma_delta_split(
    identity: CarrierIdentity,
    data: TransitionRecordData,
    terms: Seq<(AxisId, Rational)>,
    rows: Seq<int>,
    gi: spec_fn(int, int) -> real,
    gb: spec_fn(int, int) -> real,
    k: int,
)
    requires
        identity_sound(identity),
        0 <= k <= terms.len(),
        rows.len() == terms.len(),
        forall|i: int| 0 <= i < terms.len() ==> 0 <= #[trigger] rows[i] < identity.internal_spec().row_table().len()
            && identity.internal_spec().row_table()[rows[i]].0@ == terms[i].0@,
        forall|r: int| 0 <= r < identity.internal_spec().row_table().len() ==> #[trigger] balanced_row(identity, data, r),
        forall|i: int, c: int| #[trigger] gi(i, c) == terms[i].1@ * (identity.internal_spec().entry(rows[i], c)
            * data.settled_internal.amount_of(identity.internal_spec().column_table()[c].0@)),
        forall|i: int, d: int| #[trigger] gb(i, d) == terms[i].1@ * (identity.boundary_spec().entry(rows[i], d)
            * data.settled_boundary.amount_of(identity.boundary_spec().column_table()[d].0@)),
    ensures
        weighted_delta(terms, data, k) == rows_total(gi, k, identity.internal_spec().column_table().len() as int) + rows_total(
            gb,
            k,
            identity.boundary_spec().column_table().len() as int,
        ),
    decreases k,
{
    if k > 0 {
        lemma_delta_split(identity, data, terms, rows, gi, gb, k - 1);
        let i = k - 1;
        let r = rows[i];
        let internal = identity.internal_spec();
        let boundary = identity.boundary_spec();
        let mi = internal.column_table().len() as int;
        let mb = boundary.column_table().len() as int;
        assert(balanced_row(identity, data, r));
        let w = terms[i].1@;
        lemma_weighted_row(gi, i, w, internal, r, data.settled_internal, mi);
        lemma_weighted_row(gb, i, w, boundary, r, data.settled_boundary, mb);
        lemma_distribute(w, weighted_columns(internal, r, data.settled_internal, mi), weighted_columns(boundary, r, data.settled_boundary, mb));
    }
}

/// Boundary column totals of the weighted products are the certificate's
/// weighted boundary flow.
proof fn lemma_boundary_columns(
    identity: CarrierIdentity,
    certificate: CheckedNullspace,
    data: TransitionRecordData,
    rows: Seq<int>,
    gb: spec_fn(int, int) -> real,
    m: int,
)
    requires
        identity_sound(identity),
        certified(certificate.carrier_spec(), certificate.law_spec(), certificate.annihilation_table(), certificate.boundary_table()),
        identity_equivalent(certificate.carrier_spec(), identity),
        0 <= m <= identity.boundary_spec().column_table().len(),
        rows.len() == certificate.law_spec().terms().len(),
        forall|i: int| 0 <= i < rows.len() ==> 0 <= #[trigger] rows[i] < identity.internal_spec().row_table().len()
            && identity.internal_spec().row_table()[rows[i]].0@ == certificate.law_spec().terms()[i].0@,
        forall|i: int, d: int| #[trigger] gb(i, d) == certificate.law_spec().terms()[i].1@ * (identity.boundary_spec().entry(
            rows[i],
            d,
        ) * data.settled_boundary.amount_of(identity.boundary_spec().column_table()[d].0@)),
    ensures
        columns_total(gb, certificate.law_spec().terms().len() as int, m) == boundary_delta(certificate.boundary_table(), data, m),
    decreases m,
{
    if m > 0 {
        lemma_boundary_columns(identity, certificate, data, rows, gb, m - 1);
        let d = m - 1;
        let terms = certificate.law_spec().terms();
        let own = certificate.carrier_spec().boundary_spec();
        let other = identity.boundary_spec();
        let table = certificate.boundary_table();
        lemma_product_column(gb, own, other, rows, terms, data.settled_boundary, d, terms.len() as int);
        assert(table[d].0 == own.column_table()[d].0);
        assert(own.column_table()[d].0@ == other.column_table()[d].0@);
        assert(table[d].1@ == column_product(own, certificate.law_spec(), d));
    }
}

/// Open balance from the transition equation: a record whose every stock
/// row satisfies `after - before = S f + B b` also satisfies
/// `w^T (after - before) = (w^T B) b` for every form `w` certified against
/// its carrier, since `w^T S = 0`.
pub proof fn law_open_balance_from_transition(certificate: CheckedNullspace, identity: CarrierIdentity, data: TransitionRecordData)
    requires
        identity_sound(identity),
        certified(certificate.carrier_spec(), certificate.law_spec(), certificate.annihilation_table(), certificate.boundary_table()),
        identity_equivalent(certificate.carrier_spec(), identity),
        forall|r: int| 0 <= r < identity.internal_spec().row_table().len() ==> #[trigger] balanced_row(identity, data, r),
    ensures
        open_balanced(certificate, data),
{
    let law = certificate.law_spec();
    let terms = law.terms();
    let n = terms.len() as int;
    let internal = identity.internal_spec();
    let boundary = identity.boundary_spec();
    let own = certificate.carrier_spec().internal_spec();
    let mi = internal.column_table().len() as int;
    let mb = boundary.column_table().len() as int;
    let rows = Seq::new(terms.len(), |i: int| term_row(identity, terms, i));
    assert forall|i: int| 0 <= i < terms.len() implies 0 <= #[trigger] rows[i] < internal.row_table().len()
        && internal.row_table()[rows[i]].0@ == terms[i].0@ by {
        assert(holds(own.row_table(), terms[i].0@));
        let p = choose|p: int| 0 <= p < own.row_table().len() && (#[trigger] own.row_table()[p]).0@ == terms[i].0@;
        assert(internal.row_table()[p].0@ == own.row_table()[p].0@);
        assert(holds(internal.row_table(), terms[i].0@));
    }
    let gi = |i: int, c: int| terms[i].1@ * (internal.entry(rows[i], c) * data.settled_internal.amount_of(internal.column_table()[c].0@));
    let gb = |i: int, d: int| terms[i].1@ * (boundary.entry(rows[i], d) * data.settled_boundary.amount_of(boundary.column_table()[d].0@));
    lemma_delta_split(identity, data, terms, rows, gi, gb, n);
    lemma_swap(gi, n, mi);
    lemma_swap(gb, n, mb);
    assert forall|c: int| 0 <= c < mi implies #[trigger] column_total(gi, c, n) == 0real by {
        lemma_product_column(gi, own, internal, rows, terms, data.settled_internal, c, n);
        assert(certificate.annihilation_table()[c].1@ == 0real);
        assert(column_product(own, law, c) == 0real);
        assert(0real * data.settled_internal.amount_of(internal.column_table()[c].0@) == 0real) by (nonlinear_arith);
    }
    lemma_null_columns(gi, n, mi);
    lemma_boundary_columns(identity, certificate, data, rows, gb, mb);
}


/// A trace that satisfies the transition equation satisfies every open
/// balance derived from a certificate of its carrier: checking such a
/// balance on it gives positive evidence.
pub proof fn law_transition_implies_open_balance(
    equation: TransitionEquation,
    sentence: OpenBalance,
    trace: TransitionTrace,
    transition: TransitionVerdict,
    open: Result<OpenBalanceVerdict, StockFlowError>,
)
    requires
        identity_sound(trace.carrier_spec().identity_spec()),
        certified(
            sentence.certificate_spec().carrier_spec(),
            sentence.certificate_spec().law_spec(),
            sentence.certificate_spec().annihilation_table(),
            sentence.certificate_spec().boundary_table(),
        ),
        identity_equivalent(sentence.certificate_spec().carrier_spec(), trace.carrier_spec().identity_spec()),
        transition_outcome(equation, trace, Ok(transition)),
        transition is Satisfied,
        open_balance_outcome(sentence, trace, open),
    ensures
        open matches Ok(OpenBalanceVerdict::Satisfied(_)),
{
    let identity = trace.carrier_spec().identity_spec();
    let records = trace.record_seq();
    let certificate = sentence.certificate_spec();
    if let Ok(OpenBalanceVerdict::Violated(violation)) = open {
        let t = violation.transition as int;
        assert forall|r: int| 0 <= r < identity.internal_spec().row_table().len() implies #[trigger] balanced_row(
            identity,
            records[t].data_spec(),
            r,
        ) by {
            assert(crate::evidence::transitions_balanced(identity, records));
        }
        law_open_balance_from_transition(certificate, identity, records[t].data_spec());
    }
}

} // verus!
