//! Exact left-nullspace derivation for rational transition matrices.
use crate::exact::{copies, reals};
use crate::ident::{AxisId, KindId};
use crate::entries::{has_key, lemma_sum_for_absent, lemma_sum_for_sorted_at, strictly_sorted, sum_for};
use crate::law::{BalanceLaw, BalanceLawError, Provenance};
use crate::rational::{abs_int, gcd, int_value, integer_lcm, lemma_divides_transitive, lemma_gcd_divides, lemma_gcd_greatest, lemma_gcd_positive, lemma_multiple_divides, numerator_gcd, Rational};
use vstd::arithmetic::div_mod::lemma_fundamental_div_mod;
use crate::text::{lemma_text_lt_transitive, lemma_text_lt_trichotomy, lemma_text_lt_irreflexive, text_lt};
use vstd::prelude::*;

verus! {

/// Identifies which matrix interpretation produced a nullspace law.
#[derive(Clone, Copy, Debug, PartialEq, Eq, Structural)]
pub enum NullspaceSource {
    /// The matrix is a directed incidence matrix.
    Incidence,
    /// The matrix is a stoichiometric matrix.
    Stoichiometric,
}

/// The provenance recorded for laws of a matrix interpretation.
pub open spec fn source_provenance(source: NullspaceSource) -> Provenance {
    match source {
        NullspaceSource::Incidence => Provenance::IncidenceNullspace,
        NullspaceSource::Stoichiometric => Provenance::StoichiometricNullspace,
    }
}

impl NullspaceSource {
    /// The provenance recorded for laws of this interpretation.
    pub fn provenance(self) -> (result: Provenance)
        ensures
            result == source_provenance(self),
    {
        match self {
            NullspaceSource::Incidence => Provenance::IncidenceNullspace,
            NullspaceSource::Stoichiometric => Provenance::StoichiometricNullspace,
        }
    }
}

/// A structural error in a transition matrix.
#[derive(Clone, Debug, PartialEq, Eq)]
pub enum MatrixError {
    /// A matrix has no axis rows.
    NoAxes,
    /// A matrix has no transition columns.
    NoTransitions,
    /// The number of matrix rows differs from the number of axes.
    AxisRowCount {
        /// Number of axes.
        axes: usize,
        /// Number of rows.
        rows: usize,
    },
    /// Two rows do not contain the same number of transitions.
    RaggedRows {
        /// The first row whose length differs from the first row's.
        row: usize,
        /// The first row's length.
        expected: usize,
        /// This row's length.
        actual: usize,
    },
    /// An axis identifier occurs more than once.
    DuplicateAxis(AxisId),
}

/// The exact values of each row.
pub open spec fn row_values(rows: Seq<Vec<Rational>>) -> Seq<Seq<real>> {
    rows.map_values(|row: Vec<Rational>| reals(row@))
}

/// Whether the axes are strictly increasing in identifier order.
pub open spec fn axes_sorted(axes: Seq<AxisId>) -> bool {
    forall|i: int, j: int| 0 <= i < j < axes.len() ==> text_lt((#[trigger] axes[i])@, (#[trigger] axes[j])@)
}

/// A row-major exact transition matrix whose rows correspond to axes, in
/// axis order.
#[derive(Debug, PartialEq, Eq)]
pub struct TransitionMatrix {
    axes: Vec<AxisId>,
    entries: Vec<Vec<Rational>>,
    transition_count: usize,
}

impl TransitionMatrix {
    /// The axes, in identifier order.
    pub closed spec fn axis_ids(&self) -> Seq<AxisId> {
        self.axes@
    }

    /// The exact rows, one per axis.
    pub closed spec fn rows(&self) -> Seq<Seq<real>> {
        row_values(self.entries@)
    }

    /// The number of transition columns.
    pub closed spec fn column_count(&self) -> nat {
        self.transition_count as nat
    }

    #[verifier::type_invariant]
    closed spec fn rectangular(&self) -> bool {
        &&& self.axes@.len() > 0
        &&& axes_sorted(self.axes@)
        &&& self.entries@.len() == self.axes@.len()
        &&& self.transition_count > 0
        &&& forall|r: int| 0 <= r < self.entries@.len() ==> (#[trigger] self.entries@[r])@.len() == self.transition_count
    }

    /// The matrix has at least one axis, sorted axes, and one entry per axis and transition.
    pub open spec fn shaped(&self) -> bool {
        &&& self.axis_ids().len() > 0
        &&& axes_sorted(self.axis_ids())
        &&& self.rows().len() == self.axis_ids().len()
        &&& self.column_count() > 0
        &&& forall|r: int| 0 <= r < self.rows().len() ==> (#[trigger] self.rows()[r]).len() == self.column_count()
    }

    /// Establishes the matrix's shape.
    pub fn check_shape(&self)
        ensures
            self.shaped(),
    {
        proof {
            use_type_invariant(self);
            assert forall|r: int| 0 <= r < self.rows().len() implies (#[trigger] self.rows()[r]).len() == self.column_count() by {
                assert(self.rows()[r] == reals(self.entries@[r]@));
            }
        }
    }

    /// Returns the ordered axes represented by the rows.
    pub fn axes(&self) -> (result: &[AxisId])
        ensures
            result@ == self.axis_ids(),
    {
        self.axes.as_slice()
    }

    /// Returns the number of transition columns.
    pub fn transition_count(&self) -> (result: usize)
        ensures
            result == self.column_count(),
    {
        self.transition_count
    }

    /// The entry of row `row` (in axis order) and transition `column`.
    pub fn entry(&self, row: usize, column: usize) -> (result: Option<&Rational>)
        ensures
            match result {
                Some(value) => row < self.rows().len() && column < self.column_count() && value@ == self.rows()[row as int][column as int],
                None => !(row < self.rows().len() && column < self.column_count()),
            },
    {
        proof {
            use_type_invariant(self);
        }
        if row < self.entries.len() && column < self.transition_count {
            proof {
                assert(self.rows()[row as int] == reals(self.entries@[row as int]@));
            }
            Some(&self.entries[row][column])
        } else {
            None
        }
    }
}


/// Whether `index` occurs among the positions.
spec fn occurs(positions: Seq<int>, index: int) -> bool {
    exists|i: int| 0 <= i < positions.len() && positions[i] == index
}

/// Whether the axis occurs among the axes.
pub open spec fn has_axis(axes: Seq<AxisId>, axis: AxisId) -> bool {
    exists|i: int| 0 <= i < axes.len() && axes[i] == axis
}

/// Whether the sorted axes and rows are the given axes and rows, each row
/// kept with its axis.
pub open spec fn rows_placed(
    sorted_axes: Seq<AxisId>,
    sorted_rows: Seq<Seq<real>>,
    axes: Seq<AxisId>,
    rows: Seq<Seq<real>>,
) -> bool {
    &&& sorted_axes.len() == axes.len()
    &&& forall|j: int| 0 <= j < axes.len() ==> has_axis(sorted_axes, #[trigger] axes[j])
    &&& forall|i: int| 0 <= i < axes.len() ==> has_axis(axes, #[trigger] sorted_axes[i])
    &&& forall|i: int, j: int|
        #![trigger sorted_axes[i], axes[j]]
        0 <= i < axes.len() && 0 <= j < axes.len() && sorted_axes[i] == axes[j] ==> sorted_rows[i] == rows[j]
}

/// Whether the first `count` axes are pairwise distinct.
pub open spec fn distinct_axis_prefix(axes: Seq<AxisId>, count: int) -> bool {
    forall|i: int, j: int| 0 <= i < j < count ==> (#[trigger] axes[i])@ != (#[trigger] axes[j])@
}

/// Whether the rows before `count` all have the first row's length.
pub open spec fn rows_even_before(entries: Seq<Vec<Rational>>, count: int) -> bool {
    forall|r: int| 0 <= r < count ==> (#[trigger] entries[r])@.len() == entries[0]@.len()
}

/// Whether `error` is what validating the axes and rows reports.
pub open spec fn matrix_error(axes: Seq<AxisId>, entries: Seq<Vec<Rational>>, error: MatrixError) -> bool {
    match error {
        MatrixError::NoAxes => axes.len() == 0,
        MatrixError::AxisRowCount { axes: count, rows } => axes.len() > 0 && count == axes.len() && rows
            == entries.len() && count != rows,
        MatrixError::DuplicateAxis(id) => axes.len() > 0 && axes.len() == entries.len() && exists|i: int, j: int|
            0 <= i < j < axes.len() && distinct_axis_prefix(axes, j) && (#[trigger] axes[i])@ == (#[trigger] axes[j])@
                && id == axes[j],
        MatrixError::RaggedRows { row, expected, actual } => {
            &&& axes.len() > 0
            &&& axes.len() == entries.len()
            &&& distinct_axis_prefix(axes, axes.len() as int)
            &&& row < entries.len()
            &&& rows_even_before(entries, row as int)
            &&& expected == entries[0]@.len()
            &&& actual == entries[row as int]@.len()
            &&& expected != actual
        },
        MatrixError::NoTransitions => {
            &&& axes.len() > 0
            &&& axes.len() == entries.len()
            &&& distinct_axis_prefix(axes, axes.len() as int)
            &&& rows_even_before(entries, entries.len() as int)
            &&& entries[0]@.len() == 0
        },
    }
}

/// The axes in identifier order, each with its row.
fn sort_rows(axes: &Vec<AxisId>, entries: &Vec<Vec<Rational>>, transition_count: usize) -> (result: (Vec<AxisId>, Vec<Vec<Rational>>))
    requires
        axes@.len() == entries@.len(),
        distinct_axis_prefix(axes@, axes@.len() as int),
        forall|r: int| 0 <= r < entries@.len() ==> (#[trigger] entries@[r])@.len() == transition_count,
    ensures
        axes_sorted(result.0@),
        result.1@.len() == result.0@.len(),
        forall|r: int| 0 <= r < result.1@.len() ==> (#[trigger] result.1@[r])@.len() == transition_count,
        rows_placed(result.0@, row_values(result.1@), axes@, row_values(entries@)),
{
        let ghost values = row_values(entries@);
        let mut sorted_axes: Vec<AxisId> = Vec::new();
        let mut sorted_rows: Vec<Vec<Rational>> = Vec::new();
        let ghost mut origin: Seq<int> = Seq::empty();
        let mut j: usize = 0;
        while j < axes.len()
            invariant
                axes@.len() == entries@.len(),
                values == row_values(entries@),
                distinct_axis_prefix(axes@, axes@.len() as int),
                forall|r: int| 0 <= r < entries@.len() ==> (#[trigger] entries@[r])@.len() == transition_count,
                j <= axes@.len(),
                sorted_axes@.len() == j,
                sorted_rows@.len() == j,
                origin.len() == j,
                axes_sorted(sorted_axes@),
                forall|i: int| 0 <= i < j ==> 0 <= #[trigger] origin[i] < j,
                forall|i: int| 0 <= i < j ==> #[trigger] sorted_axes@[i] == axes@[origin[i]],
                forall|i: int| 0 <= i < j ==> #[trigger] row_values(sorted_rows@)[i] == values[origin[i]],
                forall|i: int| 0 <= i < j ==> (#[trigger] sorted_rows@[i])@.len() == transition_count,
                forall|k: int| 0 <= k < j ==> #[trigger] occurs(origin, k),
            decreases axes.len() - j,
        {
            let axis = &axes[j];
            let mut p: usize = 0;
            while p < sorted_axes.len() && sorted_axes[p].precedes(axis)
                invariant
                    p <= sorted_axes@.len(),
                    forall|i: int| 0 <= i < p ==> text_lt((#[trigger] sorted_axes@[i])@, axis@),
                decreases sorted_axes.len() - p,
            {
                p += 1;
            }
            let ghost before_axes = sorted_axes@;
            let ghost before_rows = sorted_rows@;
            let ghost before_origin = origin;
            proof {
                assert forall|i: int| p <= i < before_axes.len() implies text_lt(axis@, (#[trigger] before_axes[i])@) by {
                    if i == p {
                        assert(!text_lt(before_axes[p as int]@, axis@));
                    } else {
                        assert(text_lt(before_axes[p as int]@, before_axes[i]@));
                    }
                    let k = origin[i];
                    assert(before_axes[i] == axes@[k]);
                    if k < j {
                        assert(axes@[k]@ != axes@[j as int]@);
                    }
                    lemma_text_lt_trichotomy(axis@, before_axes[p as int]@);
                    lemma_text_lt_trichotomy(axis@, before_axes[i]@);
                    if i != p && text_lt(before_axes[i]@, axis@) {
                        lemma_text_lt_transitive(before_axes[p as int]@, before_axes[i]@, axis@);
                    }
                    if i != p {
                        let kp = origin[p as int];
                        assert(before_axes[p as int] == axes@[kp]);
                        assert(axes@[kp]@ != axes@[j as int]@);
                    }
                }
            }
            sorted_axes.insert(p, axis.clone());
            sorted_rows.insert(p, copies(&entries[j]));
            proof {
                origin = origin.insert(p as int, j as int);
                assert forall|a: int, b: int| 0 <= a < b < sorted_axes@.len() implies text_lt(
                    (#[trigger] sorted_axes@[a])@,
                    (#[trigger] sorted_axes@[b])@,
                ) by {
                    if b < p {
                        assert(sorted_axes@[a] == before_axes[a] && sorted_axes@[b] == before_axes[b]);
                    } else if b == p {
                        assert(sorted_axes@[a] == before_axes[a]);
                    } else if a < p {
                        assert(sorted_axes@[a] == before_axes[a] && sorted_axes@[b] == before_axes[b - 1]);
                        assert(text_lt(axis@, before_axes[b - 1]@));
                        lemma_text_lt_transitive(before_axes[a]@, axis@, before_axes[b - 1]@);
                    } else if a == p {
                        assert(sorted_axes@[b] == before_axes[b - 1]);
                    } else {
                        assert(sorted_axes@[a] == before_axes[a - 1] && sorted_axes@[b] == before_axes[b - 1]);
                    }
                }
                assert forall|i: int| 0 <= i < j + 1 implies #[trigger] row_values(sorted_rows@)[i] == values[origin[i]] by {
                    if i < p {
                        assert(row_values(sorted_rows@)[i] == reals(sorted_rows@[i]@));
                        assert(sorted_rows@[i] == before_rows[i]);
                        assert(row_values(before_rows)[i] == reals(before_rows[i]@));
                    } else if i == p {
                        assert(row_values(sorted_rows@)[i] == reals(sorted_rows@[i]@));
                    } else {
                        assert(row_values(sorted_rows@)[i] == reals(sorted_rows@[i]@));
                        assert(sorted_rows@[i] == before_rows[i - 1]);
                        assert(row_values(before_rows)[i - 1] == reals(before_rows[i - 1]@));
                    }
                }
                assert forall|k: int| 0 <= k < j + 1 implies #[trigger] occurs(origin, k) by {
                    if k == j {
                        assert(origin[p as int] == k);
                    } else {
                        assert(occurs(before_origin, k));
                        let i = choose|i: int| 0 <= i < before_origin.len() && before_origin[i] == k;
                        if i < p {
                            assert(origin[i] == k);
                        } else {
                            assert(origin[i + 1] == k);
                        }
                    }
                }
            }
            j += 1;
        }
        proof {
            assert forall|a: int| 0 <= a < axes@.len() implies has_axis(sorted_axes@, #[trigger] axes@[a]) by {
                assert(occurs(origin, a));
                let i = choose|i: int| 0 <= i < origin.len() && origin[i] == a;
                assert(sorted_axes@[i] == axes@[a]);
            }
            assert forall|i: int| 0 <= i < axes@.len() implies has_axis(axes@, #[trigger] sorted_axes@[i]) by {
                let a = origin[i];
                assert(sorted_axes@[i] == axes@[a]);
            }
            assert forall|i: int, a: int|
                #![trigger sorted_axes@[i], axes@[a]]
                0 <= i < axes@.len() && 0 <= a < axes@.len() && sorted_axes@[i] == axes@[a] implies row_values(sorted_rows@)[i]
                    == row_values(entries@)[a] by {
                let k = origin[i];
                assert(sorted_axes@[i] == axes@[k]);
                if k < a {
                    assert(axes@[k]@ != axes@[a]@);
                } else if a < k {
                    assert(axes@[a]@ != axes@[k]@);
                }
                assert(row_values(sorted_rows@)[i] == values[k]);
            }
            assert(rows_placed(sorted_axes@, row_values(sorted_rows@), axes@, row_values(entries@)));
        }
        (sorted_axes, sorted_rows)
}

impl TransitionMatrix {
    /// Validates and constructs a row-major transition matrix, with rows
    /// reordered jointly with their axes into axis order.
    pub fn new(axes: Vec<AxisId>, entries: Vec<Vec<Rational>>) -> (result: Result<Self, MatrixError>)
        ensures
            result is Ok <==> (axes@.len() > 0 && axes@.len() == entries@.len() && distinct_axis_prefix(
                axes@,
                axes@.len() as int,
            ) && rows_even_before(entries@, entries@.len() as int) && entries@[0]@.len() > 0),
            match result {
                Ok(matrix) => {
                    &&& matrix.column_count() == entries@[0]@.len()
                    &&& rows_placed(matrix.axis_ids(), matrix.rows(), axes@, row_values(entries@))
                },
                Err(error) => matrix_error(axes@, entries@, error),
            },
    {
        if axes.len() == 0 {
            return Err(MatrixError::NoAxes);
        }
        if axes.len() != entries.len() {
            return Err(MatrixError::AxisRowCount { axes: axes.len(), rows: entries.len() });
        }
        let mut j: usize = 0;
        while j < axes.len()
            invariant
                j <= axes@.len(),
                axes@.len() == entries@.len(),
                distinct_axis_prefix(axes@, j as int),
            decreases axes.len() - j,
        {
            let mut i: usize = 0;
            while i < j
                invariant
                    j < axes@.len(),
                    axes@.len() == entries@.len(),
                    distinct_axis_prefix(axes@, j as int),
                    i <= j,
                    forall|k: int| 0 <= k < i ==> (#[trigger] axes@[k])@ != axes@[j as int]@,
                decreases j - i,
            {
                if axes[i].same(&axes[j]) {
                    proof {
                        assert(axes@[i as int]@ == axes@[j as int]@);
                    }
                    return Err(MatrixError::DuplicateAxis(axes[j].clone()));
                }
                i += 1;
            }
            j += 1;
        }
        let transition_count = entries[0].len();
        let mut r: usize = 0;
        while r < entries.len()
            invariant
                entries@.len() > 0,
                axes@.len() == entries@.len(),
                distinct_axis_prefix(axes@, axes@.len() as int),
                transition_count == entries@[0]@.len(),
                r <= entries@.len(),
                rows_even_before(entries@, r as int),
            decreases entries.len() - r,
        {
            if entries[r].len() != transition_count {
                return Err(MatrixError::RaggedRows { row: r, expected: transition_count, actual: entries[r].len() });
            }
            r += 1;
        }
        if transition_count == 0 {
            return Err(MatrixError::NoTransitions);
        }
        let (sorted_axes, sorted_rows) = sort_rows(&axes, &entries, transition_count);
        let matrix = TransitionMatrix { axes: sorted_axes, entries: sorted_rows, transition_count };
        proof {
            assert(matrix.axis_ids() == sorted_axes@);
            assert(matrix.rows() == row_values(sorted_rows@));
        }
        Ok(matrix)
    }
}


/// `Σ_{i<count} row[i]·x[i]`.
pub open spec fn dot(row: Seq<real>, x: Seq<real>, count: int) -> real
    decreases count,
{
    if count <= 0 {
        0real
    } else {
        dot(row, x, count - 1) + row[count - 1] * x[count - 1]
    }
}

/// Whether `x` satisfies every row over the first `width` columns.
pub open spec fn solves(rows: Seq<Seq<real>>, x: Seq<real>, width: int) -> bool {
    forall|r: int| 0 <= r < rows.len() ==> #[trigger] dot(rows[r], x, width) == 0real
}

/// Scaling a row scales its products.
proof fn lemma_dot_scaled_row(row: Seq<real>, scaled: Seq<real>, x: Seq<real>, factor: real, count: int)
    requires
        forall|i: int| 0 <= i < count ==> #[trigger] scaled[i] == row[i] * factor,
    ensures
        dot(scaled, x, count) == dot(row, x, count) * factor,
    decreases count,
{
    if count > 0 {
        lemma_dot_scaled_row(row, scaled, x, factor, count - 1);
        let before = dot(row, x, count - 1);
        let r = row[count - 1];
        let v = x[count - 1];
        assert(scaled[count - 1] == r * factor);
        assert((before + r * v) * factor == before * factor + (r * factor) * v) by (nonlinear_arith);
    }
}

/// Scaling a vector scales its products.
proof fn lemma_dot_scaled_vector(row: Seq<real>, x: Seq<real>, scaled: Seq<real>, factor: real, count: int)
    requires
        forall|i: int| 0 <= i < count ==> #[trigger] scaled[i] == x[i] * factor,
    ensures
        dot(row, scaled, count) == dot(row, x, count) * factor,
    decreases count,
{
    if count > 0 {
        lemma_dot_scaled_vector(row, x, scaled, factor, count - 1);
        let before = dot(row, x, count - 1);
        let r = row[count - 1];
        let v = x[count - 1];
        assert(scaled[count - 1] == v * factor);
        assert((before + r * v) * factor == before * factor + r * (v * factor)) by (nonlinear_arith);
    }
}

/// Products with `a - factor·b` combine linearly.
proof fn lemma_dot_combination(a: Seq<real>, b: Seq<real>, out: Seq<real>, factor: real, x: Seq<real>, count: int)
    requires
        forall|i: int| 0 <= i < count ==> #[trigger] out[i] == a[i] - factor * b[i],
    ensures
        dot(out, x, count) == dot(a, x, count) - factor * dot(b, x, count),
    decreases count,
{
    if count > 0 {
        lemma_dot_combination(a, b, out, factor, x, count - 1);
        let da = dot(a, x, count - 1);
        let db = dot(b, x, count - 1);
        let ai = a[count - 1];
        let bi = b[count - 1];
        let v = x[count - 1];
        assert(out[count - 1] == ai - factor * bi);
        assert((ai - factor * bi) * v == ai * v - factor * (bi * v)) by (nonlinear_arith);
        assert(factor * (db + bi * v) == factor * db + factor * (bi * v)) by (nonlinear_arith);
    }
}

/// Changing one coordinate changes the product by that column's share.
proof fn lemma_dot_update(row: Seq<real>, x: Seq<real>, index: int, value: real, count: int)
    requires
        0 <= index < x.len(),
        count <= x.len(),
    ensures
        dot(row, x.update(index, value), count) == dot(row, x, count) + if index < count {
            row[index] * (value - x[index])
        } else {
            0real
        },
    decreases count,
{
    if count > 0 {
        lemma_dot_update(row, x, index, value, count - 1);
        if index == count - 1 {
            let r = row[index];
            assert(r * value == r * x[index] + r * (value - x[index])) by (nonlinear_arith);
        }
    }
}

/// A product with the zero vector is zero.
proof fn lemma_dot_zero_vector(row: Seq<real>, x: Seq<real>, count: int)
    requires
        forall|i: int| 0 <= i < count ==> #[trigger] x[i] == 0real,
    ensures
        dot(row, x, count) == 0real,
    decreases count,
{
    if count > 0 {
        lemma_dot_zero_vector(row, x, count - 1);
        assert(x[count - 1] == 0real);
        assert(row[count - 1] * 0real == 0real) by (nonlinear_arith);
    }
}

/// A product with the zero row is zero.
proof fn lemma_dot_zero_row(row: Seq<real>, x: Seq<real>, count: int)
    requires
        forall|i: int| 0 <= i < count ==> #[trigger] row[i] == 0real,
    ensures
        dot(row, x, count) == 0real,
    decreases count,
{
    if count > 0 {
        lemma_dot_zero_row(row, x, count - 1);
        assert(row[count - 1] == 0real);
        assert(0real * x[count - 1] == 0real) by (nonlinear_arith);
    }
}

/// Every row has `width` entries.
pub open spec fn rows_of_width(rows: Seq<Vec<Rational>>, width: nat) -> bool {
    forall|r: int| 0 <= r < rows.len() ==> (#[trigger] rows[r])@.len() == width
}

/// The first row at or after `start` with a nonzero entry in `column`, or the
/// number of rows when there is none.
fn find_pivot(rows: &Vec<Vec<Rational>>, start: usize, column: usize, width: Ghost<nat>) -> (result: usize)
    requires
        rows_of_width(rows@, width@),
        column < width@,
        start <= rows@.len(),
    ensures
        start <= result <= rows@.len(),
        result < rows@.len() ==> row_values(rows@)[result as int][column as int] != 0real,
        forall|r: int| start <= r < result ==> #[trigger] row_values(rows@)[r][column as int] == 0real,
{
    let mut r = start;
    while r < rows.len()
        invariant
            rows_of_width(rows@, width@),
            column < width@,
            start <= r <= rows@.len(),
            forall|q: int| start <= q < r ==> #[trigger] row_values(rows@)[q][column as int] == 0real,
        decreases rows.len() - r,
    {
        proof {
            assert(row_values(rows@)[r as int] == reals(rows@[r as int]@));
        }
        if !rows[r][column].is_zero() {
            return r;
        }
        r += 1;
    }
    r
}

/// Exchanges two rows.
fn swap_rows(rows: &mut Vec<Vec<Rational>>, a: usize, b: usize, width: Ghost<nat>)
    requires
        a < old(rows)@.len(),
        b < old(rows)@.len(),
        rows_of_width(old(rows)@, width@),
    ensures
        final(rows)@.len() == old(rows)@.len(),
        rows_of_width(final(rows)@, width@),
        row_values(final(rows)@) == row_values(old(rows)@).update(a as int, row_values(old(rows)@)[b as int]).update(
            b as int,
            row_values(old(rows)@)[a as int],
        ),
{
    let ghost before = row_values(rows@);
    let first = copies(&rows[a]);
    let second = copies(&rows[b]);
    rows.set(a, second);
    rows.set(b, first);
    proof {
        assert(row_values(rows@) =~= before.update(a as int, before[b as int]).update(b as int, before[a as int]));
    }
}

/// The row divided by `pivot`.
fn divide_row(row: &Vec<Rational>, pivot: &Rational) -> (result: Vec<Rational>)
    requires
        pivot@ != 0real,
    ensures
        result@.len() == row@.len(),
        forall|i: int| 0 <= i < row@.len() ==> #[trigger] reals(result@)[i] == reals(row@)[i] / pivot@,
{
    let mut result: Vec<Rational> = Vec::new();
    let mut i: usize = 0;
    while i < row.len()
        invariant
            pivot@ != 0real,
            i <= row@.len(),
            result@.len() == i,
            forall|j: int| 0 <= j < i ==> (#[trigger] result@[j])@ == row@[j]@ / pivot@,
        decreases row.len() - i,
    {
        result.push(row[i].div(pivot));
        i += 1;
    }
    result
}

/// The row less `factor` times the pivot row.
fn subtract_multiple(row: &Vec<Rational>, factor: &Rational, pivot: &Vec<Rational>) -> (result: Vec<Rational>)
    requires
        row@.len() == pivot@.len(),
    ensures
        result@.len() == row@.len(),
        forall|i: int| 0 <= i < row@.len() ==> #[trigger] reals(result@)[i] == reals(row@)[i] - factor@ * reals(pivot@)[i],
{
    let mut result: Vec<Rational> = Vec::new();
    let mut i: usize = 0;
    while i < row.len()
        invariant
            row@.len() == pivot@.len(),
            i <= row@.len(),
            result@.len() == i,
            forall|j: int| 0 <= j < i ==> (#[trigger] result@[j])@ == row@[j]@ - factor@ * pivot@[j]@,
        decreases row.len() - i,
    {
        result.push(row[i].sub(&factor.mul(&pivot[i])));
        i += 1;
    }
    result
}

/// Clears `column` from every row but the pivot row by subtracting the
/// matching multiple of the pivot row; every solution of the new rows solves
/// the old ones.
fn eliminate(rows: &mut Vec<Vec<Rational>>, pivot_row: usize, column: usize, width: Ghost<nat>)
    requires
        pivot_row < old(rows)@.len(),
        column < width@,
        rows_of_width(old(rows)@, width@),
    ensures
        final(rows)@.len() == old(rows)@.len(),
        rows_of_width(final(rows)@, width@),
        row_values(final(rows)@)[pivot_row as int] == row_values(old(rows)@)[pivot_row as int],
        forall|r: int, c: int|
            0 <= r < old(rows)@.len() && r != pivot_row && 0 <= c < width@ ==> #[trigger] row_values(final(rows)@)[r][c]
                == row_values(old(rows)@)[r][c] - row_values(old(rows)@)[r][column as int] * row_values(
                old(rows)@,
            )[pivot_row as int][c],
        forall|x: Seq<real>| #[trigger] solves(row_values(final(rows)@), x, width@ as int) ==> solves(
            row_values(old(rows)@),
            x,
            width@ as int,
        ),
        forall|x: Seq<real>| #[trigger] solves(row_values(old(rows)@), x, width@ as int) ==> solves(
            row_values(final(rows)@),
            x,
            width@ as int,
        ),
{
    let ghost before = row_values(rows@);
    let pivot = copies(&rows[pivot_row]);
    let mut r: usize = 0;
    while r < rows.len()
        invariant
            pivot_row < rows@.len(),
            column < width@,
            rows@.len() == before.len(),
            rows_of_width(rows@, width@),
            reals(pivot@) == before[pivot_row as int],
            pivot@.len() == width@,
            r <= rows@.len(),
            forall|q: int| r <= q < rows@.len() ==> #[trigger] row_values(rows@)[q] == before[q],
            row_values(rows@)[pivot_row as int] == before[pivot_row as int],
            forall|q: int, c: int|
                0 <= q < r && q != pivot_row && 0 <= c < width@ ==> #[trigger] row_values(rows@)[q][c] == before[q][c]
                    - before[q][column as int] * before[pivot_row as int][c],
        decreases rows.len() - r,
    {
        let ghost current = rows@;
        proof {
            assert(row_values(rows@)[r as int] == reals(rows@[r as int]@));
        }
        if r != pivot_row {
            let factor = rows[r][column].clone();
            let next = subtract_multiple(&rows[r], &factor, &pivot);
            rows.set(r, next);
            proof {
                assert forall|q: int| r + 1 <= q < rows@.len() implies #[trigger] row_values(rows@)[q] == before[q] by {
                    assert(rows@[q] == current[q]);
                    assert(row_values(rows@)[q] == reals(rows@[q]@));
                    assert(row_values(current)[q] == reals(current[q]@));
                }
                assert(row_values(rows@)[pivot_row as int] == before[pivot_row as int]) by {
                    assert(rows@[pivot_row as int] == current[pivot_row as int]);
                    assert(row_values(rows@)[pivot_row as int] == reals(rows@[pivot_row as int]@));
                    assert(row_values(current)[pivot_row as int] == reals(current[pivot_row as int]@));
                }
                assert forall|q: int, c: int|
                    0 <= q < r + 1 && q != pivot_row && 0 <= c < width@ implies #[trigger] row_values(rows@)[q][c]
                        == before[q][c] - before[q][column as int] * before[pivot_row as int][c] by {
                    if q < r {
                        assert(rows@[q] == current[q]);
                        assert(row_values(rows@)[q] == reals(rows@[q]@));
                        assert(row_values(current)[q] == reals(current[q]@));
                    } else {
                        assert(row_values(rows@)[q] == reals(rows@[q]@));
                        assert(before[q] == reals(current[q]@));
                        assert(reals(pivot@)[c] == before[pivot_row as int][c]);
                    }
                }
                assert forall|q: int| 0 <= q < rows@.len() implies (#[trigger] rows@[q])@.len() == width@ by {
                    if q != r {
                        assert(rows@[q] == current[q]);
                    }
                }
            }
        }
        r += 1;
    }
    proof {
        let after = row_values(rows@);
        let width_int = width@ as int;
        assert forall|x: Seq<real>| #[trigger] solves(after, x, width_int) implies solves(before, x, width_int) by {
            assert forall|q: int| 0 <= q < before.len() implies #[trigger] dot(before[q], x, width_int) == 0real by {
                assert(dot(after[pivot_row as int], x, width_int) == 0real);
                if q != pivot_row {
                    let factor = before[q][column as int];
                    assert forall|c: int| 0 <= c < width_int implies #[trigger] after[q][c] == before[q][c] - factor
                        * before[pivot_row as int][c] by {
                    }
                    lemma_dot_combination(before[q], before[pivot_row as int], after[q], factor, x, width_int);
                    assert(dot(after[q], x, width_int) == 0real);
                    let dp = dot(before[pivot_row as int], x, width_int);
                    assert(factor * dp == 0real) by (nonlinear_arith)
                        requires
                            dp == 0real,
                    ;
                }
            }
        }
        assert forall|x: Seq<real>| #[trigger] solves(before, x, width_int) implies solves(after, x, width_int) by {
            assert forall|q: int| 0 <= q < after.len() implies #[trigger] dot(after[q], x, width_int) == 0real by {
                assert(dot(before[pivot_row as int], x, width_int) == 0real);
                if q != pivot_row {
                    let factor = before[q][column as int];
                    assert forall|c: int| 0 <= c < width_int implies #[trigger] after[q][c] == before[q][c] - factor
                        * before[pivot_row as int][c] by {
                    }
                    lemma_dot_combination(before[q], before[pivot_row as int], after[q], factor, x, width_int);
                    assert(dot(before[q], x, width_int) == 0real);
                    let dp = dot(before[pivot_row as int], x, width_int);
                    assert(factor * dp == 0real) by (nonlinear_arith)
                        requires
                            dp == 0real,
                    ;
                }
            }
        }
    }
}


/// Whether `c` is one of the pivot columns.
pub open spec fn pivot_column(pivots: Seq<usize>, c: int) -> bool {
    exists|k: int| 0 <= k < pivots.len() && pivots[k] == c
}

/// Whether the rows are in reduced echelon form in the processed columns:
/// each pivot row has one at its pivot column, every other row zero there, and
/// every row past the pivots is zero in the processed columns.
pub open spec fn reduced(rows: Seq<Seq<real>>, pivots: Seq<usize>, processed: int) -> bool {
    &&& pivots.len() <= rows.len()
    &&& forall|k: int| 0 <= k < pivots.len() ==> #[trigger] pivots[k] < processed
    &&& forall|a: int, b: int| 0 <= a < b < pivots.len() ==> #[trigger] pivots[a] < #[trigger] pivots[b]
    &&& forall|k: int| 0 <= k < pivots.len() ==> #[trigger] rows[k][pivots[k] as int] == 1real
    &&& forall|k: int, r: int| 0 <= k < pivots.len() && 0 <= r < rows.len() && r != k ==> #[trigger] rows[r][pivots[k] as int]
        == 0real
    &&& forall|r: int, c: int| pivots.len() <= r < rows.len() && 0 <= c < processed ==> #[trigger] rows[r][c] == 0real
    &&& forall|k: int, c: int| 0 <= k < pivots.len() && 0 <= c < pivots[k] ==> #[trigger] rows[k][c] == 0real
}

/// Whether `column` is one of the pivot columns.
fn is_pivot(pivots: &Vec<usize>, column: usize) -> (result: bool)
    ensures
        result == exists|k: int| 0 <= k < pivots@.len() && pivots@[k] == column,
{
    let mut k: usize = 0;
    while k < pivots.len()
        invariant
            k <= pivots@.len(),
            forall|j: int| 0 <= j < k ==> pivots@[j] != column,
        decreases pivots.len() - k,
    {
        if pivots[k] == column {
            return true;
        }
        k += 1;
    }
    false
}

/// The unit vector along `column`.
fn unit_vector(width: usize, column: usize) -> (result: Vec<Rational>)
    requires
        column < width,
    ensures
        result@.len() == width,
        reals(result@) == Seq::new(width as nat, |c: int| if c == column { 1real } else { 0real }),
{
    let mut result: Vec<Rational> = Vec::new();
    let mut c: usize = 0;
    while c < width
        invariant
            c <= width,
            result@.len() == c,
            forall|j: int| 0 <= j < c ==> (#[trigger] result@[j])@ == if j == column { 1real } else { 0real },
        decreases width - c,
    {
        if c == column {
            result.push(Rational::one());
        } else {
            result.push(Rational::zero());
        }
        c += 1;
    }
    assert(reals(result@) =~= Seq::new(width as nat, |c: int| if c == column { 1real } else { 0real }));
    result
}

/// Reduces the rows to echelon form, returning the rows and pivot columns.
fn reduce(rows: Vec<Vec<Rational>>, width: usize) -> (result: (Vec<Vec<Rational>>, Vec<usize>))
    requires
        rows_of_width(rows@, width as nat),
    ensures
        result.0@.len() == rows@.len(),
        rows_of_width(result.0@, width as nat),
        reduced(row_values(result.0@), result.1@, width as int),
        forall|k: int| 0 <= k < result.1@.len() ==> #[trigger] result.1@[k] < width,
        forall|x: Seq<real>| #[trigger] solves(row_values(result.0@), x, width as int) ==> solves(row_values(rows@), x, width as int),
        forall|x: Seq<real>| #[trigger] solves(row_values(rows@), x, width as int) ==> solves(row_values(result.0@), x, width as int),
{
    let ghost original = row_values(rows@);
    let mut rows = rows;
    let mut pivots: Vec<usize> = Vec::new();
    let mut column: usize = 0;
    while column < width && pivots.len() < rows.len()
        invariant
            rows@.len() == original.len(),
            rows_of_width(rows@, width as nat),
            column <= width,
            reduced(row_values(rows@), pivots@, column as int),
            forall|x: Seq<real>| #[trigger] solves(row_values(rows@), x, width as int) ==> solves(original, x, width as int),
            forall|x: Seq<real>| #[trigger] solves(original, x, width as int) ==> solves(row_values(rows@), x, width as int),
        decreases width - column,
    {
        let pivot_row = pivots.len();
        let candidate = find_pivot(&rows, pivot_row, column, Ghost(width as nat));
        if candidate < rows.len() {
            let ghost start = row_values(rows@);
            swap_rows(&mut rows, pivot_row, candidate, Ghost(width as nat));
            let ghost swapped = row_values(rows@);
            proof {
                assert forall|x: Seq<real>| #[trigger] solves(swapped, x, width as int) implies solves(start, x, width as int) by {
                    assert forall|q: int| 0 <= q < start.len() implies #[trigger] dot(start[q], x, width as int) == 0real by {
                        if q == pivot_row {
                            assert(start[q] == swapped[candidate as int]);
                        } else if q == candidate {
                            assert(start[q] == swapped[pivot_row as int]);
                        } else {
                            assert(start[q] == swapped[q]);
                        }
                    }
                }
                assert forall|x: Seq<real>| #[trigger] solves(start, x, width as int) implies solves(swapped, x, width as int) by {
                    assert forall|q: int| 0 <= q < swapped.len() implies #[trigger] dot(swapped[q], x, width as int) == 0real by {
                        if q == pivot_row {
                            assert(swapped[q] == start[candidate as int]);
                        } else if q == candidate {
                            assert(swapped[q] == start[pivot_row as int]);
                        } else {
                            assert(swapped[q] == start[q]);
                        }
                    }
                }
                assert(rows@[pivot_row as int]@.len() == width);
                assert(row_values(rows@)[pivot_row as int] == reals(rows@[pivot_row as int]@));
            }
            let pivot = rows[pivot_row][column].clone();
            let normalized = divide_row(&rows[pivot_row], &pivot);
            rows.set(pivot_row, normalized);
            let ghost divided = row_values(rows@);
            proof {
                assert(divided[pivot_row as int] == reals(rows@[pivot_row as int]@));
                assert forall|q: int| 0 <= q < rows@.len() && q != pivot_row implies #[trigger] divided[q] == swapped[q] by {
                }
                assert forall|q: int| 0 <= q < rows@.len() implies (#[trigger] rows@[q])@.len() == width by {
                }
                assert forall|x: Seq<real>| #[trigger] solves(divided, x, width as int) implies solves(swapped, x, width as int) by {
                    assert forall|q: int| 0 <= q < swapped.len() implies #[trigger] dot(swapped[q], x, width as int) == 0real by {
                        if q == pivot_row {
                            let p = pivot@;
                            assert forall|c: int| 0 <= c < width implies #[trigger] divided[q][c] == swapped[q][c] * (1real / p) by {
                                let v = swapped[q][c];
                                assert(v / p == v * (1real / p)) by (nonlinear_arith)
                                    requires
                                        p != 0real,
                                ;
                            }
                            lemma_dot_scaled_row(swapped[q], divided[q], x, 1real / p, width as int);
                            let d = dot(swapped[q], x, width as int);
                            assert(d * (1real / p) == 0real);
                            assert(d == 0real) by (nonlinear_arith)
                                requires
                                    d * (1real / p) == 0real,
                                    p != 0real,
                            ;
                        } else {
                            assert(divided[q] == swapped[q]);
                        }
                    }
                }
                assert forall|x: Seq<real>| #[trigger] solves(swapped, x, width as int) implies solves(divided, x, width as int) by {
                    assert forall|q: int| 0 <= q < divided.len() implies #[trigger] dot(divided[q], x, width as int) == 0real by {
                        if q == pivot_row {
                            let p = pivot@;
                            assert forall|c: int| 0 <= c < width implies #[trigger] divided[q][c] == swapped[q][c] * (1real / p) by {
                                let v = swapped[q][c];
                                assert(v / p == v * (1real / p)) by (nonlinear_arith)
                                    requires
                                        p != 0real,
                                ;
                            }
                            lemma_dot_scaled_row(swapped[q], divided[q], x, 1real / p, width as int);
                            let d = dot(swapped[q], x, width as int);
                            assert(d == 0real);
                            assert(d * (1real / p) == 0real) by (nonlinear_arith)
                                requires
                                    d == 0real,
                            ;
                        } else {
                            assert(divided[q] == swapped[q]);
                        }
                    }
                }
                let p = pivot@;
                assert(divided[pivot_row as int][column as int] == p / p);
                assert(p / p == 1real) by (nonlinear_arith)
                    requires
                        p != 0real,
                ;
            }
            eliminate(&mut rows, pivot_row, column, Ghost(width as nat));
            let ghost cleared = row_values(rows@);
            proof {
                let pivots_before = pivots@;
                assert forall|k: int| 0 <= k < pivots_before.len() implies #[trigger] cleared[k][pivots_before[k] as int] == 1real by {
                    let pc = pivots_before[k] as int;
                    assert(start[pivot_row as int][pc] == 0real);
                    assert(start[candidate as int][pc] == 0real);
                    assert(swapped[pivot_row as int][pc] == 0real);
                    assert(divided[pivot_row as int][pc] == swapped[pivot_row as int][pc] / pivot@);
                    assert(0real / pivot@ == 0real) by (nonlinear_arith)
                        requires
                            pivot@ != 0real,
                    ;
                    assert(divided[k][pc] == 1real);
                    assert(cleared[k][pc] == divided[k][pc] - divided[k][column as int] * divided[pivot_row as int][pc]);
                    let f = divided[k][column as int];
                    assert(f * 0real == 0real) by (nonlinear_arith);
                }
            }
            pivots.push(column);
            proof {
                let pivots_before = pivots@.drop_last();
                assert forall|k: int, r: int| 0 <= k < pivots@.len() && 0 <= r < cleared.len() && r != k implies #[trigger] cleared[r][pivots@[k] as int]
                    == 0real by {
                    if k == pivot_row {
                        assert(cleared[r][column as int] == divided[r][column as int] - divided[r][column as int]
                            * divided[pivot_row as int][column as int]);
                        let f = divided[r][column as int];
                        assert(f - f * 1real == 0real) by (nonlinear_arith);
                    } else {
                        let pc = pivots@[k] as int;
                        assert(pivots@[k] == pivots_before[k]);
                        assert(start[pivot_row as int][pc] == 0real);
                        assert(start[candidate as int][pc] == 0real);
                        assert(swapped[pivot_row as int][pc] == 0real);
                        assert(0real / pivot@ == 0real) by (nonlinear_arith)
                            requires
                                pivot@ != 0real,
                        ;
                        assert(divided[pivot_row as int][pc] == 0real);
                        if r == pivot_row {
                            assert(cleared[r] == divided[r]);
                        } else {
                            assert(cleared[r][pc] == divided[r][pc] - divided[r][column as int] * divided[pivot_row as int][pc]);
                            let f = divided[r][column as int];
                            assert(f * 0real == 0real) by (nonlinear_arith);
                            if r == candidate {
                                assert(divided[r][pc] == swapped[r][pc]);
                                assert(swapped[r][pc] == start[pivot_row as int][pc]);
                            } else {
                                assert(divided[r][pc] == swapped[r][pc]);
                                assert(swapped[r][pc] == start[r][pc]);
                            }
                        }
                    }
                }
                assert forall|k: int| 0 <= k < pivots@.len() implies #[trigger] cleared[k][pivots@[k] as int] == 1real by {
                    if k < pivot_row {
                        assert(pivots@[k] == pivots_before[k]);
                    }
                }
                assert forall|k: int, c: int| 0 <= k < pivots@.len() && 0 <= c < pivots@[k] implies #[trigger] cleared[k][c] == 0real by {
                    assert(start[pivot_row as int][c] == 0real);
                    assert(start[candidate as int][c] == 0real);
                    assert(0real / pivot@ == 0real) by (nonlinear_arith)
                        requires
                            pivot@ != 0real,
                    ;
                    assert(divided[pivot_row as int][c] == 0real);
                    if k == pivot_row {
                        assert(cleared[k] == divided[k]);
                    } else {
                        assert(pivots@[k] == pivots_before[k]);
                        assert(cleared[k][c] == divided[k][c] - divided[k][column as int] * divided[pivot_row as int][c]);
                        let f = divided[k][column as int];
                        assert(f * 0real == 0real) by (nonlinear_arith);
                        assert(divided[k][c] == swapped[k][c]);
                        assert(swapped[k][c] == start[k][c]);
                    }
                }
                assert forall|r: int, c: int| pivots@.len() <= r < cleared.len() && 0 <= c < column + 1 implies #[trigger] cleared[r][c]
                    == 0real by {
                    assert(cleared[r][c] == divided[r][c] - divided[r][column as int] * divided[pivot_row as int][c]);
                    let f = divided[r][column as int];
                    if c == column {
                        assert(divided[pivot_row as int][c] == 1real);
                        assert(f - f * 1real == 0real) by (nonlinear_arith);
                    } else {
                        assert(start[pivot_row as int][c] == 0real);
                        assert(start[candidate as int][c] == 0real);
                        assert(0real / pivot@ == 0real) by (nonlinear_arith)
                            requires
                                pivot@ != 0real,
                        ;
                        assert(divided[pivot_row as int][c] == 0real);
                        assert(f * 0real == 0real) by (nonlinear_arith);
                        if r == candidate {
                            assert(divided[r][c] == start[pivot_row as int][c]);
                        } else {
                            assert(divided[r][c] == start[r][c]);
                        }
                    }
                }
                assert forall|x: Seq<real>| #[trigger] solves(cleared, x, width as int) implies solves(original, x, width as int) by {
                    assert(solves(divided, x, width as int));
                    assert(solves(swapped, x, width as int));
                    assert(solves(start, x, width as int));
                }
                assert forall|x: Seq<real>| #[trigger] solves(original, x, width as int) implies solves(cleared, x, width as int) by {
                    assert(solves(start, x, width as int));
                    assert(solves(swapped, x, width as int));
                    assert(solves(divided, x, width as int));
                }
            }
        } else {
            proof {
                let current = row_values(rows@);
                assert forall|r: int, c: int| pivots@.len() <= r < current.len() && 0 <= c < column + 1 implies #[trigger] current[r][c]
                    == 0real by {
                }
            }
        }
        column += 1;
    }
    proof {
        let current = row_values(rows@);
        assert forall|r: int, c: int| pivots@.len() <= r < current.len() && 0 <= c < width implies #[trigger] current[r][c]
            == 0real by {
            assert(column == width);
        }
    }
    (rows, pivots)
}


/// Whether `result` is `vector` scaled by `factor`.
pub open spec fn scaled_copy(result: Seq<real>, vector: Seq<real>, factor: real) -> bool {
    &&& result.len() == vector.len()
    &&& forall|i: int| 0 <= i < vector.len() ==> #[trigger] result[i] == vector[i] * factor
}

/// Whether the first nonzero entry, if any, is positive.
pub open spec fn leads_positive(values: Seq<real>) -> bool {
    forall|i: int| 0 <= i < values.len() && values[i] != 0real && (forall|j: int| 0 <= j < i ==> #[trigger] values[j] == 0real)
        ==> #[trigger] values[i] > 0real
}

/// Whether a real is an integer.
pub open spec fn is_whole(x: real) -> bool {
    exists|k: int| #[trigger] int_value(k) == x
}

/// Whether every entry of `values` over `c` is an integer.
pub open spec fn divides_all(c: int, values: Seq<real>) -> bool {
    forall|j: int| 0 <= j < values.len() ==> is_whole(#[trigger] values[j] / int_value(c))
}

/// Integer entries that no integer above one divides together.
pub open spec fn primitive_integers(values: Seq<real>) -> bool {
    &&& forall|j: int| 0 <= j < values.len() ==> is_whole(#[trigger] values[j])
    &&& forall|c: int| c > 1 ==> !#[trigger] divides_all(c, values)
}

/// Whether `c` is positive and divides the numerators of the first `n` values.
spec fn common_divisor(c: int, values: Seq<Rational>, n: int) -> bool {
    &&& c > 0
    &&& forall|j: int| 0 <= j < n ==> abs_int((#[trigger] values[j]).numerator()) as int % c == 0
}

/// Values stored as integers over one, whose numerators have no common
/// divisor above one, are primitive integers.
proof fn lemma_primitive_integers(values: Seq<Rational>)
    requires
        forall|j: int| 0 <= j < values.len() ==> (#[trigger] values[j]).denominator() == 1
            && values[j]@ == int_value(values[j].numerator()),
        forall|c: int| #[trigger] common_divisor(c, values, values.len() as int) ==> c == 1,
    ensures
        primitive_integers(reals(values)),
{
    let v = reals(values);
    assert forall|j: int| 0 <= j < v.len() implies is_whole(#[trigger] v[j]) by {
        assert(int_value(values[j].numerator()) == v[j]);
    }
    assert forall|c: int| c > 1 implies !#[trigger] divides_all(c, v) by {
        if divides_all(c, v) {
            assert forall|j: int| 0 <= j < values.len() implies abs_int((#[trigger] values[j]).numerator()) as int % c == 0 by {
                assert(is_whole(v[j] / int_value(c)));
                let k = choose|k: int| #[trigger] int_value(k) == v[j] / int_value(c);
                let n = values[j].numerator();
                assert(n == k * c) by (nonlinear_arith)
                    requires
                        c > 1,
                        k as real == n as real / c as real,
                ;
                assert(abs_int(n) as int == abs_int(k) as int * c) by (nonlinear_arith)
                    requires
                        n == k * c,
                        c > 1,
                        abs_int(n) as int == (if n < 0 { -n } else { n }),
                        abs_int(k) as int == (if k < 0 { -k } else { k }),
                ;
                lemma_multiple_divides(abs_int(n) as int, abs_int(k) as int, c);
            }
            assert(common_divisor(c, values, values.len() as int));
        }
    }
}

/// The vector scaled to integers with no common divisor and a positive
/// leading entry: multiplied by the least common multiple of its
/// denominators, divided by the greatest common divisor of the results, and
/// negated when the first nonzero entry is negative.
#[verifier::rlimit(40)]
fn primitive_integer_vector(vector: &Vec<Rational>) -> (result: Vec<Rational>)
    ensures
        exists|factor: real| factor != 0real && #[trigger] scaled_copy(reals(result@), reals(vector@), factor),
        leads_positive(reals(result@)),
        nonzero_vector(reals(vector@)) ==> primitive_integers(reals(result@)),
{
    let mut multiple = Rational::one();
    let mut i: usize = 0;
    while i < vector.len()
        invariant
            i <= vector@.len(),
            multiple.denominator() == 1,
            multiple.numerator() > 0,
            forall|j: int| 0 <= j < i ==> (#[trigger] vector@[j]).denominator() > 0
                && multiple.numerator() % vector@[j].denominator() == 0,
        decreases vector.len() - i,
    {
        let denominator = vector[i].denominator_value();
        let ghost previous = multiple.numerator();
        multiple = integer_lcm(&multiple, &denominator);
        proof {
            assert forall|j: int| 0 <= j < i + 1 implies (#[trigger] vector@[j]).denominator() > 0
                && multiple.numerator() % vector@[j].denominator() == 0 by {
                if j < i {
                    lemma_divides_transitive(multiple.numerator(), previous, vector@[j].denominator());
                }
            }
        }
        i += 1;
    }
    multiple.check_sign();
    multiple.check_fraction();
    proof {
        let n = multiple.numerator();
        assert(n as real / 1int as real == n as real) by (nonlinear_arith);
    }
    let mut integers: Vec<Rational> = Vec::new();
    let mut divisor = Rational::zero();
    let mut i: usize = 0;
    while i < vector.len()
        invariant
            i <= vector@.len(),
            multiple@ > 0real,
            multiple.denominator() == 1,
            multiple@ == multiple.numerator() as real,
            forall|j: int| 0 <= j < vector@.len() ==> (#[trigger] vector@[j]).denominator() > 0
                && multiple.numerator() % vector@[j].denominator() == 0,
            integers@.len() == i,
            forall|j: int| 0 <= j < i ==> (#[trigger] integers@[j])@ == vector@[j]@ * multiple@,
            forall|j: int| 0 <= j < i ==> (#[trigger] integers@[j]).denominator() == 1
                && integers@[j]@ == int_value(integers@[j].numerator()),
            divisor.denominator() == 1,
            divisor.numerator() >= 0,
            (exists|j: int| 0 <= j < i && (#[trigger] integers@[j])@ != 0real) ==> divisor.numerator() > 0,
            divisor.numerator() == 0 ==> forall|j: int| 0 <= j < i ==> (#[trigger] integers@[j]).numerator() == 0,
            divisor.numerator() > 0 ==> forall|j: int| 0 <= j < i ==> abs_int((#[trigger] integers@[j]).numerator()) as int
                % divisor.numerator() == 0,
            forall|c: int| #[trigger] common_divisor(c, integers@, i as int) ==> divisor.numerator() % c == 0,
        decreases vector.len() - i,
    {
        let value = vector[i].mul(&multiple);
        value.check_sign();
        value.check_fraction();
        vector[i].check_fraction();
        proof {
            let n = vector@[i as int].numerator();
            let d = vector@[i as int].denominator();
            let m = multiple.numerator();
            lemma_fundamental_div_mod(m, d);
            let q = m / d;
            assert(m == d * q);
            assert(value@ == int_value(n * q)) by {
                assert((n as real / d as real) * (m as real) == (n * q) as real) by (nonlinear_arith)
                    requires
                        d > 0,
                        m == d * q,
                ;
            }
        }
        let ghost previous = divisor.numerator();
        let ghost earlier = integers@;
        divisor = numerator_gcd(&divisor, &value);
        let ghost x = abs_int(value.numerator());
        proof {
            if value@ != 0real || previous > 0 {
                lemma_gcd_positive(abs_int(previous), x);
            }
            assert(abs_int(previous) == previous);
        }
        integers.push(value);
        proof {
            let g = divisor.numerator();
            if g > 0 {
                lemma_gcd_divides(abs_int(previous), x);
                assert forall|j: int| 0 <= j < i + 1 implies abs_int((#[trigger] integers@[j]).numerator()) as int % g == 0 by {
                    if j < i {
                        assert(integers@[j] == earlier[j]);
                        if previous > 0 {
                            lemma_divides_transitive(abs_int(earlier[j].numerator()) as int, previous, g);
                        } else {
                            lemma_multiple_divides(0, 0, g);
                        }
                    }
                }
            } else {
                assert(x == 0) by {
                    if x > 0 {
                        lemma_gcd_positive(abs_int(previous), x);
                    }
                }
                assert(previous == 0) by {
                    if previous > 0 {
                        lemma_gcd_positive(abs_int(previous), x);
                    }
                }
                assert forall|j: int| 0 <= j < i + 1 implies (#[trigger] integers@[j]).numerator() == 0 by {
                    if j < i {
                        assert(integers@[j] == earlier[j]);
                    }
                }
            }
            assert forall|c: int| #[trigger] common_divisor(c, integers@, i + 1) implies g % c == 0 by {
                assert forall|j: int| 0 <= j < i implies abs_int((#[trigger] earlier[j]).numerator()) as int % c == 0 by {
                    assert(integers@[j] == earlier[j]);
                }
                assert(common_divisor(c, earlier, i as int));
                assert(integers@[i as int] == value);
                lemma_gcd_greatest(abs_int(previous), x, c);
            }
            assert forall|j: int| 0 <= j < i + 1 implies (#[trigger] integers@[j])@ == vector@[j]@ * multiple@ by {
                if j < i {
                    assert(integers@[j] == earlier[j]);
                }
            }
            assert forall|j: int| 0 <= j < i + 1 implies (#[trigger] integers@[j]).denominator() == 1
                && integers@[j]@ == int_value(integers@[j].numerator()) by {
                if j < i {
                    assert(integers@[j] == earlier[j]);
                }
            }
            if exists|j: int| 0 <= j < i + 1 && (#[trigger] integers@[j])@ != 0real {
                let j = choose|j: int| 0 <= j < i + 1 && (#[trigger] integers@[j])@ != 0real;
                if j < i {
                    assert(integers@[j] == earlier[j]);
                    assert(previous > 0);
                }
                lemma_gcd_positive(abs_int(previous), x);
            }
        }
        i += 1;
    }
    divisor.check_sign();
    divisor.check_fraction();
    proof {
        let n = divisor.numerator();
        assert(n as real / 1int as real == n as real) by (nonlinear_arith);
    }
    let mut reduced: Vec<Rational> = Vec::new();
    let ghost mut factor: real = multiple@;
    if divisor.is_zero() {
        reduced = integers;
        proof {
            assert forall|j: int| 0 <= j < reduced@.len() implies #[trigger] reduced@[j]@ == vector@[j]@ * factor by {
            }
        }
    } else {
        let mut i: usize = 0;
        while i < integers.len()
            invariant
                i <= integers@.len(),
                integers@.len() == vector@.len(),
                divisor@ != 0real,
                divisor.numerator() > 0,
                divisor@ == divisor.numerator() as real,
                reduced@.len() == i,
                forall|j: int| 0 <= j < integers@.len() ==> (#[trigger] integers@[j])@ == vector@[j]@ * multiple@,
                forall|j: int| 0 <= j < integers@.len() ==> (#[trigger] integers@[j]).denominator() == 1
                    && integers@[j]@ == int_value(integers@[j].numerator())
                    && abs_int(integers@[j].numerator()) as int % divisor.numerator() == 0,
                forall|j: int| 0 <= j < i ==> (#[trigger] reduced@[j])@ == vector@[j]@ * (multiple@ / divisor@),
                forall|j: int| 0 <= j < i ==> (#[trigger] reduced@[j]).denominator() == 1
                    && reduced@[j]@ == int_value(reduced@[j].numerator())
                    && abs_int(integers@[j].numerator()) as int == divisor.numerator() * abs_int(reduced@[j].numerator()) as int,
            decreases integers.len() - i,
        {
            let value = integers[i].div(&divisor);
            value.check_fraction();
            proof {
                let v = vector@[i as int]@;
                let m = multiple@;
                let g = divisor@;
                assert((v * m) / g == v * (m / g)) by (nonlinear_arith)
                    requires
                        g != 0real,
                ;
                let n = integers@[i as int].numerator();
                let gi = divisor.numerator();
                let a = abs_int(n) as int;
                lemma_fundamental_div_mod(a, gi);
                let q = a / gi;
                let k = if n < 0 { -q } else { q };
                assert(n == k * gi) by (nonlinear_arith)
                    requires
                        a == gi * q,
                        a == (if n < 0 { -n } else { n }),
                        k == (if n < 0 { -q } else { q }),
                ;
                assert(value@ == int_value(k)) by {
                    assert((n as real) / (gi as real) == k as real) by (nonlinear_arith)
                        requires
                            gi > 0,
                            n == k * gi,
                    ;
                }
                assert(q >= 0) by (nonlinear_arith)
                    requires
                        a >= 0,
                        gi > 0,
                        a == gi * q,
                ;
                assert(abs_int(k) as int == q);
            }
            reduced.push(value);
            i += 1;
        }
        proof {
            factor = multiple@ / divisor@;
            let m = multiple@;
            let g = divisor@;
            assert(m / g != 0real) by (nonlinear_arith)
                requires
                    m > 0real,
                    g != 0real,
            ;
        }
    }
    // The sign of the first nonzero entry.
    let mut first: usize = 0;
    while first < reduced.len() && reduced[first].is_zero()
        invariant
            first <= reduced@.len(),
            forall|j: int| 0 <= j < first ==> (#[trigger] reduced@[j])@ == 0real,
        decreases reduced.len() - first,
    {
        first += 1;
    }
    let negate = first < reduced.len() && reduced[first].is_negative();
    let mut result: Vec<Rational> = Vec::new();
    let mut i: usize = 0;
    while i < reduced.len()
        invariant
            i <= reduced@.len(),
            result@.len() == i,
            forall|j: int| 0 <= j < i ==> (#[trigger] result@[j])@ == if negate { -reduced@[j]@ } else { reduced@[j]@ },
            forall|j: int| 0 <= j < i ==> (#[trigger] reduced@[j]).denominator() == 1 ==> result@[j].denominator() == 1
                && result@[j]@ == int_value(result@[j].numerator())
                && abs_int(result@[j].numerator()) == abs_int(reduced@[j].numerator()),
        decreases reduced.len() - i,
    {
        let next = if negate {
            reduced[i].neg()
        } else {
            reduced[i].clone()
        };
        next.check_fraction();
        reduced[i].check_fraction();
        proof {
            if reduced@[i as int].denominator() == 1 {
                let r = reduced@[i as int].numerator();
                assert(r as real / 1int as real == r as real) by (nonlinear_arith);
                assert(reduced@[i as int]@ == r as real);
                if negate {
                    assert(next@ == int_value(-r));
                } else {
                    assert(next@ == int_value(r));
                }
            }
        }
        result.push(next);
        i += 1;
    }
    proof {
        let final_factor = if negate { -factor } else { factor };
        assert(reduced@.len() == vector@.len());
        assert forall|j: int| 0 <= j < vector@.len() implies #[trigger] reals(result@)[j] == reals(vector@)[j] * final_factor by {
            assert(reals(result@)[j] == result@[j]@);
            assert(reals(vector@)[j] == vector@[j]@);
            let v = vector@[j]@;
            assert(reduced@[j]@ == v * factor);
            assert(-(v * factor) == v * (-factor)) by (nonlinear_arith);
        }
        assert(final_factor != 0real);
        assert(scaled_copy(reals(result@), reals(vector@), final_factor));
        assert forall|i: int| 0 <= i < reals(result@).len() && reals(result@)[i] != 0real && (forall|j: int| 0 <= j < i ==> #[trigger] reals(result@)[j] == 0real)
            implies #[trigger] reals(result@)[i] > 0real by {
            assert(reals(result@)[i] == result@[i]@);
            if i < first {
                assert(reduced@[i]@ == 0real);
            } else if first < i {
                assert(reals(result@)[first as int] == result@[first as int]@);
                assert(reduced@[first as int]@ != 0real);
            }
        }
        if nonzero_vector(reals(vector@)) {
            let c0 = choose|c: int| 0 <= c < reals(vector@).len() && reals(vector@)[c] != 0real;
            assert(vector@[c0]@ != 0real);
            assert(integers@.len() == vector@.len());
            assert(integers@[c0]@ != 0real) by {
                assert(integers@[c0]@ == vector@[c0]@ * multiple@);
                assert(vector@[c0]@ * multiple@ != 0real) by (nonlinear_arith)
                    requires
                        vector@[c0]@ != 0real,
                        multiple@ > 0real,
                ;
            }
            assert(divisor.numerator() > 0);
            let g = divisor.numerator();
            assert forall|c: int| #[trigger] common_divisor(c, result@, result@.len() as int) implies c == 1 by {
                let gc = g * c;
                assert(gc > 0) by (nonlinear_arith)
                    requires
                        gc == g * c,
                        g > 0,
                        c > 0,
                ;
                assert forall|j: int| 0 <= j < integers@.len() implies abs_int((#[trigger] integers@[j]).numerator()) as int % gc == 0 by {
                    let r = abs_int(reduced@[j].numerator()) as int;
                    assert(abs_int(result@[j].numerator()) as int % c == 0);
                    lemma_fundamental_div_mod(r, c);
                    let t = r / c;
                    assert(abs_int(integers@[j].numerator()) as int == t * gc) by (nonlinear_arith)
                        requires
                            abs_int(integers@[j].numerator()) as int == g * r,
                            r == c * t + r % c,
                            r % c == 0,
                            gc == g * c,
                    ;
                    lemma_multiple_divides(abs_int(integers@[j].numerator()) as int, t, gc);
                }
                assert(common_divisor(gc, integers@, integers@.len() as int));
                assert(g % gc == 0);
                lemma_fundamental_div_mod(g, gc);
                let u = g / gc;
                assert(c == 1) by (nonlinear_arith)
                    requires
                        g == gc * u,
                        gc == g * c,
                        g > 0,
                        c > 0,
                ;
            }
            assert forall|j: int| 0 <= j < result@.len() implies (#[trigger] result@[j]).denominator() == 1
                && result@[j]@ == int_value(result@[j].numerator()) by {
                assert(reduced@[j].denominator() == 1);
            }
            lemma_primitive_integers(result@);
        }
    }
    result
}

/// Whether `values[end]` is the last nonzero entry.
pub open spec fn ends_at(values: Seq<real>, end: int) -> bool {
    &&& 0 <= end < values.len()
    &&& values[end] != 0real
    &&& forall|c: int| end < c < values.len() ==> #[trigger] values[c] == 0real
}

/// The vectors end at `ends`, in strictly increasing order, and each vector
/// is zero where any other ends.
pub open spec fn echelon_ends(vectors: Seq<Seq<real>>, ends: Seq<int>) -> bool {
    &&& ends.len() == vectors.len()
    &&& forall|b: int| 0 <= b < vectors.len() ==> #[trigger] ends_at(vectors[b], ends[b])
    &&& forall|a: int, b: int| 0 <= a < b < ends.len() ==> #[trigger] ends[a] < #[trigger] ends[b]
    &&& forall|a: int, b: int| 0 <= a < vectors.len() && 0 <= b < vectors.len() && a != b ==> #[trigger] vectors[a][ends[b]] == 0real
}

/// Whether the vectors form a reduced echelon basis: ordered by where their
/// last nonzero entries stand, each zero where any other ends.
pub open spec fn echelon_basis(vectors: Seq<Seq<real>>) -> bool {
    exists|ends: Seq<int>| #[trigger] echelon_ends(vectors, ends)
}

/// Whether some entry is nonzero.
pub open spec fn nonzero_vector(values: Seq<real>) -> bool {
    exists|c: int| 0 <= c < values.len() && values[c] != 0real
}

/// The solution of reduced rows that is one at free column `free`, the
/// negated pivot-row entries of that column at the pivot columns, and zero
/// elsewhere.
fn free_vector(rows: &Vec<Vec<Rational>>, pivots: &Vec<usize>, free: usize, width: usize) -> (result: Vec<Rational>)
    requires
        rows_of_width(rows@, width as nat),
        reduced(row_values(rows@), pivots@, width as int),
        free < width,
        forall|k: int| 0 <= k < pivots@.len() ==> #[trigger] pivots@[k] != free,
    ensures
        result@.len() == width,
        reals(result@)[free as int] == 1real,
        forall|k: int| 0 <= k < pivots@.len() ==> #[trigger] reals(result@)[pivots@[k] as int] == -row_values(rows@)[k][free as int],
        forall|c: int| 0 <= c < width && c != free && !pivot_column(pivots@, c) ==> #[trigger] reals(result@)[c] == 0real,
        forall|c: int| free < c < width ==> #[trigger] reals(result@)[c] == 0real,
        solves(row_values(rows@), reals(result@), width as int),
{
    let ghost values = row_values(rows@);
    let ghost zero = Seq::new(width as nat, |c: int| 0real);
    let mut vector = unit_vector(width, free);
    proof {
        assert(reals(vector@) =~= zero.update(free as int, 1real));
        assert forall|r: int| 0 <= r < values.len() implies #[trigger] dot(values[r], reals(vector@), width as int) == values[r][free as int] by {
            lemma_dot_zero_vector(values[r], zero, width as int);
            lemma_dot_update(values[r], zero, free as int, 1real, width as int);
            let v = values[r][free as int];
            assert(v * (1real - 0real) == v) by (nonlinear_arith);
        }
    }
    let mut k: usize = 0;
    while k < pivots.len()
        invariant
            values == row_values(rows@),
            rows_of_width(rows@, width as nat),
            reduced(values, pivots@, width as int),
            free < width,
            forall|j: int| 0 <= j < pivots@.len() ==> #[trigger] pivots@[j] != free,
            k <= pivots@.len(),
            vector@.len() == width,
            reals(vector@)[free as int] == 1real,
            forall|j: int| k <= j < pivots@.len() ==> #[trigger] reals(vector@)[pivots@[j] as int] == 0real,
            forall|j: int| 0 <= j < k ==> #[trigger] reals(vector@)[pivots@[j] as int] == -values[j][free as int],
            forall|c: int| 0 <= c < width && c != free && !pivot_column(pivots@, c) ==> #[trigger] reals(vector@)[c] == 0real,
            forall|r: int| 0 <= r < values.len() ==> #[trigger] dot(values[r], reals(vector@), width as int) == values[r][free as int]
                - if r < k { values[r][free as int] } else { 0real },
        decreases pivots.len() - k,
    {
        let column = pivots[k];
        proof {
            assert(k < values.len());
            assert(values[k as int] == reals(rows@[k as int]@));
        }
        let value = rows[k][free].neg();
        let ghost before = reals(vector@);
        vector.set(column, value);
        proof {
            assert(reals(vector@) =~= before.update(column as int, -values[k as int][free as int]));
            assert forall|r: int| 0 <= r < values.len() implies #[trigger] dot(values[r], reals(vector@), width as int) == values[r][free as int]
                - if r < k + 1 { values[r][free as int] } else { 0real } by {
                lemma_dot_update(values[r], before, column as int, -values[k as int][free as int], width as int);
                assert(before[column as int] == 0real);
                let entry = values[r][column as int];
                let w = -values[k as int][free as int];
                if r == k {
                    assert(entry == 1real);
                    assert(entry * (w - 0real) == w) by (nonlinear_arith)
                        requires
                            entry == 1real,
                    ;
                } else {
                    assert(entry == 0real);
                    assert(entry * (w - 0real) == 0real) by (nonlinear_arith)
                        requires
                            entry == 0real,
                    ;
                }
            }
            assert forall|j: int| k + 1 <= j < pivots@.len() implies #[trigger] reals(vector@)[pivots@[j] as int] == 0real by {
                assert(pivots@[k as int] < pivots@[j]);
            }
            assert forall|j: int| 0 <= j < k + 1 implies #[trigger] reals(vector@)[pivots@[j] as int] == -values[j][free as int] by {
                if j < k {
                    assert(pivots@[j] < pivots@[k as int]);
                }
            }
            assert forall|c: int| 0 <= c < width && c != free && !pivot_column(pivots@, c) implies #[trigger] reals(vector@)[c]
                == 0real by {
                assert(c != pivots@[k as int]);
                assert(before[c] == 0real);
            }
        }
        k += 1;
    }
    proof {
        assert forall|r: int| 0 <= r < values.len() implies #[trigger] dot(values[r], reals(vector@), width as int) == 0real by {
            if r >= pivots@.len() {
                assert(values[r][free as int] == 0real);
            }
        }
        assert forall|c: int| free < c < width implies #[trigger] reals(vector@)[c] == 0real by {
            if pivot_column(pivots@, c) {
                let j = choose|j: int| 0 <= j < pivots@.len() && pivots@[j] == c;
                assert(reals(vector@)[pivots@[j] as int] == -values[j][free as int]);
                assert(values[j][free as int] == 0real);
            }
        }
    }
    vector
}

/// `weights[0]·vectors[0][c] + ... + weights[count - 1]·vectors[count - 1][c]`.
pub open spec fn combination(vectors: Seq<Seq<real>>, weights: Seq<real>, c: int, count: int) -> real
    decreases count,
{
    if count <= 0 {
        0real
    } else {
        combination(vectors, weights, c, count - 1) + weights[count - 1] * vectors[count - 1][c]
    }
}

/// Whether every solution of the rows over the first `width` columns is a
/// combination of the vectors.
pub open spec fn spans(rows: Seq<Seq<real>>, vectors: Seq<Seq<real>>, width: int) -> bool {
    forall|x: Seq<real>|
        x.len() == width && #[trigger] solves(rows, x, width) ==> exists|weights: Seq<real>|
            #![trigger weights.len()]
            weights.len() == vectors.len() && forall|c: int|
                0 <= c < width ==> x[c] == #[trigger] combination(vectors, weights, c, vectors.len() as int)
}

/// Whether the only combination of the vectors that vanishes on the first
/// `width` columns is the one with every weight zero.
pub open spec fn independent(vectors: Seq<Seq<real>>, width: int) -> bool {
    forall|weights: Seq<real>|
        weights.len() == vectors.len() && (forall|c: int|
            0 <= c < width ==> #[trigger] combination(vectors, weights, c, vectors.len() as int) == 0real) ==> forall|b: int|
            0 <= b < weights.len() ==> #[trigger] weights[b] == 0real
}

/// A combination whose vectors all vanish at `c` vanishes at `c`.
proof fn lemma_combination_zero(vectors: Seq<Seq<real>>, weights: Seq<real>, c: int, count: int)
    requires
        forall|d: int| 0 <= d < count ==> #[trigger] vectors[d][c] == 0real,
    ensures
        combination(vectors, weights, c, count) == 0real,
    decreases count,
{
    if count > 0 {
        lemma_combination_zero(vectors, weights, c, count - 1);
        assert(vectors[count - 1][c] == 0real);
        assert(weights[count - 1] * 0real == 0real) by (nonlinear_arith);
    }
}

/// A combination in which only vector `b` is nonzero at `c` is that vector's
/// weighted entry there.
proof fn lemma_combination_single(vectors: Seq<Seq<real>>, weights: Seq<real>, c: int, b: int, count: int)
    requires
        0 <= b < count,
        forall|d: int| 0 <= d < count && d != b ==> #[trigger] vectors[d][c] == 0real,
    ensures
        combination(vectors, weights, c, count) == weights[b] * vectors[b][c],
    decreases count,
{
    if b == count - 1 {
        lemma_combination_zero(vectors, weights, c, count - 1);
    } else {
        lemma_combination_single(vectors, weights, c, b, count - 1);
        assert(vectors[count - 1][c] == 0real);
        assert(weights[count - 1] * 0real == 0real) by (nonlinear_arith);
    }
}

/// Products with `x - factor·v` combine linearly.
proof fn lemma_dot_vector_combination(row: Seq<real>, x: Seq<real>, v: Seq<real>, out: Seq<real>, factor: real, count: int)
    requires
        forall|i: int| 0 <= i < count ==> #[trigger] out[i] == x[i] - factor * v[i],
    ensures
        dot(row, out, count) == dot(row, x, count) - factor * dot(row, v, count),
    decreases count,
{
    if count > 0 {
        lemma_dot_vector_combination(row, x, v, out, factor, count - 1);
        let dx = dot(row, x, count - 1);
        let dv = dot(row, v, count - 1);
        let r = row[count - 1];
        let xi = x[count - 1];
        let vi = v[count - 1];
        assert(out[count - 1] == xi - factor * vi);
        assert(r * (xi - factor * vi) == r * xi - factor * (r * vi)) by (nonlinear_arith);
        assert(factor * (dv + r * vi) == factor * dv + factor * (r * vi)) by (nonlinear_arith);
    }
}

/// What is left of `x` after taking away the first `count` weighted vectors.
pub open spec fn residual(x: Seq<real>, vectors: Seq<Seq<real>>, weights: Seq<real>, count: int) -> Seq<real> {
    Seq::new(x.len(), |c: int| x[c] - combination(vectors, weights, c, count))
}

/// Taking solutions away from a solution leaves a solution.
proof fn lemma_residual_solves(rows: Seq<Seq<real>>, x: Seq<real>, vectors: Seq<Seq<real>>, weights: Seq<real>, width: int, count: int)
    requires
        x.len() == width,
        solves(rows, x, width),
        forall|b: int| 0 <= b < count ==> solves(rows, #[trigger] vectors[b], width),
    ensures
        solves(rows, residual(x, vectors, weights, count), width),
    decreases count,
{
    if count > 0 {
        lemma_residual_solves(rows, x, vectors, weights, width, count - 1);
        let before = residual(x, vectors, weights, count - 1);
        let after = residual(x, vectors, weights, count);
        let v = vectors[count - 1];
        let factor = weights[count - 1];
        assert(solves(rows, v, width));
        assert forall|r: int| 0 <= r < rows.len() implies #[trigger] dot(rows[r], after, width) == 0real by {
            assert forall|i: int| 0 <= i < width implies #[trigger] after[i] == before[i] - factor * v[i] by {}
            lemma_dot_vector_combination(rows[r], before, v, after, factor, width);
            assert(dot(rows[r], before, width) == 0real);
            let dv = dot(rows[r], v, width);
            assert(dv == 0real);
            assert(factor * dv == 0real) by (nonlinear_arith)
                requires
                    dv == 0real,
            ;
        }
    } else {
        assert(residual(x, vectors, weights, count) =~= x);
    }
}

/// A product whose terms all vanish but the one at `p` is that term.
proof fn lemma_dot_single(row: Seq<real>, x: Seq<real>, p: int, count: int)
    requires
        0 <= p < count,
        forall|i: int| #![trigger x[i]] 0 <= i < count && i != p ==> row[i] * x[i] == 0real,
    ensures
        dot(row, x, count) == row[p] * x[p],
    decreases count,
{
    if count > 0 {
        if p == count - 1 {
            lemma_dot_zero_terms(row, x, count - 1);
        } else {
            lemma_dot_single(row, x, p, count - 1);
            assert(row[count - 1] * x[count - 1] == 0real);
        }
    }
}

/// A product whose terms all vanish is zero.
proof fn lemma_dot_zero_terms(row: Seq<real>, x: Seq<real>, count: int)
    requires
        forall|i: int| #![trigger x[i]] 0 <= i < count ==> row[i] * x[i] == 0real,
    ensures
        dot(row, x, count) == 0real,
    decreases count,
{
    if count > 0 {
        lemma_dot_zero_terms(row, x, count - 1);
        assert(row[count - 1] * x[count - 1] == 0real);
    }
}

/// A solution of reduced rows that vanishes on every free column vanishes.
proof fn lemma_free_zero(rows: Seq<Seq<real>>, pivots: Seq<usize>, z: Seq<real>, width: int)
    requires
        reduced(rows, pivots, width),
        z.len() == width,
        solves(rows, z, width),
        forall|c: int| 0 <= c < width && !pivot_column(pivots, c) ==> #[trigger] z[c] == 0real,
    ensures
        forall|c: int| 0 <= c < width ==> #[trigger] z[c] == 0real,
{
    assert forall|c: int| 0 <= c < width implies #[trigger] z[c] == 0real by {
        if pivot_column(pivots, c) {
            let k = choose|k: int| 0 <= k < pivots.len() && pivots[k] == c;
            assert(rows[k][c] == 1real);
            assert forall|i: int| #![trigger z[i]] 0 <= i < width && i != c implies rows[k][i] * z[i] == 0real by {
                if pivot_column(pivots, i) {
                    let j = choose|j: int| 0 <= j < pivots.len() && pivots[j] == i;
                    assert(j != k);
                    assert(rows[k][pivots[j] as int] == 0real);
                    assert(0real * z[i] == 0real) by (nonlinear_arith);
                } else {
                    assert(z[i] == 0real);
                    assert(rows[k][i] * 0real == 0real) by (nonlinear_arith);
                }
            }
            lemma_dot_single(rows[k], z, c, width);
            assert(dot(rows[k], z, width) == 0real);
            assert(1real * z[c] == z[c]) by (nonlinear_arith);
        }
    }
}

/// A basis of the solutions of the rows: one vector per free column, scaled
/// to primitive integers.
fn nullspace_basis(rows: Vec<Vec<Rational>>, width: usize) -> (result: Vec<Vec<Rational>>)
    requires
        rows_of_width(rows@, width as nat),
    ensures
        forall|b: int| 0 <= b < result@.len() ==> (#[trigger] result@[b])@.len() == width,
        forall|b: int| 0 <= b < result@.len() ==> solves(row_values(rows@), reals((#[trigger] result@[b])@), width as int),
        forall|b: int| 0 <= b < result@.len() ==> nonzero_vector(reals((#[trigger] result@[b])@)),
        forall|b: int| 0 <= b < result@.len() ==> leads_positive(reals((#[trigger] result@[b])@)),
        forall|b: int| 0 <= b < result@.len() ==> primitive_integers(reals((#[trigger] result@[b])@)),
        echelon_basis(row_values(result@)),
        spans(row_values(rows@), row_values(result@), width as int),
        independent(row_values(result@), width as int),
{
    let ghost original = row_values(rows@);
    let (reduced_rows, pivots) = reduce(rows, width);
    let ghost echelon = row_values(reduced_rows@);
    let mut basis: Vec<Vec<Rational>> = Vec::new();
    let ghost mut frees: Seq<int> = Seq::empty();
    let ghost mut factors: Seq<real> = Seq::empty();
    let ghost mut units: Seq<Seq<real>> = Seq::empty();
    let mut free: usize = 0;
    while free < width
        invariant
            rows_of_width(reduced_rows@, width as nat),
            echelon == row_values(reduced_rows@),
            reduced(echelon, pivots@, width as int),
            forall|x: Seq<real>| #[trigger] solves(echelon, x, width as int) ==> solves(original, x, width as int),
            forall|x: Seq<real>| #[trigger] solves(original, x, width as int) ==> solves(echelon, x, width as int),
            free <= width,
            forall|b: int| 0 <= b < basis@.len() ==> (#[trigger] basis@[b])@.len() == width,
            forall|b: int| 0 <= b < basis@.len() ==> solves(original, reals((#[trigger] basis@[b])@), width as int),
            forall|b: int| 0 <= b < basis@.len() ==> nonzero_vector(reals((#[trigger] basis@[b])@)),
            forall|b: int| 0 <= b < basis@.len() ==> leads_positive(reals((#[trigger] basis@[b])@)),
            forall|b: int| 0 <= b < basis@.len() ==> primitive_integers(reals((#[trigger] basis@[b])@)),
            frees.len() == basis@.len(),
            factors.len() == basis@.len(),
            units.len() == basis@.len(),
            forall|b: int| 0 <= b < frees.len() ==> 0 <= #[trigger] frees[b] < free && !pivot_column(pivots@, frees[b]),
            forall|b: int, d: int| 0 <= b < d < frees.len() ==> #[trigger] frees[b] < #[trigger] frees[d],
            forall|c: int| 0 <= c < free && !pivot_column(pivots@, c) ==> exists|b: int| 0 <= b < frees.len() && #[trigger] frees[b] == c,
            forall|b: int| 0 <= b < factors.len() ==> #[trigger] factors[b] != 0real,
            forall|b: int|
                0 <= b < units.len() ==> (#[trigger] units[b]).len() == width && units[b][frees[b]] == 1real && forall|c: int|
                    0 <= c < width && c != frees[b] && !pivot_column(pivots@, c) ==> #[trigger] units[b][c] == 0real,
            forall|b: int| 0 <= b < basis@.len() ==> scaled_copy(reals((#[trigger] basis@[b])@), units[b], factors[b]),
            forall|b: int, c: int| 0 <= b < units.len() && frees[b] < c < width ==> #[trigger] units[b][c] == 0real,
        decreases width - free,
    {
        let ghost earlier = frees;
        if !is_pivot(&pivots, free) {
            let vector = free_vector(&reduced_rows, &pivots, free, width);
            let primitive = primitive_integer_vector(&vector);
            proof {
                let factor = choose|factor: real| factor != 0real && #[trigger] scaled_copy(reals(primitive@), reals(vector@), factor);
                let x = reals(vector@);
                let y = reals(primitive@);
                assert(solves(original, x, width as int));
                assert forall|r: int| 0 <= r < original.len() implies #[trigger] dot(original[r], y, width as int) == 0real by {
                    lemma_dot_scaled_vector(original[r], x, y, factor, width as int);
                    let d = dot(original[r], x, width as int);
                    assert(d == 0real);
                    assert(d * factor == 0real) by (nonlinear_arith)
                        requires
                            d == 0real,
                    ;
                }
                assert(y[free as int] == 1real * factor);
                assert(y[free as int] != 0real);
                assert(nonzero_vector(y));
                assert(x[free as int] != 0real);
                assert(nonzero_vector(x));
                assert(primitive_integers(y));
                frees = frees.push(free as int);
                factors = factors.push(factor);
                units = units.push(x);
            }
            basis.push(primitive);
            proof {
                let last = frees.len() - 1;
                assert(frees[last] == free);
                assert forall|b: int| 0 <= b < basis@.len() implies scaled_copy(reals((#[trigger] basis@[b])@), units[b], factors[b]) by {
                    if b < last {
                        assert(basis@[b] == basis@.drop_last()[b]);
                    }
                }
                assert forall|b: int| 0 <= b < basis@.len() implies primitive_integers(reals((#[trigger] basis@[b])@)) by {
                    if b < last {
                        assert(basis@[b] == basis@.drop_last()[b]);
                    }
                }
                assert forall|b: int, c: int| 0 <= b < units.len() && frees[b] < c < width implies #[trigger] units[b][c] == 0real by {
                    if b == last {
                        assert(units[b] == reals(vector@));
                    }
                }
            }
        }
        proof {
            assert forall|c: int| 0 <= c < free + 1 && !pivot_column(pivots@, c) implies exists|b: int|
                0 <= b < frees.len() && #[trigger] frees[b] == c by {
                if c == free {
                    let last = frees.len() - 1;
                    assert(frees[last] == free);
                } else {
                    let b = choose|b: int| 0 <= b < earlier.len() && #[trigger] earlier[b] == c;
                    assert(frees[b] == earlier[b]);
                }
            }
        }
        free += 1;
    }
    proof {
        let vectors = row_values(basis@);
        let count = basis@.len() as int;
        let w = width as int;
        assert forall|b: int, c: int| 0 <= b < count && 0 <= c < w implies #[trigger] vectors[b][c] == units[b][c] * factors[b] by {
            assert(vectors[b] == reals(basis@[b]@));
        }
        assert forall|b: int| 0 <= b < count implies solves(echelon, #[trigger] vectors[b], w) by {
            assert(vectors[b] == reals(basis@[b]@));
        }
        assert forall|b: int, c: int| 0 <= b < count && 0 <= c < w && !pivot_column(pivots@, c) && c != frees[b] implies #[trigger] vectors[b][c]
            == 0real by {
            assert(units[b][c] == 0real);
            assert(0real * factors[b] == 0real) by (nonlinear_arith);
        }
        assert forall|b: int| 0 <= b < count implies #[trigger] vectors[b][frees[b]] == factors[b] by {
            assert(units[b][frees[b]] == 1real);
            assert(1real * factors[b] == factors[b]) by (nonlinear_arith);
        }
        assert forall|x: Seq<real>| x.len() == w && #[trigger] solves(original, x, w) implies exists|weights: Seq<real>|
            #![trigger weights.len()]
            weights.len() == vectors.len() && forall|c: int| 0 <= c < w ==> x[c] == #[trigger] combination(vectors, weights, c, vectors.len() as int) by {
            let weights = Seq::new(count as nat, |b: int| x[frees[b]] / factors[b]);
            assert(solves(echelon, x, w));
            lemma_residual_solves(echelon, x, vectors, weights, w, count);
            let z = residual(x, vectors, weights, count);
            assert forall|c: int| 0 <= c < w && !pivot_column(pivots@, c) implies #[trigger] z[c] == 0real by {
                let b = choose|b: int| 0 <= b < frees.len() && #[trigger] frees[b] == c;
                assert forall|d: int| 0 <= d < count && d != b implies #[trigger] vectors[d][c] == 0real by {
                    if d < b {
                        assert(frees[d] < frees[b]);
                    } else {
                        assert(frees[b] < frees[d]);
                    }
                }
                lemma_combination_single(vectors, weights, c, b, count);
                let s = factors[b];
                let v = x[c];
                assert(vectors[b][c] == s);
                assert((v / s) * s == v) by (nonlinear_arith)
                    requires
                        s != 0real,
                ;
            }
            lemma_free_zero(echelon, pivots@, z, w);
            assert forall|c: int| 0 <= c < w implies x[c] == #[trigger] combination(vectors, weights, c, vectors.len() as int) by {
                assert(z[c] == 0real);
            }
            assert(weights.len() == vectors.len());
        }
        assert forall|b: int| 0 <= b < vectors.len() implies #[trigger] ends_at(vectors[b], frees[b]) by {
            assert(vectors[b] == reals(basis@[b]@));
            assert(vectors[b].len() == w);
            assert(vectors[b][frees[b]] == factors[b]);
            assert forall|c: int| frees[b] < c < vectors[b].len() implies #[trigger] vectors[b][c] == 0real by {
                assert(vectors[b][c] == units[b][c] * factors[b]);
                assert(units[b][c] == 0real);
                assert(0real * factors[b] == 0real) by (nonlinear_arith);
            }
        }
        assert forall|a: int, b: int| 0 <= a < vectors.len() && 0 <= b < vectors.len() && a != b implies #[trigger] vectors[a][frees[b]] == 0real by {
            if a < b {
                assert(frees[a] < frees[b]);
            } else {
                assert(frees[b] < frees[a]);
            }
        }
        assert(echelon_ends(vectors, frees));
        assert forall|weights: Seq<real>|
            weights.len() == vectors.len() && (forall|c: int|
                0 <= c < w ==> #[trigger] combination(vectors, weights, c, vectors.len() as int) == 0real) implies forall|b: int|
            0 <= b < weights.len() ==> #[trigger] weights[b] == 0real by {
            assert forall|b: int| 0 <= b < weights.len() implies #[trigger] weights[b] == 0real by {
                let c = frees[b];
                assert forall|d: int| 0 <= d < count && d != b implies #[trigger] vectors[d][c] == 0real by {
                    if d < b {
                        assert(frees[d] < frees[b]);
                    } else {
                        assert(frees[b] < frees[d]);
                    }
                }
                lemma_combination_single(vectors, weights, c, b, count);
                assert(combination(vectors, weights, c, count) == 0real);
                let s = factors[b];
                let v = weights[b];
                assert(v * s == 0real);
                assert(v == 0real) by (nonlinear_arith)
                    requires
                        v * s == 0real,
                        s != 0real,
                ;
            }
        }
    }
    basis
}


/// The entries of transition `t` across the matrix's axes.
pub open spec fn transition_column(matrix: TransitionMatrix, t: int) -> Seq<real> {
    Seq::new(matrix.axis_ids().len(), |a: int| matrix.rows()[a][t])
}

/// A law's coefficients on the matrix's axes.
pub open spec fn law_coefficients(matrix: TransitionMatrix, law: BalanceLaw) -> Seq<real> {
    Seq::new(matrix.axis_ids().len(), |a: int| law.coefficient_of(matrix.axis_ids()[a]@))
}

/// Whether a law annihilates every transition: for each transition column,
/// the sum over axes of coefficient times entry is zero.
pub open spec fn annihilates(matrix: TransitionMatrix, law: BalanceLaw) -> bool {
    forall|t: int| 0 <= t < matrix.column_count() ==> #[trigger] dot(
        transition_column(matrix, t),
        law_coefficients(matrix, law),
        matrix.axis_ids().len() as int,
    ) == 0real
}

/// Whether a law's nonzero coefficients all lie on the matrix's axes.
pub open spec fn supported_on(matrix: TransitionMatrix, law: BalanceLaw) -> bool {
    forall|axis: Seq<char>| #[trigger] law.coefficient_of(axis) != 0real ==> exists|a: int|
        0 <= a < matrix.axis_ids().len() && matrix.axis_ids()[a]@ == axis
}

/// The matrix's transition columns, each read across the axes.
pub open spec fn transition_rows(matrix: TransitionMatrix) -> Seq<Seq<real>> {
    Seq::new(matrix.column_count(), |t: int| transition_column(matrix, t))
}

/// Each law's coefficients on the matrix's axes.
pub open spec fn law_vectors(matrix: TransitionMatrix, laws: Seq<BalanceLaw>) -> Seq<Seq<real>> {
    Seq::new(laws.len(), |l: int| law_coefficients(matrix, laws[l]))
}

/// Derives a deterministic rational vector-space basis for the left nullspace.
///
/// Each returned rational basis vector is scaled to primitive integer
/// coefficients for stable presentation. The result is not an integer-lattice
/// basis and makes no claim to span every integer solution by integer multiples.
pub fn derive_left_nullspace(matrix: &TransitionMatrix, kind: KindId, source: NullspaceSource) -> (result: Result<
    Vec<BalanceLaw>,
    BalanceLawError,
>)
    ensures
        result is Ok,
        match result {
            Ok(laws) => forall|l: int| 0 <= l < laws@.len() ==> {
                let law = #[trigger] laws@[l];
                &&& law.kind_spec() == kind
                &&& law.provenance_spec() == source_provenance(source)
                &&& annihilates(*matrix, law)
                &&& supported_on(*matrix, law)
                &&& leads_positive(law_coefficients(*matrix, law))
                &&& primitive_integers(law_coefficients(*matrix, law))
            },
            Err(_) => false,
        },
        match result {
            Ok(laws) => {
                &&& spans(transition_rows(*matrix), law_vectors(*matrix, laws@), matrix.axis_ids().len() as int)
                &&& independent(law_vectors(*matrix, laws@), matrix.axis_ids().len() as int)
                &&& echelon_basis(law_vectors(*matrix, laws@))
            },
            Err(_) => false,
        },
{
    matrix.check_shape();
    proof {
        use_type_invariant(matrix);
    }
    let width = matrix.axes.len();
    let count = matrix.transition_count;
    let ghost rows = matrix.rows();
    let mut transpose: Vec<Vec<Rational>> = Vec::new();
    let mut t: usize = 0;
    while t < count
        invariant
            matrix.shaped(),
            rows == matrix.rows(),
            width == matrix.axis_ids().len(),
            count == matrix.column_count(),
            matrix.entries@.len() == width,
            forall|r: int| 0 <= r < width ==> (#[trigger] matrix.entries@[r])@.len() == count,
            t <= count,
            transpose@.len() == t,
            rows_of_width(transpose@, width as nat),
            forall|q: int| 0 <= q < t ==> #[trigger] row_values(transpose@)[q] == transition_column(*matrix, q),
        decreases count - t,
    {
        let mut row: Vec<Rational> = Vec::new();
        let mut a: usize = 0;
        while a < width
            invariant
                rows == matrix.rows(),
                width == matrix.axis_ids().len(),
                count == matrix.column_count(),
                t < count,
                matrix.entries@.len() == width,
                forall|r: int| 0 <= r < width ==> (#[trigger] matrix.entries@[r])@.len() == count,
                a <= width,
                row@.len() == a,
                forall|j: int| 0 <= j < a ==> (#[trigger] row@[j])@ == rows[j][t as int],
            decreases width - a,
        {
            proof {
                assert(rows[a as int] == reals(matrix.entries@[a as int]@));
            }
            row.push(matrix.entries[a][t].clone());
            a += 1;
        }
        let ghost before = transpose@;
        transpose.push(row);
        proof {
            assert(reals(row@) =~= transition_column(*matrix, t as int));
            assert forall|q: int| 0 <= q < t + 1 implies #[trigger] row_values(transpose@)[q] == transition_column(*matrix, q) by {
                if q < t {
                    assert(transpose@[q] == before[q]);
                    assert(row_values(before)[q] == reals(before[q]@));
                }
            }
        }
        t += 1;
    }
    let ghost transposed = row_values(transpose@);
    let basis = nullspace_basis(transpose, width);
    let mut laws: Vec<BalanceLaw> = Vec::new();
    let mut b: usize = 0;
    while b < basis.len()
        invariant
            matrix.shaped(),
            width == matrix.axis_ids().len(),
            count == matrix.column_count(),
            matrix.axes@ == matrix.axis_ids(),
            transposed.len() == count,
            forall|q: int| 0 <= q < count ==> #[trigger] transposed[q] == transition_column(*matrix, q),
            forall|v: int| 0 <= v < basis@.len() ==> (#[trigger] basis@[v])@.len() == width,
            forall|v: int| 0 <= v < basis@.len() ==> solves(transposed, reals((#[trigger] basis@[v])@), width as int),
            forall|v: int| 0 <= v < basis@.len() ==> nonzero_vector(reals((#[trigger] basis@[v])@)),
            forall|v: int| 0 <= v < basis@.len() ==> leads_positive(reals((#[trigger] basis@[v])@)),
            forall|v: int| 0 <= v < basis@.len() ==> primitive_integers(reals((#[trigger] basis@[v])@)),
            spans(transposed, row_values(basis@), width as int),
            independent(row_values(basis@), width as int),
            b <= basis@.len(),
            laws@.len() == b,
            forall|l: int| 0 <= l < b ==> law_coefficients(*matrix, #[trigger] laws@[l]) == reals(basis@[l]@),
            forall|l: int| 0 <= l < b ==> {
                let law = #[trigger] laws@[l];
                &&& law.kind_spec() == kind
                &&& law.provenance_spec() == source_provenance(source)
                &&& annihilates(*matrix, law)
                &&& supported_on(*matrix, law)
                &&& leads_positive(law_coefficients(*matrix, law))
                &&& primitive_integers(law_coefficients(*matrix, law))
            },
        decreases basis.len() - b,
    {
        let vector = &basis[b];
        let mut coefficients: Vec<(AxisId, Rational)> = Vec::new();
        let mut a: usize = 0;
        while a < width
            invariant
                width == matrix.axis_ids().len(),
                matrix.axes@ == matrix.axis_ids(),
                vector@.len() == width,
                a <= width,
                coefficients@.len() == a,
                forall|j: int| 0 <= j < a ==> (#[trigger] coefficients@[j]).0 == matrix.axis_ids()[j] && coefficients@[j].1@
                    == vector@[j]@,
            decreases width - a,
        {
            coefficients.push((matrix.axes[a].clone(), vector[a].clone()));
            a += 1;
        }
        let ghost y = reals(vector@);
        proof {
            assert(strictly_sorted(coefficients@)) by {
                assert forall|i: int, j: int| 0 <= i < j < coefficients@.len() implies text_lt(
                    #[trigger] coefficients@[i].0@,
                    #[trigger] coefficients@[j].0@,
                ) by {
                    assert(coefficients@[i].0 == matrix.axis_ids()[i]);
                    assert(coefficients@[j].0 == matrix.axis_ids()[j]);
                }
            }
            assert forall|j: int| 0 <= j < width implies #[trigger] sum_for(coefficients@, matrix.axis_ids()[j]@) == y[j] by {
                lemma_sum_for_sorted_at(coefficients@, j);
            }
            let c = choose|c: int| 0 <= c < y.len() && y[c] != 0real;
            assert(sum_for(coefficients@, matrix.axis_ids()[c]@) == y[c]);
        }
        match BalanceLaw::new(kind.clone(), coefficients, source.provenance()) {
            Ok(law) => {
                proof {
                    assert(law_coefficients(*matrix, law) =~= y) by {
                        assert forall|j: int| 0 <= j < width implies #[trigger] law_coefficients(*matrix, law)[j] == y[j] by {
                            assert(law.coefficient_of(matrix.axis_ids()[j]@) == sum_for(coefficients@, matrix.axis_ids()[j]@));
                        }
                    }
                    assert forall|t: int| 0 <= t < matrix.column_count() implies #[trigger] dot(
                        transition_column(*matrix, t),
                        law_coefficients(*matrix, law),
                        matrix.axis_ids().len() as int,
                    ) == 0real by {
                        assert(transposed[t] == transition_column(*matrix, t));
                        assert(dot(transposed[t], y, width as int) == 0real);
                    }
                    assert forall|axis: Seq<char>| #[trigger] law.coefficient_of(axis) != 0real implies exists|a: int|
                        0 <= a < matrix.axis_ids().len() && matrix.axis_ids()[a]@ == axis by {
                        if !has_key(coefficients@, axis) {
                            lemma_sum_for_absent(coefficients@, axis);
                        } else {
                            let i = choose|i: int| 0 <= i < coefficients@.len() && #[trigger] coefficients@[i].0@ == axis;
                            assert(matrix.axis_ids()[i]@ == axis);
                        }
                    }
                }
                laws.push(law);
            },
            Err(error) => {
                return Err(error);
            },
        }
        b += 1;
    }
    proof {
        assert(transition_rows(*matrix) =~= transposed);
        assert(law_vectors(*matrix, laws@) =~= row_values(basis@)) by {
            assert forall|l: int| 0 <= l < laws@.len() implies #[trigger] law_vectors(*matrix, laws@)[l] == row_values(basis@)[l] by {
                assert(law_coefficients(*matrix, laws@[l]) == reals(basis@[l]@));
            }
        }
    }
    Ok(laws)
}

} // verus!
