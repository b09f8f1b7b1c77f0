//! Exact evidence for finite-state conservation traces.
use crate::entries::{
    accumulate, find_entry, has_key, lemma_sum_for_absent, lemma_sum_for_sorted_at,
    strictly_sorted, sum_for,
};
use crate::ident::{AxisId, KindId, Named};
use crate::law::{BalanceLaw, Grade, GradedLaw};
use crate::rational::Rational;
use vstd::prelude::*;

verus! {

/// One exact state in a finite trace: a value for each of its axes.
#[derive(Debug, PartialEq, Eq)]
pub struct TraceState {
    values: Vec<(AxisId, Rational)>,
}

/// An error constructing a trace state.
#[derive(Clone, Debug, PartialEq, Eq)]
pub enum TraceStateError {
    /// A state contained no axes.
    Empty,
    /// An axis occurred more than once in the state input.
    DuplicateAxis(AxisId),
}

/// Whether the first `count` inputs name distinct axes.
pub open spec fn distinct_prefix(values: Seq<(AxisId, Rational)>, count: int) -> bool {
    forall|i: int, j: int| 0 <= i < j < count ==> (#[trigger] values[i]).0@ != (#[trigger] values[j]).0@
}

impl TraceState {
    /// The state's values, in axis order.
    pub closed spec fn entries(&self) -> Seq<(AxisId, Rational)> {
        self.values@
    }

    #[verifier::type_invariant]
    closed spec fn canonical(&self) -> bool {
        strictly_sorted(self.values@) && self.values@.len() > 0
    }

    /// Validates and constructs a state from exact axis values.
    pub fn new(values: Vec<(AxisId, Rational)>) -> (result: Result<Self, TraceStateError>)
        ensures
            match result {
                Ok(state) => {
                    &&& values@.len() > 0
                    &&& distinct_prefix(values@, values@.len() as int)
                    &&& forall|axis: Seq<char>| #[trigger]
                        sum_for(state.entries(), axis) == sum_for(values@, axis)
                    &&& forall|axis: Seq<char>| #[trigger]
                        has_key(state.entries(), axis) == has_key(values@, axis)
                },
                Err(TraceStateError::Empty) => values@.len() == 0,
                Err(TraceStateError::DuplicateAxis(axis)) => exists|j: int|
                    0 < j < values@.len() && distinct_prefix(values@, j) && values@[j].0 == axis
                        && has_key(values@.take(j), axis@),
            },
    {
        let mut canonical: Vec<(AxisId, Rational)> = Vec::new();
        let mut index: usize = 0;
        proof {
            assert(values@.take(0) =~= Seq::<(AxisId, Rational)>::empty());
        }
        while index < values.len()
            invariant
                index <= values@.len(),
                strictly_sorted(canonical@),
                distinct_prefix(values@, index as int),
                forall|axis: Seq<char>| #[trigger]
                    sum_for(canonical@, axis) == sum_for(values@.take(index as int), axis),
                forall|axis: Seq<char>| #[trigger]
                    has_key(canonical@, axis) == has_key(values@.take(index as int), axis),
            decreases values.len() - index,
        {
            let ghost prefix = values@.take(index as int);
            let ghost next = values@.take(index + 1);
            proof {
                assert(next.drop_last() =~= prefix);
                assert(next =~= prefix.push(values@[index as int]));
            }
            let found = find_entry(&canonical, &values[index].0);
            if let Some(position) = found {
                let axis = values[index].0.duplicate();
                proof {
                    assert(canonical@[position as int].0@ == axis@);
                    assert(has_key(canonical@, axis@));
                    assert(has_key(prefix, axis@));
                    assert(values@[index as int].0 == axis);
                }
                return Err(TraceStateError::DuplicateAxis(axis));
            }
            let axis = values[index].0.duplicate();
            let amount = values[index].1.clone();
            accumulate(&mut canonical, axis, amount);
            proof {
                assert forall|k: Seq<char>| #[trigger] sum_for(canonical@, k) == sum_for(next, k) by {
                    assert(sum_for(next, k) == sum_for(prefix, k)
                        + crate::entries::contribution(values@[index as int], k));
                }
                assert forall|k: Seq<char>| #[trigger] has_key(canonical@, k) == has_key(next, k) by {
                    if has_key(next, k) {
                        let i = choose|i: int| 0 <= i < next.len() && #[trigger] next[i].0@ == k;
                        if i < index {
                            assert(prefix[i].0@ == k);
                        }
                    }
                    if has_key(prefix, k) {
                        let i = choose|i: int| 0 <= i < prefix.len() && #[trigger] prefix[i].0@ == k;
                        assert(next[i].0@ == k);
                    }
                    if k == values@[index as int].0@ {
                        assert(next[index as int].0@ == k);
                    }
                }
                assert forall|i: int, j: int| 0 <= i < j < index + 1 implies (#[trigger] values@[i]).0@ != (#[trigger] values@[j]).0@ by {
                    if j == index {
                        assert(prefix[i] == values@[i]);
                    }
                }
            }
            index += 1;
        }
        proof {
            assert(values@.take(values@.len() as int) =~= values@);
        }
        if canonical.len() == 0 {
            proof {
                if values@.len() > 0 {
                    assert(values@[0].0@ == values@[0].0@);
                    assert(has_key(values@, values@[0].0@));
                    assert(has_key(canonical@, values@[0].0@));
                }
            }
            return Err(TraceStateError::Empty);
        }
        proof {
            assert(has_key(canonical@, canonical@[0].0@));
        }
        Ok(TraceState { values: canonical })
    }

    /// Returns an exact value when the axis is present.
    pub fn value(&self, axis: &AxisId) -> (result: Option<&Rational>)
        ensures
            result is Some <==> has_key(self.entries(), axis@),
            result matches Some(value) ==> value@ == sum_for(self.entries(), axis@),
    {
        proof {
            use_type_invariant(self);
        }
        match find_entry(&self.values, axis) {
            Some(index) => {
                proof {
                    lemma_sum_for_sorted_at(self.values@, index as int);
                }
                Some(&self.values[index].1)
            },
            None => None,
        }
    }

    /// The state's axes in deterministic order.
    pub fn axes(&self) -> (result: Vec<AxisId>)
        ensures
            result@.len() == self.entries().len(),
            forall|i: int| 0 <= i < result@.len() ==> #[trigger] result@[i] == self.entries()[i].0,
    {
        let mut result: Vec<AxisId> = Vec::new();
        let mut index: usize = 0;
        while index < self.values.len()
            invariant
                index <= self.values@.len(),
                result@.len() == index,
                forall|i: int| 0 <= i < index ==> #[trigger] result@[i] == self.values@[i].0,
            decreases self.values.len() - index,
        {
            result.push(self.values[index].0.duplicate());
            index += 1;
        }
        result
    }
}

/// Whether a state has a value for every axis of the law terms.
pub open spec fn covers(terms: Seq<(AxisId, Rational)>, state: Seq<(AxisId, Rational)>) -> bool {
    forall|i: int| 0 <= i < terms.len() ==> has_key(state, #[trigger] terms[i].0@)
}

/// Exact balance `sum(coefficient * value)` of a state under the law terms.
pub open spec fn weighted(terms: Seq<(AxisId, Rational)>, state: Seq<(AxisId, Rational)>) -> real
    decreases terms.len(),
{
    if terms.len() == 0 {
        0real
    } else {
        weighted(terms.drop_last(), state) + terms.last().1@ * sum_for(state, terms.last().0@)
    }
}

/// The exact balance of state `index`.
pub open spec fn balance_at(law: BalanceLaw, states: Seq<TraceState>, index: int) -> real {
    weighted(law.terms(), states[index].entries())
}

/// Whether state `index` has every axis of the law.
pub open spec fn complete_at(law: BalanceLaw, states: Seq<TraceState>, index: int) -> bool {
    covers(law.terms(), states[index].entries())
}

/// Whether `axis` is the first law axis (in canonical order) that state `index` lacks.
pub open spec fn first_missing(law: BalanceLaw, states: Seq<TraceState>, index: int, axis: AxisId) -> bool {
    exists|j: int|
        0 <= j < law.terms().len() && law.terms()[j].0 == axis && !has_key(states[index].entries(), axis@)
            && forall|m: int| 0 <= m < j ==> has_key(states[index].entries(), #[trigger] law.terms()[m].0@)
}

/// Positive evidence that every checked state has the same exact balance.
#[derive(Debug, PartialEq, Eq)]
pub struct TraceWitness {
    /// Number of states checked, always at least two.
    pub states_checked: usize,
    /// Exact balance shared by every checked state.
    pub conserved_value: Rational,
    /// Kind checked by the law.
    pub kind: KindId,
}

/// Semantic evidence that a structurally valid trace violates a balance law.
#[derive(Debug, PartialEq, Eq)]
pub struct ViolatedBalance {
    /// Index of the first state whose balance differs from the initial state.
    pub state_index: usize,
    /// Exact balance established by the initial state.
    pub expected: Rational,
    /// Exact balance observed at `state_index`.
    pub observed: Rational,
}

/// The semantic outcome of checking a structurally valid trace.
#[derive(Debug, PartialEq, Eq)]
pub enum TraceVerdict {
    /// Every state has the same exact balance.
    Satisfied(TraceWitness),
    /// A state has a different exact balance.
    Violated(ViolatedBalance),
}

/// A structural error that prevents semantic trace checking.
#[derive(Clone, Debug, PartialEq, Eq)]
pub enum TraceError {
    /// At least two states are required to establish and compare a balance.
    TooShort { states: usize },
    /// A state omitted an axis required by the law.
    MissingAxis { state_index: usize, axis: AxisId },
}

/// Evaluates the law's exact balance in one state.
fn evaluate(law: &BalanceLaw, state: &TraceState, state_index: usize) -> (result: Result<
    Rational,
    TraceError,
>)
    ensures
        match result {
            Ok(value) => covers(law.terms(), state.entries()) && value@ == weighted(
                law.terms(),
                state.entries(),
            ),
            Err(TraceError::MissingAxis { state_index: index, axis }) => {
                &&& index == state_index
                &&& exists|j: int|
                    0 <= j < law.terms().len() && law.terms()[j].0 == axis && !has_key(
                        state.entries(),
                        axis@,
                    ) && forall|m: int|
                        0 <= m < j ==> has_key(state.entries(), #[trigger] law.terms()[m].0@)
            },
            Err(TraceError::TooShort { .. }) => false,
        },
{
    let terms = law.coefficients();
    let mut balance = Rational::zero();
    let mut index: usize = 0;
    while index < terms.len()
        invariant
            terms@ == law.terms(),
            index <= terms@.len(),
            forall|m: int| 0 <= m < index ==> has_key(state.entries(), #[trigger] terms@[m].0@),
            balance@ == weighted(terms@.take(index as int), state.entries()),
        decreases terms.len() - index,
    {
        let ghost prefix = terms@.take(index as int);
        proof {
            assert(terms@.take(index + 1).drop_last() =~= prefix);
        }
        match state.value(&terms[index].0) {
            None => {
                return Err(TraceError::MissingAxis { state_index, axis: terms[index].0.duplicate() });
            },
            Some(value) => {
                let term = terms[index].1.mul(value);
                balance = balance.add(&term);
            },
        }
        index += 1;
    }
    proof {
        assert(terms@.take(terms@.len() as int) =~= terms@);
    }
    Ok(balance)
}

/// Checks a finite trace against a law using exact rational arithmetic.
pub fn check_trace(law: &BalanceLaw, states: &[TraceState]) -> (result: Result<TraceVerdict, TraceError>)
    ensures
        (result == Err::<TraceVerdict, TraceError>(TraceError::TooShort { states: states@.len() as usize }))
            <==> states@.len() < 2,
        match result {
            Ok(TraceVerdict::Satisfied(witness)) => {
                &&& states@.len() >= 2
                &&& forall|i: int| 0 <= i < states@.len() ==> complete_at(*law, states@, i)
                &&& forall|i: int| 0 <= i < states@.len() ==> #[trigger] balance_at(*law, states@, i)
                    == balance_at(*law, states@, 0)
                &&& witness.states_checked == states@.len()
                &&& witness.conserved_value@ == balance_at(*law, states@, 0)
                &&& witness.kind == law.kind_spec()
            },
            Ok(TraceVerdict::Violated(violation)) => {
                let k = violation.state_index as int;
                &&& states@.len() >= 2
                &&& 0 < k < states@.len()
                &&& forall|i: int| 0 <= i <= k ==> complete_at(*law, states@, i)
                &&& forall|i: int| 0 <= i < k ==> #[trigger] balance_at(*law, states@, i)
                    == balance_at(*law, states@, 0)
                &&& balance_at(*law, states@, k) != balance_at(*law, states@, 0)
                &&& violation.expected@ == balance_at(*law, states@, 0)
                &&& violation.observed@ == balance_at(*law, states@, k)
            },
            Err(TraceError::MissingAxis { state_index, axis }) => {
                let k = state_index as int;
                &&& states@.len() >= 2
                &&& 0 <= k < states@.len()
                &&& forall|i: int| 0 <= i < k ==> complete_at(*law, states@, i)
                &&& forall|i: int| 0 <= i < k ==> #[trigger] balance_at(*law, states@, i)
                    == balance_at(*law, states@, 0)
                &&& first_missing(*law, states@, k, axis)
            },
            Err(TraceError::TooShort { .. }) => states@.len() < 2,
        },
{
    if states.len() < 2 {
        return Err(TraceError::TooShort { states: states.len() });
    }
    let expected = match evaluate(law, &states[0], 0) {
        Ok(value) => value,
        Err(error) => {
            return Err(error);
        },
    };
    let mut index: usize = 1;
    while index < states.len()
        invariant
            2 <= states@.len(),
            1 <= index <= states@.len(),
            expected@ == balance_at(*law, states@, 0),
            forall|i: int| 0 <= i < index ==> complete_at(*law, states@, i),
            forall|i: int| 0 <= i < index ==> #[trigger] balance_at(*law, states@, i) == balance_at(
                *law,
                states@,
                0,
            ),
        decreases states.len() - index,
    {
        let observed = match evaluate(law, &states[index], index) {
            Ok(value) => value,
            Err(error) => {
                return Err(error);
            },
        };
        if !observed.eq(&expected) {
            return Ok(TraceVerdict::Violated(ViolatedBalance { state_index: index, expected, observed }));
        }
        index += 1;
    }
    Ok(TraceVerdict::Satisfied(TraceWitness {
        states_checked: states.len(),
        conserved_value: expected,
        kind: law.kind().clone(),
    }))
}

/// Positive evidence that a form is never negative along a trace.
#[derive(Debug, PartialEq, Eq)]
pub struct NonnegativeWitness {
    /// Number of states checked, always at least two.
    pub states_checked: usize,
    /// Least exact value observed.
    pub minimum: Rational,
    /// Kind checked by the law.
    pub kind: KindId,
}

/// Positive evidence that a form never decreases along a trace.
#[derive(Debug, PartialEq, Eq)]
pub struct NondecreasingWitness {
    /// Number of states checked, always at least two.
    pub states_checked: usize,
    /// Exact value of the first state.
    pub initial: Rational,
    /// Exact value of the last state.
    pub last: Rational,
    /// Kind checked by the law.
    pub kind: KindId,
}

/// Positive evidence for a graded law.
#[derive(Debug, PartialEq, Eq)]
pub enum LawWitness {
    /// The form kept one exact value.
    Invariant(TraceWitness),
    /// The form stayed at or above zero.
    Nonnegative(NonnegativeWitness),
    /// The form never decreased.
    Nondecreasing(NondecreasingWitness),
}

/// The first offense against a graded law.
#[derive(Debug, PartialEq, Eq)]
pub enum LawViolation {
    /// A state changed the invariant value.
    Invariant(ViolatedBalance),
    /// A state's value was below zero.
    Negative {
        /// Index of the first negative state.
        state_index: usize,
        /// Its exact value.
        observed: Rational,
    },
    /// A state's value was below its predecessor's.
    Decrease {
        /// Index of the first decreasing state.
        state_index: usize,
        /// Exact value of the preceding state.
        previous: Rational,
        /// Exact value of the decreasing state.
        observed: Rational,
    },
}

/// The semantic outcome of checking a graded law on a structurally valid trace.
#[derive(Debug, PartialEq, Eq)]
pub enum LawVerdict {
    /// The law held in every state.
    Satisfied(LawWitness),
    /// The first offense.
    Violated(LawViolation),
}

/// Whether `result` is what checking `law` on `states` reports: the graded
/// verdict, or the first structural failure.
pub open spec fn law_checked(law: GradedLaw, states: Seq<TraceState>, result: Result<LawVerdict, TraceError>) -> bool {
    ({
            let form = law.form_spec();
            &&& (result == Err::<LawVerdict, TraceError>(TraceError::TooShort { states: states.len() as usize }))
                <==> states.len() < 2
            &&& match result {
                Ok(LawVerdict::Satisfied(LawWitness::Invariant(witness))) => {
                    &&& law.grade_spec() == Grade::Invariant
                    &&& states.len() >= 2
                    &&& forall|i: int| 0 <= i < states.len() ==> complete_at(form, states, i)
                    &&& forall|i: int| 0 <= i < states.len() ==> #[trigger] balance_at(form, states, i)
                        == balance_at(form, states, 0)
                    &&& witness.states_checked == states.len()
                    &&& witness.conserved_value@ == balance_at(form, states, 0)
                    &&& witness.kind == form.kind_spec()
                },
                Ok(LawVerdict::Satisfied(LawWitness::Nonnegative(witness))) => {
                    &&& law.grade_spec() == Grade::Nonnegative
                    &&& states.len() >= 2
                    &&& forall|i: int| 0 <= i < states.len() ==> complete_at(form, states, i)
                    &&& forall|i: int| 0 <= i < states.len() ==> #[trigger] balance_at(form, states, i) >= 0real
                    &&& forall|i: int| 0 <= i < states.len() ==> witness.minimum@ <= #[trigger] balance_at(form, states, i)
                    &&& exists|i: int| 0 <= i < states.len() && witness.minimum@ == #[trigger] balance_at(form, states, i)
                    &&& witness.states_checked == states.len()
                    &&& witness.kind == form.kind_spec()
                },
                Ok(LawVerdict::Satisfied(LawWitness::Nondecreasing(witness))) => {
                    &&& law.grade_spec() == Grade::Nondecreasing
                    &&& states.len() >= 2
                    &&& forall|i: int| 0 <= i < states.len() ==> complete_at(form, states, i)
                    &&& forall|i: int| 0 < i < states.len() ==> balance_at(form, states, i - 1) <= #[trigger] balance_at(form, states, i)
                    &&& witness.initial@ == balance_at(form, states, 0)
                    &&& witness.last@ == balance_at(form, states, states.len() - 1)
                    &&& witness.states_checked == states.len()
                    &&& witness.kind == form.kind_spec()
                },
                Ok(LawVerdict::Violated(LawViolation::Invariant(violation))) => {
                    let k = violation.state_index as int;
                    &&& law.grade_spec() == Grade::Invariant
                    &&& states.len() >= 2
                    &&& 0 < k < states.len()
                    &&& forall|i: int| 0 <= i <= k ==> complete_at(form, states, i)
                    &&& forall|i: int| 0 <= i < k ==> #[trigger] balance_at(form, states, i)
                        == balance_at(form, states, 0)
                    &&& balance_at(form, states, k) != balance_at(form, states, 0)
                    &&& violation.expected@ == balance_at(form, states, 0)
                    &&& violation.observed@ == balance_at(form, states, k)
                },
                Ok(LawVerdict::Violated(LawViolation::Negative { state_index, observed })) => {
                    let k = state_index as int;
                    &&& law.grade_spec() == Grade::Nonnegative
                    &&& states.len() >= 2
                    &&& 0 <= k < states.len()
                    &&& forall|i: int| 0 <= i <= k ==> complete_at(form, states, i)
                    &&& forall|i: int| 0 <= i < k ==> #[trigger] balance_at(form, states, i) >= 0real
                    &&& balance_at(form, states, k) < 0real
                    &&& observed@ == balance_at(form, states, k)
                },
                Ok(LawVerdict::Violated(LawViolation::Decrease { state_index, previous, observed })) => {
                    let k = state_index as int;
                    &&& law.grade_spec() == Grade::Nondecreasing
                    &&& states.len() >= 2
                    &&& 0 < k < states.len()
                    &&& forall|i: int| 0 <= i <= k ==> complete_at(form, states, i)
                    &&& forall|i: int| 0 < i < k ==> balance_at(form, states, i - 1) <= #[trigger] balance_at(form, states, i)
                    &&& balance_at(form, states, k) < balance_at(form, states, k - 1)
                    &&& previous@ == balance_at(form, states, k - 1)
                    &&& observed@ == balance_at(form, states, k)
                },
                Err(TraceError::MissingAxis { state_index, axis }) => {
                    let k = state_index as int;
                    &&& states.len() >= 2
                    &&& 0 <= k < states.len()
                    &&& forall|i: int| 0 <= i < k ==> complete_at(form, states, i)
                    &&& law.grade_spec() == Grade::Invariant ==> forall|i: int| 0 <= i < k ==> #[trigger] balance_at(form, states, i)
                        == balance_at(form, states, 0)
                    &&& law.grade_spec() == Grade::Nonnegative ==> forall|i: int| 0 <= i < k ==> #[trigger] balance_at(form, states, i) >= 0real
                    &&& law.grade_spec() == Grade::Nondecreasing ==> forall|i: int| 0 < i < k ==> balance_at(form, states, i - 1) <= #[trigger] balance_at(form, states, i)
                    &&& first_missing(form, states, k, axis)
                },
                Err(TraceError::TooShort { .. }) => states.len() < 2,
            }
        })
}

/// Checks a finite trace against a graded law using exact rational arithmetic.
pub fn check_law(law: &GradedLaw, states: &[TraceState]) -> (result: Result<LawVerdict, TraceError>)
    ensures
        law_checked(*law, states@, result),
{
    let form = law.form();
    match law.grade() {
        Grade::Invariant => match check_trace(form, states) {
            Ok(TraceVerdict::Satisfied(witness)) => Ok(LawVerdict::Satisfied(LawWitness::Invariant(witness))),
            Ok(TraceVerdict::Violated(violation)) => Ok(LawVerdict::Violated(LawViolation::Invariant(violation))),
            Err(error) => Err(error),
        },
        Grade::Nonnegative => check_nonnegative(form, states),
        Grade::Nondecreasing => check_nondecreasing(form, states),
    }
}

fn check_nonnegative(form: &BalanceLaw, states: &[TraceState]) -> (result: Result<LawVerdict, TraceError>)
    ensures
        (result == Err::<LawVerdict, TraceError>(TraceError::TooShort { states: states@.len() as usize }))
            <==> states@.len() < 2,
        match result {
            Ok(LawVerdict::Satisfied(LawWitness::Nonnegative(witness))) => {
                &&& states@.len() >= 2
                &&& forall|i: int| 0 <= i < states@.len() ==> complete_at(*form, states@, i)
                &&& forall|i: int| 0 <= i < states@.len() ==> #[trigger] balance_at(*form, states@, i) >= 0real
                &&& forall|i: int| 0 <= i < states@.len() ==> witness.minimum@ <= #[trigger] balance_at(*form, states@, i)
                &&& exists|i: int| 0 <= i < states@.len() && witness.minimum@ == #[trigger] balance_at(*form, states@, i)
                &&& witness.states_checked == states@.len()
                &&& witness.kind == form.kind_spec()
            },
            Ok(LawVerdict::Violated(LawViolation::Negative { state_index, observed })) => {
                let k = state_index as int;
                &&& states@.len() >= 2
                &&& 0 <= k < states@.len()
                &&& forall|i: int| 0 <= i <= k ==> complete_at(*form, states@, i)
                &&& forall|i: int| 0 <= i < k ==> #[trigger] balance_at(*form, states@, i) >= 0real
                &&& balance_at(*form, states@, k) < 0real
                &&& observed@ == balance_at(*form, states@, k)
            },
            Err(TraceError::MissingAxis { state_index, axis }) => {
                let k = state_index as int;
                &&& states@.len() >= 2
                &&& 0 <= k < states@.len()
                &&& forall|i: int| 0 <= i < k ==> complete_at(*form, states@, i)
                &&& forall|i: int| 0 <= i < k ==> #[trigger] balance_at(*form, states@, i) >= 0real
                &&& first_missing(*form, states@, k, axis)
            },
            Err(TraceError::TooShort { .. }) => states@.len() < 2,
            _ => false,
        },
{
    if states.len() < 2 {
        return Err(TraceError::TooShort { states: states.len() });
    }
    let mut minimum = Rational::zero();
    let mut index: usize = 0;
    while index < states.len()
        invariant
            2 <= states@.len(),
            0 <= index <= states@.len(),
            forall|i: int| 0 <= i < index ==> complete_at(*form, states@, i),
            forall|i: int| 0 <= i < index ==> #[trigger] balance_at(*form, states@, i) >= 0real,
            forall|i: int| 0 <= i < index ==> minimum@ <= #[trigger] balance_at(*form, states@, i),
            index > 0 ==> exists|i: int| 0 <= i < index && minimum@ == #[trigger] balance_at(*form, states@, i),
        decreases states.len() - index,
    {
        let observed = match evaluate(form, &states[index], index) {
            Ok(value) => value,
            Err(error) => {
                return Err(error);
            },
        };
        if observed.is_negative() {
            return Ok(LawVerdict::Violated(LawViolation::Negative { state_index: index, observed }));
        }
        if index == 0 || observed.lt(&minimum) {
            minimum = observed;
        }
        proof {
            assert(balance_at(*form, states@, index as int) == observed@);
        }
        index += 1;
    }
    Ok(LawVerdict::Satisfied(LawWitness::Nonnegative(NonnegativeWitness {
        states_checked: states.len(),
        minimum,
        kind: form.kind().clone(),
    })))
}

fn check_nondecreasing(form: &BalanceLaw, states: &[TraceState]) -> (result: Result<LawVerdict, TraceError>)
    ensures
        (result == Err::<LawVerdict, TraceError>(TraceError::TooShort { states: states@.len() as usize }))
            <==> states@.len() < 2,
        match result {
            Ok(LawVerdict::Satisfied(LawWitness::Nondecreasing(witness))) => {
                &&& states@.len() >= 2
                &&& forall|i: int| 0 <= i < states@.len() ==> complete_at(*form, states@, i)
                &&& forall|i: int| 0 < i < states@.len() ==> balance_at(*form, states@, i - 1) <= #[trigger] balance_at(*form, states@, i)
                &&& witness.initial@ == balance_at(*form, states@, 0)
                &&& witness.last@ == balance_at(*form, states@, states@.len() - 1)
                &&& witness.states_checked == states@.len()
                &&& witness.kind == form.kind_spec()
            },
            Ok(LawVerdict::Violated(LawViolation::Decrease { state_index, previous, observed })) => {
                let k = state_index as int;
                &&& states@.len() >= 2
                &&& 0 < k < states@.len()
                &&& forall|i: int| 0 <= i <= k ==> complete_at(*form, states@, i)
                &&& forall|i: int| 0 < i < k ==> balance_at(*form, states@, i - 1) <= #[trigger] balance_at(*form, states@, i)
                &&& balance_at(*form, states@, k) < balance_at(*form, states@, k - 1)
                &&& previous@ == balance_at(*form, states@, k - 1)
                &&& observed@ == balance_at(*form, states@, k)
            },
            Err(TraceError::MissingAxis { state_index, axis }) => {
                let k = state_index as int;
                &&& states@.len() >= 2
                &&& 0 <= k < states@.len()
                &&& forall|i: int| 0 <= i < k ==> complete_at(*form, states@, i)
                &&& forall|i: int| 0 < i < k ==> balance_at(*form, states@, i - 1) <= #[trigger] balance_at(*form, states@, i)
                &&& first_missing(*form, states@, k, axis)
            },
            Err(TraceError::TooShort { .. }) => states@.len() < 2,
            _ => false,
        },
{
    if states.len() < 2 {
        return Err(TraceError::TooShort { states: states.len() });
    }
    let initial = match evaluate(form, &states[0], 0) {
        Ok(value) => value,
        Err(error) => {
            return Err(error);
        },
    };
    let mut previous = initial.clone();
    let mut index: usize = 1;
    while index < states.len()
        invariant
            2 <= states@.len(),
            1 <= index <= states@.len(),
            initial@ == balance_at(*form, states@, 0),
            previous@ == balance_at(*form, states@, index - 1),
            forall|i: int| 0 <= i < index ==> complete_at(*form, states@, i),
            forall|i: int| 0 < i < index ==> balance_at(*form, states@, i - 1) <= #[trigger] balance_at(*form, states@, i),
        decreases states.len() - index,
    {
        let observed = match evaluate(form, &states[index], index) {
            Ok(value) => value,
            Err(error) => {
                return Err(error);
            },
        };
        if observed.lt(&previous) {
            return Ok(LawVerdict::Violated(LawViolation::Decrease { state_index: index, previous, observed }));
        }
        previous = observed;
        index += 1;
    }
    Ok(LawVerdict::Satisfied(LawWitness::Nondecreasing(NondecreasingWitness {
        states_checked: states.len(),
        initial,
        last: previous,
        kind: form.kind().clone(),
    })))
}

} // verus!
