//! Canonical exact linear balance laws and their graded readings.
use crate::entries::{
    accumulate, all_nonzero, has_key, lemma_sum_for_absent, lemma_sum_for_sorted_at,
    retain_nonzero, strictly_sorted, sum_for,
};
use crate::ident::{AxisId, KindId, Named};
use crate::rational::Rational;
use vstd::prelude::*;

verus! {

/// Records an asserted origin for a conservation law.
///
/// This is metadata, not a certificate that the law was correctly derived or
/// that any trace satisfies it.
#[derive(Clone, Copy, Debug, PartialEq, Eq, Hash, Structural)]
#[non_exhaustive]
pub enum Provenance {
    /// Derived from the left nullspace of an incidence matrix.
    IncidenceNullspace,
    /// Derived from the left nullspace of a stoichiometric matrix.
    StoichiometricNullspace,
    /// Required as an externally forced balance.
    ForcedBalance,
    /// Declared directly by a model author.
    Declared,
    /// Tagged as Noether-derived; this crate does not implement that derivation.
    Noether,
}

/// An error constructing a balance law.
#[derive(Clone, Copy, Debug, PartialEq, Eq, Structural)]
pub enum BalanceLawError {
    /// No nonzero coefficient remains after exact canonicalization.
    Empty,
}

impl BalanceLawError {
    /// Human-readable description of the error.
    pub fn message(&self) -> (result: &'static str)
        ensures
            result@ == "balance law must contain a nonzero coefficient"@,
    {
        "balance law must contain a nonzero coefficient"
    }
}

/// A canonical exact linear balance law over named axes.
///
/// Its terms are strictly ordered by axis, each coefficient is nonzero, and
/// at least one term is present.
#[derive(Debug, PartialEq, Eq)]
pub struct BalanceLaw {
    kind: KindId,
    coefficients: Vec<(AxisId, Rational)>,
    provenance: Provenance,
}

impl BalanceLaw {
    /// The canonical terms, in axis order.
    pub closed spec fn terms(&self) -> Seq<(AxisId, Rational)> {
        self.coefficients@
    }

    /// The conserved kind.
    pub closed spec fn kind_spec(&self) -> KindId {
        self.kind
    }

    /// The asserted origin.
    pub closed spec fn provenance_spec(&self) -> Provenance {
        self.provenance
    }

    /// The exact coefficient of an axis, zero when the axis is absent.
    pub open spec fn coefficient_of(&self, axis: Seq<char>) -> real {
        sum_for(self.terms(), axis)
    }

    #[verifier::type_invariant]
    closed spec fn canonical(&self) -> bool {
        &&& strictly_sorted(self.coefficients@)
        &&& all_nonzero(self.coefficients@)
        &&& self.coefficients@.len() > 0
    }

    /// Constructs a law, combining repeated axes and discarding exact zero terms.
    pub fn new(kind: KindId, coefficients: Vec<(AxisId, Rational)>, provenance: Provenance) -> (result: Result<
        Self,
        BalanceLawError,
    >)
        ensures
            match result {
                Ok(law) => {
                    &&& law.kind_spec() == kind
                    &&& law.provenance_spec() == provenance
                    &&& forall|axis: Seq<char>| #[trigger]
                        law.coefficient_of(axis) == sum_for(coefficients@, axis)
                    &&& forall|axis: Seq<char>| #[trigger]
                        has_key(law.terms(), axis) <==> sum_for(coefficients@, axis) != 0real
                },
                Err(error) => {
                    &&& error == BalanceLawError::Empty
                    &&& forall|axis: Seq<char>| #[trigger] sum_for(coefficients@, axis) == 0real
                },
            },
    {
        let mut canonical: Vec<(AxisId, Rational)> = Vec::new();
        let mut index: usize = 0;
        proof {
            assert(coefficients@.take(0) =~= Seq::<(AxisId, Rational)>::empty());
        }
        while index < coefficients.len()
            invariant
                index <= coefficients@.len(),
                strictly_sorted(canonical@),
                forall|axis: Seq<char>| #[trigger]
                    sum_for(canonical@, axis) == sum_for(coefficients@.take(index as int), axis),
            decreases coefficients.len() - index,
        {
            let axis = coefficients[index].0.duplicate();
            let amount = coefficients[index].1.clone();
            let ghost before = canonical@;
            accumulate(&mut canonical, axis, amount);
            proof {
                let next = coefficients@.take(index + 1);
                assert(next.drop_last() =~= coefficients@.take(index as int));
                assert forall|k: Seq<char>| #[trigger]
                    sum_for(canonical@, k) == sum_for(next, k) by {
                    assert(sum_for(next, k) == sum_for(coefficients@.take(index as int), k)
                        + crate::entries::contribution(coefficients@[index as int], k));
                }
            }
            index += 1;
        }
        proof {
            assert(coefficients@.take(coefficients@.len() as int) =~= coefficients@);
        }
        let retained = retain_nonzero(&canonical);
        if retained.len() == 0 {
            proof {
                assert forall|axis: Seq<char>| #[trigger] sum_for(coefficients@, axis) == 0real by {
                    assert(sum_for(retained@, axis) == 0real);
                }
            }
            return Err(BalanceLawError::Empty);
        }
        let law = BalanceLaw { kind, coefficients: retained, provenance };
        proof {
            assert forall|axis: Seq<char>| #[trigger]
                has_key(law.terms(), axis) <==> sum_for(coefficients@, axis) != 0real by {
                if has_key(law.terms(), axis) {
                    let i = choose|i: int| 0 <= i < law.terms().len() && #[trigger] law.terms()[i].0@ == axis;
                    lemma_sum_for_sorted_at(law.terms(), i);
                } else {
                    lemma_sum_for_absent(law.terms(), axis);
                }
            }
        }
        Ok(law)
    }

    /// Returns the kind conserved by this law.
    pub fn kind(&self) -> (result: &KindId)
        ensures
            *result == self.kind_spec(),
    {
        &self.kind
    }

    /// The canonical nonzero coefficients in deterministic axis order.
    pub fn coefficients(&self) -> (result: &Vec<(AxisId, Rational)>)
        ensures
            result@ == self.terms(),
            strictly_sorted(result@),
            all_nonzero(result@),
            result@.len() > 0,
            forall|axis: Seq<char>| #[trigger] has_key(self.terms(), axis) <==> self.coefficient_of(axis) != 0real,
    {
        proof {
            use_type_invariant(self);
            assert forall|axis: Seq<char>| #[trigger]
                has_key(self.terms(), axis) <==> self.coefficient_of(axis) != 0real by {
                if has_key(self.terms(), axis) {
                    let i = choose|i: int| 0 <= i < self.terms().len() && #[trigger] self.terms()[i].0@ == axis;
                    lemma_sum_for_sorted_at(self.terms(), i);
                } else {
                    lemma_sum_for_absent(self.terms(), axis);
                }
            }
        }
        &self.coefficients
    }

    /// Returns an axis coefficient, or exact zero when the axis is absent.
    pub fn coefficient(&self, axis: &AxisId) -> (result: Rational)
        ensures
            result@ == self.coefficient_of(axis@),
    {
        proof {
            use_type_invariant(self);
        }
        match crate::entries::find_entry(&self.coefficients, axis) {
            Some(index) => {
                proof {
                    lemma_sum_for_sorted_at(self.coefficients@, index as int);
                }
                self.coefficients[index].1.clone()
            },
            None => {
                proof {
                    lemma_sum_for_absent(self.coefficients@, axis@);
                }
                Rational::zero()
            },
        }
    }

    /// Returns asserted origin metadata, which is not a correctness certificate.
    pub fn provenance(&self) -> (result: &Provenance)
        ensures
            *result == self.provenance_spec(),
    {
        &self.provenance
    }
}

impl Clone for BalanceLaw {
    fn clone(&self) -> (result: Self)
        ensures
            result.kind_spec() == self.kind_spec(),
            result.provenance_spec() == self.provenance_spec(),
            result.terms().len() == self.terms().len(),
            forall|i: int| 0 <= i < self.terms().len() ==> (#[trigger] result.terms()[i]).0 == self.terms()[i].0 && result.terms()[i].1@ == self.terms()[i].1@,
            forall|axis: Seq<char>| #[trigger] result.coefficient_of(axis) == self.coefficient_of(axis),
    {
        proof {
            use_type_invariant(self);
        }
        let mut coefficients: Vec<(AxisId, Rational)> = Vec::new();
        let mut index: usize = 0;
        while index < self.coefficients.len()
            invariant
                index <= self.coefficients@.len(),
                coefficients@.len() == index,
                forall|i: int| 0 <= i < index ==> (#[trigger] coefficients@[i]).0 == self.coefficients@[i].0 && coefficients@[i].1@ == self.coefficients@[i].1@,
            decreases self.coefficients.len() - index,
        {
            coefficients.push((self.coefficients[index].0.duplicate(), self.coefficients[index].1.clone()));
            index += 1;
        }
        proof {
            crate::entries::lemma_same_views_same_sums(coefficients@, self.coefficients@);
        }
        BalanceLaw { kind: self.kind.clone(), coefficients, provenance: self.provenance }
    }
}

/// How a graded sentence reads its exact linear form along a finite trace.
#[derive(Clone, Copy, Debug, PartialEq, Eq, Hash, Structural)]
pub enum Grade {
    /// The form's value is identical in every state.
    Invariant,
    /// The form's value is at least zero in every state.
    Nonnegative,
    /// The form's value never decreases between consecutive states.
    Nondecreasing,
}

impl Grade {
    /// The grade's name: "invariant", "nonnegative" or "nondecreasing".
    pub fn to_string(&self) -> (result: String)
        ensures
            result@ == match self {
                Grade::Invariant => "invariant"@,
                Grade::Nonnegative => "nonnegative"@,
                Grade::Nondecreasing => "nondecreasing"@,
            },
    {
        match self {
            Grade::Invariant => "invariant".to_owned(),
            Grade::Nonnegative => "nonnegative".to_owned(),
            Grade::Nondecreasing => "nondecreasing".to_owned(),
        }
    }
}

/// A graded sentence: one exact linear form read under one grade.
#[derive(Clone, Debug, PartialEq, Eq)]
pub struct GradedLaw {
    form: BalanceLaw,
    grade: Grade,
}

impl GradedLaw {
    /// The form read by this sentence.
    pub closed spec fn form_spec(&self) -> BalanceLaw {
        self.form
    }

    /// The grade of this sentence.
    pub closed spec fn grade_spec(&self) -> Grade {
        self.grade
    }

    /// Constructs a graded sentence over an already-canonical form.
    pub fn new(form: BalanceLaw, grade: Grade) -> (result: Self)
        ensures
            result.form_spec() == form,
            result.grade_spec() == grade,
    {
        GradedLaw { form, grade }
    }

    /// Reads a balance law under its classic grade, [`Grade::Invariant`].
    pub fn from(form: BalanceLaw) -> (result: Self)
        ensures
            result.form_spec() == form,
            result.grade_spec() == Grade::Invariant,
    {
        GradedLaw { form, grade: Grade::Invariant }
    }

    /// Returns the exact linear form this sentence reads.
    pub fn form(&self) -> (result: &BalanceLaw)
        ensures
            *result == self.form_spec(),
    {
        &self.form
    }

    /// Returns how the form is read along a trace.
    pub fn grade(&self) -> (result: Grade)
        ensures
            result == self.grade_spec(),
    {
        self.grade
    }
}

} // verus!
