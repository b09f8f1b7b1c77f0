//! The conserved-kind interface that settlement is generic over.
use crate::ident::KindId;
use crate::rational::Rational;
use crate::test_kinds::TestKind;
use vstd::prelude::*;

verus! {

/// A conserved quantity kind: identity, an optional floor, and the kind of a
/// difference of two of its values.
///
/// Implementations state their floor and difference kind as spec functions;
/// settlement is verified against those statements.
pub trait Kind: Sized {
    /// The identity under which two kinds are the same.
    spec fn identity(&self) -> Seq<char>;

    /// The least admissible stock value, when the kind has one.
    spec fn floor_value(&self) -> Option<real>;

    /// The identity of the kind of a difference of two values.
    spec fn difference_identity(&self) -> Seq<char>;

    /// The least admissible stock value, when the kind has one.
    fn floor(&self) -> (result: Option<Rational>)
        ensures
            match result {
                Some(floor) => self.floor_value() == Some(floor@),
                None => self.floor_value() is None,
            };

    /// The kind of a difference of two values of this kind.
    fn difference(&self) -> (result: Self)
        ensures
            result.identity() == self.difference_identity();

    /// Whether two kinds are the same kind.
    fn same(&self, other: &Self) -> (result: bool)
        ensures
            result == (self.identity() == other.identity());

    /// The text under which the kind is identified.
    fn label(&self) -> (result: &str)
        ensures
            result@ == self.identity();

    /// Kinds with the same identity have the same floor and difference kind.
    proof fn lemma_identity_determines(a: Self, b: Self)
        requires
            a.identity() == b.identity(),
        ensures
            a.floor_value() == b.floor_value(),
            a.difference_identity() == b.difference_identity();

    /// A copy of the kind.
    fn duplicate(&self) -> (result: Self)
        ensures
            result.identity() == self.identity(),
            result.floor_value() == self.floor_value(),
            result.difference_identity() == self.difference_identity();
}

/// A named kind is linear and floorless.
impl Kind for KindId {
    open spec fn identity(&self) -> Seq<char> {
        self@
    }

    open spec fn floor_value(&self) -> Option<real> {
        None
    }

    open spec fn difference_identity(&self) -> Seq<char> {
        self@
    }

    fn floor(&self) -> (result: Option<Rational>) {
        None
    }

    proof fn lemma_identity_determines(a: Self, b: Self) {
    }

    fn difference(&self) -> (result: Self) {
        self.clone()
    }

    fn same(&self, other: &Self) -> (result: bool) {
        KindId::same(self, other)
    }

    fn label(&self) -> (result: &str) {
        self.as_str()
    }

    fn duplicate(&self) -> (result: Self) {
        self.clone()
    }
}

/// The identity of a test kind is its name.
impl Kind for TestKind {
    open spec fn identity(&self) -> Seq<char> {
        crate::test_kinds::kind_name(*self)
    }

    open spec fn floor_value(&self) -> Option<real> {
        crate::test_kinds::kind_floor(*self)
    }

    open spec fn difference_identity(&self) -> Seq<char> {
        crate::test_kinds::kind_name(crate::test_kinds::kind_difference(*self))
    }

    fn floor(&self) -> (result: Option<Rational>) {
        TestKind::floor(*self)
    }

    proof fn lemma_identity_determines(a: Self, b: Self) {
        crate::test_kinds::lemma_kind_name_injective(a, b);
    }

    fn difference(&self) -> (result: Self) {
        TestKind::difference(*self)
    }

    fn same(&self, other: &Self) -> (result: bool) {
        let result = crate::format::same_text(self.name(), other.name());
        result
    }

    fn label(&self) -> (result: &str) {
        self.name()
    }

    fn duplicate(&self) -> (result: Self) {
        *self
    }
}

} // verus!
