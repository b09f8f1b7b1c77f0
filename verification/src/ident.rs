//! Typed, validated identifiers.
use crate::text::{blank, is_blank, precedes, text_lt};
use vstd::prelude::*;

verus! {

/// An error constructing a typed identifier.
#[derive(Clone, Copy, Debug, PartialEq, Eq, Structural)]
pub enum IdentifierError {
    /// The supplied identifier was empty or contained only whitespace.
    Blank,
}

impl IdentifierError {
    /// Human-readable description of the error.
    pub fn message(&self) -> (result: &'static str)
        ensures
            result@ == "identifier must contain non-whitespace text"@,
    {
        "identifier must contain non-whitespace text"
    }
}

/// Identifies one coordinate of a quantitative state.
#[derive(Debug, PartialEq, Eq, Hash, PartialOrd, Ord)]
pub struct AxisId {
    text: String,
}

impl View for AxisId {
    type V = Seq<char>;

    closed spec fn view(&self) -> Seq<char> {
        self.text@
    }
}

impl Clone for AxisId {
    fn clone(&self) -> (result: Self)
        ensures
            result == *self,
    {
        AxisId { text: self.text.clone() }
    }
}

impl AxisId {
    /// Creates an identifier from nonblank text.
    pub fn new(value: &str) -> (result: Result<Self, IdentifierError>)
        ensures
            match result {
                Ok(id) => !is_blank(value@) && id@ == value@,
                Err(error) => is_blank(value@) && error == IdentifierError::Blank,
            },
    {
        if blank(value) {
            return Err(IdentifierError::Blank);
        }
        Ok(AxisId { text: value.to_owned() })
    }

    /// Returns the identifier text.
    pub fn as_str(&self) -> (result: &str)
        ensures
            result@ == self@,
    {
        self.text.as_str()
    }

    /// Whether two identifiers have the same text.
    pub fn same(&self, other: &Self) -> (result: bool)
        ensures
            result == (self@ == other@),
    {
        self.text == other.text
    }

    /// Whether this identifier strictly precedes another in canonical order.
    pub fn precedes(&self, other: &Self) -> (result: bool)
        ensures
            result == text_lt(self@, other@),
    {
        precedes(self.text.as_str(), other.text.as_str())
    }
}

/// Identifies the physical or logical kind measured by a law.
#[derive(Debug, PartialEq, Eq, Hash, PartialOrd, Ord)]
pub struct KindId {
    text: String,
}

impl View for KindId {
    type V = Seq<char>;

    closed spec fn view(&self) -> Seq<char> {
        self.text@
    }
}

impl Clone for KindId {
    fn clone(&self) -> (result: Self)
        ensures
            result == *self,
    {
        KindId { text: self.text.clone() }
    }
}

impl KindId {
    /// Creates an identifier from nonblank text.
    pub fn new(value: &str) -> (result: Result<Self, IdentifierError>)
        ensures
            match result {
                Ok(id) => !is_blank(value@) && id@ == value@,
                Err(error) => is_blank(value@) && error == IdentifierError::Blank,
            },
    {
        if blank(value) {
            return Err(IdentifierError::Blank);
        }
        Ok(KindId { text: value.to_owned() })
    }

    /// Returns the identifier text.
    pub fn as_str(&self) -> (result: &str)
        ensures
            result@ == self@,
    {
        self.text.as_str()
    }

    /// Whether two identifiers have the same text.
    pub fn same(&self, other: &Self) -> (result: bool)
        ensures
            result == (self@ == other@),
    {
        self.text == other.text
    }

    /// Whether this identifier strictly precedes another in canonical order.
    pub fn precedes(&self, other: &Self) -> (result: bool)
        ensures
            result == text_lt(self@, other@),
    {
        precedes(self.text.as_str(), other.text.as_str())
    }
}

/// Identifies one stored quantity.
#[derive(Debug, PartialEq, Eq, Hash, PartialOrd, Ord)]
pub struct StockId {
    text: String,
}

impl View for StockId {
    type V = Seq<char>;

    closed spec fn view(&self) -> Seq<char> {
        self.text@
    }
}

impl Clone for StockId {
    fn clone(&self) -> (result: Self)
        ensures
            result == *self,
    {
        StockId { text: self.text.clone() }
    }
}

impl StockId {
    /// Creates an identifier from nonblank text.
    pub fn new(value: &str) -> (result: Result<Self, IdentifierError>)
        ensures
            match result {
                Ok(id) => !is_blank(value@) && id@ == value@,
                Err(error) => is_blank(value@) && error == IdentifierError::Blank,
            },
    {
        if blank(value) {
            return Err(IdentifierError::Blank);
        }
        Ok(StockId { text: value.to_owned() })
    }

    /// Returns the identifier text.
    pub fn as_str(&self) -> (result: &str)
        ensures
            result@ == self@,
    {
        self.text.as_str()
    }

    /// Whether two identifiers have the same text.
    pub fn same(&self, other: &Self) -> (result: bool)
        ensures
            result == (self@ == other@),
    {
        self.text == other.text
    }

    /// Whether this identifier strictly precedes another in canonical order.
    pub fn precedes(&self, other: &Self) -> (result: bool)
        ensures
            result == text_lt(self@, other@),
    {
        precedes(self.text.as_str(), other.text.as_str())
    }
}

/// Identifies the process proposing a flow.
#[derive(Debug, PartialEq, Eq, Hash, PartialOrd, Ord)]
pub struct ProcessId {
    text: String,
}

impl View for ProcessId {
    type V = Seq<char>;

    closed spec fn view(&self) -> Seq<char> {
        self.text@
    }
}

impl Clone for ProcessId {
    fn clone(&self) -> (result: Self)
        ensures
            result == *self,
    {
        ProcessId { text: self.text.clone() }
    }
}

impl ProcessId {
    /// Creates an identifier from nonblank text.
    pub fn new(value: &str) -> (result: Result<Self, IdentifierError>)
        ensures
            match result {
                Ok(id) => !is_blank(value@) && id@ == value@,
                Err(error) => is_blank(value@) && error == IdentifierError::Blank,
            },
    {
        if blank(value) {
            return Err(IdentifierError::Blank);
        }
        Ok(ProcessId { text: value.to_owned() })
    }

    /// Returns the identifier text.
    pub fn as_str(&self) -> (result: &str)
        ensures
            result@ == self@,
    {
        self.text.as_str()
    }

    /// Whether two identifiers have the same text.
    pub fn same(&self, other: &Self) -> (result: bool)
        ensures
            result == (self@ == other@),
    {
        self.text == other.text
    }

    /// Whether this identifier strictly precedes another in canonical order.
    pub fn precedes(&self, other: &Self) -> (result: bool)
        ensures
            result == text_lt(self@, other@),
    {
        precedes(self.text.as_str(), other.text.as_str())
    }
}

/// Identifies one scalar internal-flow channel.
#[derive(Debug, PartialEq, Eq, Hash, PartialOrd, Ord)]
pub struct FlowId {
    text: String,
}

impl View for FlowId {
    type V = Seq<char>;

    closed spec fn view(&self) -> Seq<char> {
        self.text@
    }
}

impl Clone for FlowId {
    fn clone(&self) -> (result: Self)
        ensures
            result == *self,
    {
        FlowId { text: self.text.clone() }
    }
}

impl FlowId {
    /// Creates an identifier from nonblank text.
    pub fn new(value: &str) -> (result: Result<Self, IdentifierError>)
        ensures
            match result {
                Ok(id) => !is_blank(value@) && id@ == value@,
                Err(error) => is_blank(value@) && error == IdentifierError::Blank,
            },
    {
        if blank(value) {
            return Err(IdentifierError::Blank);
        }
        Ok(FlowId { text: value.to_owned() })
    }

    /// Returns the identifier text.
    pub fn as_str(&self) -> (result: &str)
        ensures
            result@ == self@,
    {
        self.text.as_str()
    }

    /// Whether two identifiers have the same text.
    pub fn same(&self, other: &Self) -> (result: bool)
        ensures
            result == (self@ == other@),
    {
        self.text == other.text
    }

    /// Whether this identifier strictly precedes another in canonical order.
    pub fn precedes(&self, other: &Self) -> (result: bool)
        ensures
            result == text_lt(self@, other@),
    {
        precedes(self.text.as_str(), other.text.as_str())
    }
}

/// Identifies one scalar boundary-flow channel.
#[derive(Debug, PartialEq, Eq, Hash, PartialOrd, Ord)]
pub struct BoundaryId {
    text: String,
}

impl View for BoundaryId {
    type V = Seq<char>;

    closed spec fn view(&self) -> Seq<char> {
        self.text@
    }
}

impl Clone for BoundaryId {
    fn clone(&self) -> (result: Self)
        ensures
            result == *self,
    {
        BoundaryId { text: self.text.clone() }
    }
}

impl BoundaryId {
    /// Creates an identifier from nonblank text.
    pub fn new(value: &str) -> (result: Result<Self, IdentifierError>)
        ensures
            match result {
                Ok(id) => !is_blank(value@) && id@ == value@,
                Err(error) => is_blank(value@) && error == IdentifierError::Blank,
            },
    {
        if blank(value) {
            return Err(IdentifierError::Blank);
        }
        Ok(BoundaryId { text: value.to_owned() })
    }

    /// Returns the identifier text.
    pub fn as_str(&self) -> (result: &str)
        ensures
            result@ == self@,
    {
        self.text.as_str()
    }

    /// Whether two identifiers have the same text.
    pub fn same(&self, other: &Self) -> (result: bool)
        ensures
            result == (self@ == other@),
    {
        self.text == other.text
    }

    /// Whether this identifier strictly precedes another in canonical order.
    pub fn precedes(&self, other: &Self) -> (result: bool)
        ensures
            result == text_lt(self@, other@),
    {
        precedes(self.text.as_str(), other.text.as_str())
    }
}

/// Identifies one cumulative boundary ledger.
#[derive(Debug, PartialEq, Eq, Hash, PartialOrd, Ord)]
pub struct LedgerId {
    text: String,
}

impl View for LedgerId {
    type V = Seq<char>;

    closed spec fn view(&self) -> Seq<char> {
        self.text@
    }
}

impl Clone for LedgerId {
    fn clone(&self) -> (result: Self)
        ensures
            result == *self,
    {
        LedgerId { text: self.text.clone() }
    }
}

impl LedgerId {
    /// Creates an identifier from nonblank text.
    pub fn new(value: &str) -> (result: Result<Self, IdentifierError>)
        ensures
            match result {
                Ok(id) => !is_blank(value@) && id@ == value@,
                Err(error) => is_blank(value@) && error == IdentifierError::Blank,
            },
    {
        if blank(value) {
            return Err(IdentifierError::Blank);
        }
        Ok(LedgerId { text: value.to_owned() })
    }

    /// Returns the identifier text.
    pub fn as_str(&self) -> (result: &str)
        ensures
            result@ == self@,
    {
        self.text.as_str()
    }

    /// Whether two identifiers have the same text.
    pub fn same(&self, other: &Self) -> (result: bool)
        ensures
            result == (self@ == other@),
    {
        self.text == other.text
    }

    /// Whether this identifier strictly precedes another in canonical order.
    pub fn precedes(&self, other: &Self) -> (result: bool)
        ensures
            result == text_lt(self@, other@),
    {
        precedes(self.text.as_str(), other.text.as_str())
    }
}

/// Identifies one named stock-flow sentence.
#[derive(Debug, PartialEq, Eq, Hash, PartialOrd, Ord)]
pub struct SentenceId {
    text: String,
}

impl View for SentenceId {
    type V = Seq<char>;

    closed spec fn view(&self) -> Seq<char> {
        self.text@
    }
}

impl Clone for SentenceId {
    fn clone(&self) -> (result: Self)
        ensures
            result == *self,
    {
        SentenceId { text: self.text.clone() }
    }
}

impl SentenceId {
    /// Creates an identifier from nonblank text.
    pub fn new(value: &str) -> (result: Result<Self, IdentifierError>)
        ensures
            match result {
                Ok(id) => !is_blank(value@) && id@ == value@,
                Err(error) => is_blank(value@) && error == IdentifierError::Blank,
            },
    {
        if blank(value) {
            return Err(IdentifierError::Blank);
        }
        Ok(SentenceId { text: value.to_owned() })
    }

    /// Returns the identifier text.
    pub fn as_str(&self) -> (result: &str)
        ensures
            result@ == self@,
    {
        self.text.as_str()
    }

    /// Whether two identifiers have the same text.
    pub fn same(&self, other: &Self) -> (result: bool)
        ensures
            result == (self@ == other@),
    {
        self.text == other.text
    }

    /// Whether this identifier strictly precedes another in canonical order.
    pub fn precedes(&self, other: &Self) -> (result: bool)
        ensures
            result == text_lt(self@, other@),
    {
        precedes(self.text.as_str(), other.text.as_str())
    }
}

/// A typed identifier whose view is its text.
pub trait Named: View<V = Seq<char>> + Sized {
    /// The identifier text.
    fn text(&self) -> (result: &str)
        ensures
            result@ == self@;

    /// A copy of the identifier.
    fn duplicate(&self) -> (result: Self)
        ensures
            result == *self;
}

impl Named for AxisId {
    fn text(&self) -> (result: &str) {
        self.text.as_str()
    }

    fn duplicate(&self) -> (result: Self) {
        self.clone()
    }
}

impl Named for KindId {
    fn text(&self) -> (result: &str) {
        self.text.as_str()
    }

    fn duplicate(&self) -> (result: Self) {
        self.clone()
    }
}

impl Named for StockId {
    fn text(&self) -> (result: &str) {
        self.text.as_str()
    }

    fn duplicate(&self) -> (result: Self) {
        self.clone()
    }
}

impl Named for ProcessId {
    fn text(&self) -> (result: &str) {
        self.text.as_str()
    }

    fn duplicate(&self) -> (result: Self) {
        self.clone()
    }
}

impl Named for FlowId {
    fn text(&self) -> (result: &str) {
        self.text.as_str()
    }

    fn duplicate(&self) -> (result: Self) {
        self.clone()
    }
}

impl Named for BoundaryId {
    fn text(&self) -> (result: &str) {
        self.text.as_str()
    }

    fn duplicate(&self) -> (result: Self) {
        self.clone()
    }
}

impl Named for LedgerId {
    fn text(&self) -> (result: &str) {
        self.text.as_str()
    }

    fn duplicate(&self) -> (result: Self) {
        self.clone()
    }
}

impl Named for SentenceId {
    fn text(&self) -> (result: &str) {
        self.text.as_str()
    }

    fn duplicate(&self) -> (result: Self) {
        self.clone()
    }
}

} // verus!
