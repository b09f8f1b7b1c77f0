//! Exact stock-flow carriers: named incidence matrices compiled over a
//! settlement topology, and validated transition records and traces.
use crate::dynamics::{flow_well_formed, FlowRole, FlowTopology, StockFlowError as DynamicsError};
use crate::ident::{AxisId, BoundaryId, FlowId, KindId, LedgerId, Named, SentenceId, StockId};
use crate::kind::Kind;
use crate::law::BalanceLawError;
use crate::linear::MatrixError;
use crate::rational::Rational;
use std::sync::Arc;
use crate::table::{find_key, holds, insert_sorted, keys_sorted, lemma_position, position, value_of};
use crate::text::text_lt;
use crate::trace::{TraceError, TraceStateError};
use vstd::prelude::*;

verus! {

/// A stable identifier from any carrier symbol class.
#[derive(Clone, Debug, PartialEq, Eq)]
pub enum SymbolId {
    /// A stock or projected ledger axis.
    Axis(AxisId),
    /// An internal-flow channel.
    Flow(FlowId),
    /// A boundary-flow channel.
    Boundary(BoundaryId),
    /// A cumulative ledger.
    Ledger(LedgerId),
}

/// A typed carrier identifier that names itself in diagnostics.
pub trait Symbol: Named {
    /// The diagnostic identifier of this symbol.
    spec fn symbol_spec(&self) -> SymbolId;

    /// Returns a type-preserving diagnostic identifier.
    fn symbol_id(&self) -> (result: SymbolId)
        ensures
            result == self.symbol_spec();
}

impl Symbol for AxisId {
    open spec fn symbol_spec(&self) -> SymbolId {
        SymbolId::Axis(*self)
    }

    fn symbol_id(&self) -> (result: SymbolId) {
        SymbolId::Axis(self.clone())
    }
}

impl Symbol for FlowId {
    open spec fn symbol_spec(&self) -> SymbolId {
        SymbolId::Flow(*self)
    }

    fn symbol_id(&self) -> (result: SymbolId) {
        SymbolId::Flow(self.clone())
    }
}

impl Symbol for BoundaryId {
    open spec fn symbol_spec(&self) -> SymbolId {
        SymbolId::Boundary(*self)
    }

    fn symbol_id(&self) -> (result: SymbolId) {
        SymbolId::Boundary(self.clone())
    }
}

impl Symbol for LedgerId {
    open spec fn symbol_spec(&self) -> SymbolId {
        SymbolId::Ledger(*self)
    }

    fn symbol_id(&self) -> (result: SymbolId) {
        SymbolId::Ledger(self.clone())
    }
}

/// Identifies one exact vector within a transition record.
#[derive(Clone, Copy, Debug, PartialEq, Eq, Structural)]
pub enum ValueRole {
    /// Stock state before a transition.
    Before,
    /// Stock state after a transition.
    After,
    /// Requested internal-flow amounts.
    RequestedInternal,
    /// Settled internal-flow amounts.
    SettledInternal,
    /// Requested boundary-flow amounts.
    RequestedBoundary,
    /// Settled boundary-flow amounts.
    SettledBoundary,
    /// Cumulative ledgers before a transition.
    LedgerBefore,
    /// Cumulative ledgers after a transition.
    LedgerAfter,
}

/// Names one compiled flow slot according to its structural role.
#[derive(Debug, PartialEq, Eq)]
pub enum ChannelId {
    /// A transfer with one internal source and target.
    Internal(FlowId),
    /// An input or output crossing the modeled boundary.
    Boundary(BoundaryId),
}

impl Clone for ChannelId {
    fn clone(&self) -> (result: Self)
        ensures
            result == *self,
    {
        match self {
            ChannelId::Internal(flow) => ChannelId::Internal(flow.clone()),
            ChannelId::Boundary(boundary) => ChannelId::Boundary(boundary.clone()),
        }
    }
}

/// Structural failure constructing or using an exact stock-flow carrier.
#[derive(Clone, Debug, PartialEq, Eq)]
#[non_exhaustive]
pub enum StockFlowError {
    /// Stock-axis declarations do not cover the topology exactly.
    StockAxisCount {
        /// Number of topology stocks.
        expected: usize,
        /// Number of declarations or of mapped stocks.
        actual: usize,
    },
    /// A stock was assigned more than one axis.
    DuplicateStock(StockId),
    /// An axis was assigned to more than one stock or ledger.
    DuplicateAxis(AxisId),
    /// An axis declaration references an unknown stock.
    UnknownStock(StockId),
    /// Flow-channel declarations do not cover topology slots exactly.
    ChannelCount {
        /// Number of topology flow slots.
        expected: usize,
        /// Number of channel names.
        actual: usize,
    },
    /// An internal-flow identifier occurred more than once.
    DuplicateFlow(FlowId),
    /// A boundary identifier occurred more than once.
    DuplicateBoundary(BoundaryId),
    /// A channel identifier was assigned to the wrong topology role.
    ChannelRole {
        /// The channel name.
        channel: ChannelId,
        /// The role of its flow slot.
        actual: FlowRole,
    },
    /// A ledger identifier occurred more than once.
    DuplicateLedger(LedgerId),
    /// A ledger declares a kind absent from the carrier.
    UnknownKind(KindId),
    /// An exact vector repeats one symbol.
    DuplicateValue(SymbolId),
    /// An exact amount was negative.
    NegativeAmount(SymbolId),
    /// A vector omitted a required symbol.
    MissingValue {
        /// The vector.
        role: ValueRole,
        /// The missing symbol.
        symbol: SymbolId,
    },
    /// A vector included a symbol outside its carrier role.
    ExtraValue {
        /// The vector.
        role: ValueRole,
        /// The unexpected symbol.
        symbol: SymbolId,
    },
    /// A vector supplied the wrong kind for a symbol.
    KindMismatch {
        /// The vector.
        role: ValueRole,
        /// The symbol.
        symbol: SymbolId,
        /// The carrier's kind for it.
        expected: KindId,
        /// The supplied kind.
        actual: KindId,
    },
    /// A settled amount exceeded its requested amount.
    SettledExceedsRequested {
        /// The channel.
        symbol: SymbolId,
        /// Its requested amount.
        requested: Box<Rational>,
        /// Its settled amount.
        settled: Box<Rational>,
    },
    /// A record or report belongs to a different exact carrier.
    CarrierMismatch,
    /// A before/after amount vector has the wrong topology length.
    AmountCount {
        /// Number of topology stocks.
        expected: usize,
        /// Number of supplied amounts.
        actual: usize,
    },
    /// Adjacent stock states are not continuous.
    DiscontinuousState {
        /// Index of the later transition.
        transition: usize,
        /// The first canonical axis that differs.
        axis: AxisId,
    },
    /// Adjacent cumulative-ledger states are not continuous.
    DiscontinuousLedger {
        /// Index of the later transition.
        transition: usize,
        /// The first canonical ledger that differs.
        ledger: LedgerId,
    },
    /// Existing settlement validation rejected a report.
    Settlement(DynamicsError<KindId>),
    /// Projection into the existing exact trace carrier failed.
    TraceState(TraceStateError),
    /// A semantic checker cannot witness an empty transition trace.
    TooShort {
        /// Number of transitions in the trace.
        transitions: usize,
    },
    /// A sentence references an unknown internal-flow channel.
    UnknownFlow(FlowId),
    /// A sentence references an unknown stock or projected ledger axis.
    UnknownAxis(AxisId),
    /// A sentence references an unknown boundary-flow channel.
    UnknownBoundary(BoundaryId),
    /// A sentence references an unknown cumulative ledger.
    UnknownLedger(LedgerId),
    /// A linear constraint has no effective term.
    EmptyConstraint,
    /// A boundary correspondence has no mapped port.
    EmptyBoundaryMapping,
    /// A boundary correspondence repeats one port.
    DuplicateBoundaryMapping(BoundaryId),
    /// A boundary correspondence mixes input and output ports.
    MixedBoundaryRoles,
    /// A sentence combines symbols of different kinds.
    SentenceKindMismatch {
        /// The sentence.
        sentence: SentenceId,
        /// The offending symbol.
        symbol: SymbolId,
        /// The sentence's kind.
        expected: KindId,
        /// The symbol's kind.
        actual: KindId,
    },
    /// A ledger mapping combines symbols of different kinds.
    LedgerBoundaryKindMismatch {
        /// The ledger.
        ledger: LedgerId,
        /// The offending boundary.
        boundary: BoundaryId,
        /// The ledger's kind.
        ledger_kind: KindId,
        /// The boundary's kind.
        boundary_kind: KindId,
    },
    /// Existing graded trace checking rejected the projected model.
    Trace(TraceError),
    /// Exact matrix construction failed.
    Matrix(MatrixError),
    /// Canonical balance-law construction failed.
    BalanceLaw(BalanceLawError),
    /// A proposed certificate does not annihilate one internal-flow column.
    NonNullCertificate {
        /// The first column, in canonical order, with a nonzero product.
        flow: FlowId,
        /// That product.
        residual: Box<Rational>,
    },
    /// A projected invariant does not account for a nonzero boundary term.
    UncoveredBoundary(BoundaryId),
    /// Selected ledger mappings account for one boundary more than once.
    DuplicateBoundaryCoverage(BoundaryId),
    /// One selected ledger groups boundaries with different law coefficients.
    IncompatibleLedgerCoefficient(LedgerId),
    /// A law suite repeats one sentence identifier.
    DuplicateSentence(SentenceId),
}

/// Whether no two of the first `count` entries share an identifier.
pub open spec fn distinct_prefix<I: Named, T>(values: Seq<(I, T)>, count: int) -> bool {
    forall|i: int, j: int| 0 <= i < j < count ==> (#[trigger] values[i]).0@ != (#[trigger] values[j]).0@
}

/// A complete, canonical vector of exact typed amounts: one kind and amount
/// per identifier, in identifier order.
#[derive(Debug, PartialEq, Eq)]
pub struct ExactAmounts<I: Symbol> {
    values: Vec<(I, (KindId, Rational))>,
}

impl<I: Symbol> ExactAmounts<I> {
    /// The entries in identifier order.
    pub closed spec fn table(&self) -> Seq<(I, (KindId, Rational))> {
        self.values@
    }

    #[verifier::type_invariant]
    closed spec fn canonical(&self) -> bool {
        keys_sorted(self.values@)
    }

    /// Whether the vector names `key`.
    pub open spec fn names(&self, key: Seq<char>) -> bool {
        holds(self.table(), key)
    }

    /// The exact amount named `key`.
    pub open spec fn amount_of(&self, key: Seq<char>) -> real {
        value_of(self.table(), key).1@
    }

    /// The kind supplied for `key`.
    pub open spec fn kind_of(&self, key: Seq<char>) -> Seq<char> {
        value_of(self.table(), key).0@
    }

    /// The entries are in strictly increasing identifier order.
    pub fn check_canonical(&self)
        ensures
            keys_sorted(self.table()),
    {
        proof {
            use_type_invariant(self);
        }
    }
}

/// Whether `amounts` holds exactly the entries of `values`, which name
/// distinct identifiers.
pub open spec fn holds_entries<I: Symbol>(amounts: ExactAmounts<I>, values: Seq<(I, KindId, Rational)>) -> bool {
    &&& amounts.table().len() == values.len()
    &&& forall|i: int| 0 <= i < values.len() ==> {
        &&& #[trigger] amounts.names(values[i].0@)
        &&& amounts.kind_of(values[i].0@) == values[i].1@
        &&& amounts.amount_of(values[i].0@) == values[i].2@
    }
    &&& forall|key: Seq<char>| #[trigger] amounts.names(key) ==> exists|i: int| 0 <= i < values.len() && #[trigger] values[i].0@ == key
}

/// Whether no two entries of `values` name the same identifier.
pub open spec fn distinct_triples<I: Symbol>(values: Seq<(I, KindId, Rational)>) -> bool {
    forall|i: int, j: int| 0 <= i < j < values.len() ==> (#[trigger] values[i]).0@ != (#[trigger] values[j]).0@
}

/// Whether entry `j` is the first to repeat an earlier identifier.
pub open spec fn first_repeat<I: Symbol>(values: Seq<(I, KindId, Rational)>, j: int) -> bool {
    &&& 0 <= j < values.len()
    &&& forall|a: int, b: int| 0 <= a < b < j ==> (#[trigger] values[a]).0@ != (#[trigger] values[b]).0@
    &&& exists|i: int| 0 <= i < j && (#[trigger] values[i]).0@ == values[j].0@
}

impl<I: Symbol> ExactAmounts<I> {
    /// Constructs an exact vector, rejecting the first entry that repeats an
    /// earlier identifier.
    pub fn new(values: Vec<(I, KindId, Rational)>) -> (result: Result<Self, StockFlowError>)
        ensures
            result is Ok <==> distinct_triples(values@),
            match result {
                Ok(amounts) => holds_entries(amounts, values@),
                Err(error) => exists|j: int| #[trigger] first_repeat(values@, j) && error == StockFlowError::DuplicateValue(
                    values@[j].0.symbol_spec(),
                ),
            },
    {
        let ghost input = values@;
        let mut table: Vec<(I, (KindId, Rational))> = Vec::new();
        let mut rest = values;
        let mut taken: usize = 0;
        let total = rest.len();
        while rest.len() > 0
            invariant
                input == values@,
                total == input.len(),
                taken + rest@.len() == total,
                rest@ == input.subrange(taken as int, total as int),
                keys_sorted(table@),
                table@.len() == taken,
                forall|a: int, b: int| 0 <= a < b < taken ==> (#[trigger] input[a]).0@ != (#[trigger] input[b]).0@,
                forall|i: int| 0 <= i < taken ==> {
                    &&& #[trigger] holds(table@, input[i].0@)
                    &&& value_of(table@, input[i].0@).0@ == input[i].1@
                    &&& value_of(table@, input[i].0@).1@ == input[i].2@
                },
                forall|key: Seq<char>| #[trigger] holds(table@, key) ==> exists|i: int| 0 <= i < taken && #[trigger] input[i].0@ == key,
            decreases rest.len(),
        {
            let entry = rest.remove(0);
            let ghost j = taken as int;
            assert(entry == input[j]);
            let (id, kind, amount) = entry;
            let symbol = id.symbol_id();
            let ghost before = table@;
            match insert_sorted(&mut table, id, (kind, amount)) {
                Ok(p) => {
                    proof {
                        let entry_j = input[j];
                        assert forall|a: int, b: int| 0 <= a < b < taken + 1 implies (#[trigger] input[a]).0@
                            != (#[trigger] input[b]).0@ by {
                            if b == j && input[a].0@ == input[b].0@ {
                                assert(holds(before, input[a].0@));
                            }
                        }
                        assert forall|i: int| 0 <= i < taken + 1 implies {
                            &&& #[trigger] holds(table@, input[i].0@)
                            &&& value_of(table@, input[i].0@).0@ == input[i].1@
                            &&& value_of(table@, input[i].0@).1@ == input[i].2@
                        } by {
                            if i < j {
                                assert(holds(before, input[i].0@));
                                let q = choose|q: int| 0 <= q < before.len() && (#[trigger] before[q]).0@ == input[i].0@;
                                lemma_position(before, q);
                                let r = if q < p { q } else { q + 1 };
                                assert(table@[r] == before[q]);
                                lemma_position(table@, r);
                            } else {
                                assert(table@[p as int] == (input[j].0, (input[j].1, input[j].2)));
                                lemma_position(table@, p as int);
                            }
                        }
                        assert forall|key: Seq<char>| #[trigger] holds(table@, key) implies exists|i: int|
                            0 <= i < taken + 1 && #[trigger] input[i].0@ == key by {
                            let r = choose|r: int| 0 <= r < table@.len() && (#[trigger] table@[r]).0@ == key;
                            if r < p {
                                assert(before[r] == table@[r]);
                                assert(holds(before, key));
                            } else if r > p {
                                assert(before[r - 1] == table@[r]);
                                assert(holds(before, key));
                            } else {
                                assert(input[j].0@ == key);
                            }
                        }
                    }
                    taken += 1;
                },
                Err(i) => {
                    proof {
                        assert(before[i as int].0@ == input[j].0@);
                        assert(holds(before, input[j].0@));
                        assert(exists|k: int| 0 <= k < taken && #[trigger] input[k].0@ == input[j].0@);
                        let k = choose|k: int| 0 <= k < taken && #[trigger] input[k].0@ == input[j].0@;
                        assert(first_repeat(input, j));
                        assert(!distinct_triples(input)) by {
                            assert(input[k].0@ == input[j].0@);
                        }
                        assert(symbol == input[j].0.symbol_spec());
                    }
                    return Err(StockFlowError::DuplicateValue(symbol));
                },
            }
        }
        let result = ExactAmounts { values: table };
        proof {
            assert(holds_entries(result, input));
        }
        Ok(result)
    }

    /// Returns one exact amount when its symbol is present.
    pub fn amount(&self, id: &I) -> (result: Option<&Rational>)
        ensures
            match result {
                Some(amount) => self.names(id@) && amount@ == self.amount_of(id@),
                None => !self.names(id@),
            },
    {
        proof {
            use_type_invariant(self);
        }
        match find_key(&self.values, id.text()) {
            Some(index) => Some(&self.values[index].1.1),
            None => None,
        }
    }

    /// Returns one supplied kind when its symbol is present.
    pub fn kind(&self, id: &I) -> (result: Option<&KindId>)
        ensures
            match result {
                Some(kind) => self.names(id@) && kind@ == self.kind_of(id@),
                None => !self.names(id@),
            },
    {
        proof {
            use_type_invariant(self);
        }
        match find_key(&self.values, id.text()) {
            Some(index) => Some(&self.values[index].1.0),
            None => None,
        }
    }

    /// The entries in canonical identifier order.
    pub fn iter(&self) -> (result: &[(I, (KindId, Rational))])
        ensures
            result@ == self.table(),
            keys_sorted(result@),
    {
        proof {
            use_type_invariant(self);
        }
        self.values.as_slice()
    }

    /// Returns the number of named amounts.
    pub fn len(&self) -> (result: usize)
        ensures
            result == self.table().len(),
    {
        self.values.len()
    }

    /// Returns whether this vector has no named amounts.
    pub fn is_empty(&self) -> (result: bool)
        ensures
            result == (self.table().len() == 0),
    {
        self.values.len() == 0
    }
}


/// Assigns a domain-neutral axis name to one settlement stock.
#[derive(Clone, Debug, PartialEq, Eq)]
pub struct StockAxisDefinition {
    /// Existing settlement stock.
    pub stock: StockId,
    /// Domain-neutral matrix axis.
    pub axis: AxisId,
}

/// Declares one cumulative ledger and its projected trace axis.
#[derive(Clone, Debug, PartialEq, Eq)]
pub struct LedgerDefinition {
    /// Stable ledger identifier used by correspondence sentences.
    pub id: LedgerId,
    /// Axis used by graded state-trace projections.
    pub axis: AxisId,
    /// Quantity kind accumulated by the ledger.
    pub kind: KindId,
    /// Nonempty same-kind input or output ports accumulated by the ledger.
    pub boundaries: Vec<BoundaryId>,
}

/// Canonical identity of one cumulative boundary ledger.
#[derive(Debug, PartialEq, Eq)]
pub struct LedgerIdentity {
    axis: AxisId,
    kind: KindId,
    boundaries: Vec<(BoundaryId, ())>,
}

impl LedgerIdentity {
    /// Axis used by graded state-trace projections.
    pub closed spec fn axis_spec(&self) -> AxisId {
        self.axis
    }

    /// Quantity kind accumulated by the ledger.
    pub closed spec fn kind_spec(&self) -> KindId {
        self.kind
    }

    /// The mapped boundary ports in identifier order.
    pub closed spec fn port_table(&self) -> Seq<(BoundaryId, ())> {
        self.boundaries@
    }

    #[verifier::type_invariant]
    closed spec fn ordered_ports(&self) -> bool {
        keys_sorted(self.boundaries@)
    }

    /// Axis used by graded state-trace projections.
    pub fn axis(&self) -> (result: &AxisId)
        ensures
            *result == self.axis_spec(),
    {
        &self.axis
    }

    /// Quantity kind accumulated by the ledger.
    pub fn kind(&self) -> (result: &KindId)
        ensures
            *result == self.kind_spec(),
    {
        &self.kind
    }

    /// Canonical mapped boundary ports.
    pub fn boundaries(&self) -> (result: Vec<BoundaryId>)
        ensures
            result@.len() == self.port_table().len(),
            forall|i: int| 0 <= i < result@.len() ==> #[trigger] result@[i] == self.port_table()[i].0,
            keys_sorted(self.port_table()),
    {
        proof {
            use_type_invariant(self);
        }
        let mut result: Vec<BoundaryId> = Vec::new();
        let mut i: usize = 0;
        while i < self.boundaries.len()
            invariant
                i <= self.boundaries@.len(),
                result@.len() == i,
                forall|j: int| 0 <= j < i ==> #[trigger] result@[j] == self.boundaries@[j].0,
            decreases self.boundaries.len() - i,
        {
            result.push(self.boundaries[i].0.clone());
            i += 1;
        }
        result
    }
}

impl Clone for LedgerIdentity {
    fn clone(&self) -> (result: Self)
        ensures
            result.axis_spec() == self.axis_spec(),
            result.kind_spec() == self.kind_spec(),
            result.port_table() == self.port_table(),
    {
        proof {
            use_type_invariant(self);
        }
        let mut ports: Vec<(BoundaryId, ())> = Vec::new();
        let mut i: usize = 0;
        while i < self.boundaries.len()
            invariant
                i <= self.boundaries@.len(),
                ports@ == self.boundaries@.take(i as int),
            decreases self.boundaries.len() - i,
        {
            let port = self.boundaries[i].0.clone();
            proof {
                let unit = self.boundaries@[i as int].1;
                assert(unit == ());
                assert((port, ()) == self.boundaries@[i as int]);
            }
            ports.push((port, ()));
            proof {
                assert(ports@ =~= self.boundaries@.take(i + 1));
            }
            i += 1;
        }
        proof {
            assert(ports@ =~= self.boundaries@);
        }
        LedgerIdentity { axis: self.axis.clone(), kind: self.kind.clone(), boundaries: ports }
    }
}

/// A canonical exact matrix over named axes and typed columns.
#[derive(Debug, PartialEq, Eq)]
pub struct ExactEffectMatrix<C: Symbol> {
    rows: Vec<(AxisId, KindId)>,
    columns: Vec<(C, KindId)>,
    entries: Vec<Vec<Rational>>,
}

impl<C: Symbol> ExactEffectMatrix<C> {
    /// Row axes and their kinds, in axis order.
    pub closed spec fn row_table(&self) -> Seq<(AxisId, KindId)> {
        self.rows@
    }

    /// Columns and their kinds, in identifier order.
    pub closed spec fn column_table(&self) -> Seq<(C, KindId)> {
        self.columns@
    }

    /// The exact coefficient at row `r` and column `c`.
    pub closed spec fn entry(&self, r: int, c: int) -> real {
        self.entries@[r]@[c]@
    }

    #[verifier::type_invariant]
    closed spec fn total(&self) -> bool {
        &&& keys_sorted(self.rows@)
        &&& keys_sorted(self.columns@)
        &&& self.entries@.len() == self.rows@.len()
        &&& forall|r: int| 0 <= r < self.entries@.len() ==> (#[trigger] self.entries@[r])@.len() == self.columns@.len()
    }

    /// The exact coefficient for an axis and column named by text.
    pub open spec fn coefficient_of(&self, axis: Seq<char>, column: Seq<char>) -> real {
        self.entry(position(self.row_table(), axis), position(self.column_table(), column))
    }

    /// Rows and columns are in identifier order.
    pub fn check_total(&self)
        ensures
            keys_sorted(self.row_table()),
            keys_sorted(self.column_table()),
    {
        proof {
            use_type_invariant(self);
        }
    }

    /// Canonical row identifiers.
    pub fn axes(&self) -> (result: Vec<AxisId>)
        ensures
            result@.len() == self.row_table().len(),
            forall|i: int| 0 <= i < result@.len() ==> #[trigger] result@[i] == self.row_table()[i].0,
    {
        let mut result: Vec<AxisId> = Vec::new();
        let mut i: usize = 0;
        while i < self.rows.len()
            invariant
                i <= self.rows@.len(),
                result@.len() == i,
                forall|j: int| 0 <= j < i ==> #[trigger] result@[j] == self.rows@[j].0,
            decreases self.rows.len() - i,
        {
            result.push(self.rows[i].0.clone());
            i += 1;
        }
        result
    }

    /// Canonical column identifiers.
    pub fn columns(&self) -> (result: Vec<C>)
        ensures
            result@.len() == self.column_table().len(),
            forall|i: int| 0 <= i < result@.len() ==> #[trigger] result@[i] == self.column_table()[i].0,
    {
        let mut result: Vec<C> = Vec::new();
        let mut i: usize = 0;
        while i < self.columns.len()
            invariant
                i <= self.columns@.len(),
                result@.len() == i,
                forall|j: int| 0 <= j < i ==> #[trigger] result@[j] == self.columns@[j].0,
            decreases self.columns.len() - i,
        {
            result.push(self.columns[i].0.duplicate());
            i += 1;
        }
        result
    }

    /// Returns the kind of a row axis.
    pub fn axis_kind(&self, axis: &AxisId) -> (result: Option<&KindId>)
        ensures
            match result {
                Some(kind) => holds(self.row_table(), axis@) && *kind == value_of(self.row_table(), axis@),
                None => !holds(self.row_table(), axis@),
            },
    {
        proof {
            use_type_invariant(self);
        }
        match find_key(&self.rows, axis.text()) {
            Some(r) => Some(&self.rows[r].1),
            None => None,
        }
    }

    /// Returns the kind of a matrix column.
    pub fn column_kind(&self, column: &C) -> (result: Option<&KindId>)
        ensures
            match result {
                Some(kind) => holds(self.column_table(), column@) && *kind == value_of(self.column_table(), column@),
                None => !holds(self.column_table(), column@),
            },
    {
        proof {
            use_type_invariant(self);
        }
        match find_key(&self.columns, column.text()) {
            Some(c) => Some(&self.columns[c].1),
            None => None,
        }
    }

    /// Returns an exact matrix coefficient, or `None` outside the total shape.
    pub fn coefficient(&self, axis: &AxisId, column: &C) -> (result: Option<&Rational>)
        ensures
            match result {
                Some(value) => holds(self.row_table(), axis@) && holds(self.column_table(), column@) && value@
                    == self.coefficient_of(axis@, column@),
                None => !(holds(self.row_table(), axis@) && holds(self.column_table(), column@)),
            },
    {
        proof {
            use_type_invariant(self);
        }
        match find_key(&self.rows, axis.text()) {
            Some(r) => match find_key(&self.columns, column.text()) {
                Some(c) => Some(&self.entries[r][c]),
                None => None,
            },
            None => None,
        }
    }

    /// The coefficient at a row and column position.
    pub fn entry_at(&self, r: usize, c: usize) -> (result: &Rational)
        requires
            r < self.row_table().len(),
            c < self.column_table().len(),
        ensures
            result@ == self.entry(r as int, c as int),
    {
        proof {
            use_type_invariant(self);
        }
        &self.entries[r][c]
    }

    /// The rows and their kinds, in axis order.
    pub fn row_slice(&self) -> (result: &[(AxisId, KindId)])
        ensures
            result@ == self.row_table(),
    {
        self.rows.as_slice()
    }

    /// The columns and their kinds, in identifier order.
    pub fn column_slice(&self) -> (result: &[(C, KindId)])
        ensures
            result@ == self.column_table(),
    {
        self.columns.as_slice()
    }

    /// The number of rows and columns.
    pub fn shape(&self) -> (result: (usize, usize))
        ensures
            result.0 == self.row_table().len(),
            result.1 == self.column_table().len(),
    {
        (self.rows.len(), self.columns.len())
    }
}


/// Whether the topology has a stock named `stock`.
pub open spec fn stock_known(topology: FlowTopology<KindId>, stock: Seq<char>) -> bool {
    exists|s: int| 0 <= s < topology.stock_ids().len() && (#[trigger] topology.stock_ids()[s])@ == stock
}

/// The index of the topology stock named `stock`.
pub open spec fn stock_index_of(topology: FlowTopology<KindId>, stock: Seq<char>) -> int {
    choose|s: int| 0 <= s < topology.stock_ids().len() && (#[trigger] topology.stock_ids()[s])@ == stock
}

/// The kind of the topology stock named `stock`.
pub open spec fn stock_kind_of(topology: FlowTopology<KindId>, stock: Seq<char>) -> KindId {
    topology.kind_seq()[topology.stock_kind_seq()[stock_index_of(topology, stock)] as int]
}

/// Whether the first `count` declarations name known stocks, and no two of
/// them name the same stock or the same axis.
pub open spec fn stock_axes_valid(topology: FlowTopology<KindId>, defs: Seq<StockAxisDefinition>, count: int) -> bool {
    &&& forall|i: int| 0 <= i < count ==> stock_known(topology, (#[trigger] defs[i]).stock@)
    &&& forall|i: int, j: int| 0 <= i < j < count ==> (#[trigger] defs[i]).stock@ != (#[trigger] defs[j]).stock@
        && defs[i].axis@ != defs[j].axis@
}

/// Whether `error` is what declaration `n` raises once the earlier ones are
/// accepted: an unknown stock, then a stock named before, then an axis named
/// before.
pub open spec fn stock_axis_refusal(
    topology: FlowTopology<KindId>,
    defs: Seq<StockAxisDefinition>,
    n: int,
    error: StockFlowError,
) -> bool {
    let def = defs[n];
    if !stock_known(topology, def.stock@) {
        error matches StockFlowError::UnknownStock(s) && s@ == def.stock@
    } else if exists|i: int| 0 <= i < n && (#[trigger] defs[i]).stock@ == def.stock@ {
        error matches StockFlowError::DuplicateStock(s) && s@ == def.stock@
    } else {
        &&& exists|i: int| 0 <= i < n && (#[trigger] defs[i]).axis@ == def.axis@
        &&& error matches StockFlowError::DuplicateAxis(a) && a@ == def.axis@
    }
}

/// Whether the tables hold the first `count` declarations: each stock maps to
/// its axis, each axis to its stock's kind, and nothing else is held.
pub open spec fn stock_tables_hold(
    topology: FlowTopology<KindId>,
    defs: Seq<StockAxisDefinition>,
    count: int,
    by_stock: Seq<(StockId, AxisId)>,
    rows: Seq<(AxisId, KindId)>,
) -> bool {
    &&& keys_sorted(by_stock)
    &&& keys_sorted(rows)
    &&& by_stock.len() == count
    &&& rows.len() == count
    &&& forall|i: int| 0 <= i < count ==> {
        &&& #[trigger] holds(by_stock, defs[i].stock@)
        &&& value_of(by_stock, defs[i].stock@)@ == defs[i].axis@
        &&& holds(rows, defs[i].axis@)
        &&& value_of(rows, defs[i].axis@)@ == stock_kind_of(topology, defs[i].stock@)@
    }
    &&& forall|k: Seq<char>| #[trigger] holds(by_stock, k) ==> exists|i: int| 0 <= i < count && (#[trigger] defs[i]).stock@ == k
    &&& forall|k: Seq<char>| #[trigger] holds(rows, k) ==> exists|i: int| 0 <= i < count && (#[trigger] defs[i]).axis@ == k
}

/// After an insertion into a sorted table, an earlier key keeps its value.
proof fn lemma_insert_keeps<I: Named, T>(before: Seq<(I, T)>, after: Seq<(I, T)>, p: int, entry: (I, T), key: Seq<char>)
    requires
        keys_sorted(before),
        keys_sorted(after),
        0 <= p <= before.len(),
        after == before.insert(p, entry),
        holds(before, key),
    ensures
        holds(after, key),
        value_of(after, key) == value_of(before, key),
{
    let q = choose|q: int| 0 <= q < before.len() && (#[trigger] before[q]).0@ == key;
    lemma_position(before, q);
    let r = if q < p { q } else { q + 1 };
    assert(after[r] == before[q]);
    lemma_position(after, r);
}

/// After an insertion into a sorted table, the inserted key has its value.
proof fn lemma_insert_found<I: Named, T>(before: Seq<(I, T)>, after: Seq<(I, T)>, p: int, entry: (I, T))
    requires
        keys_sorted(after),
        0 <= p <= before.len(),
        after == before.insert(p, entry),
    ensures
        holds(after, entry.0@),
        value_of(after, entry.0@) == entry.1,
{
    assert(after[p] == entry);
    lemma_position(after, p);
}

/// A key held after an insertion was held before or is the inserted one.
proof fn lemma_insert_source<I: Named, T>(before: Seq<(I, T)>, after: Seq<(I, T)>, p: int, entry: (I, T), key: Seq<char>)
    requires
        0 <= p <= before.len(),
        after == before.insert(p, entry),
        holds(after, key),
    ensures
        holds(before, key) || entry.0@ == key,
{
    let r = choose|r: int| 0 <= r < after.len() && (#[trigger] after[r]).0@ == key;
    if r < p {
        assert(before[r] == after[r]);
    } else if r > p {
        assert(before[r - 1] == after[r]);
    }
}

/// Maps each declared stock to its axis and each axis to its stock's kind.
fn map_stock_axes(topology: &FlowTopology<KindId>, defs: &Vec<StockAxisDefinition>) -> (result: Result<
    (Vec<(StockId, AxisId)>, Vec<(AxisId, KindId)>),
    StockFlowError,
>)
    ensures
        result is Ok <==> stock_axes_valid(*topology, defs@, defs@.len() as int),
        match result {
            Ok((by_stock, rows)) => stock_tables_hold(*topology, defs@, defs@.len() as int, by_stock@, rows@),
            Err(error) => exists|n: int|
                0 <= n < defs@.len() && stock_axes_valid(*topology, defs@, n) && #[trigger] stock_axis_refusal(
                    *topology,
                    defs@,
                    n,
                    error,
                ),
        },
{
    topology.check_well_formed();
    let mut by_stock: Vec<(StockId, AxisId)> = Vec::new();
    let mut rows: Vec<(AxisId, KindId)> = Vec::new();
    let mut n: usize = 0;
    while n < defs.len()
        invariant
            topology.well_formed(),
            n <= defs@.len(),
            stock_axes_valid(*topology, defs@, n as int),
            stock_tables_hold(*topology, defs@, n as int, by_stock@, rows@),
        decreases defs.len() - n,
    {
        let def = &defs[n];
        let index = match topology.stock_index(&def.stock) {
            Some(index) => index,
            None => {
                let error = StockFlowError::UnknownStock(def.stock.clone());
                proof {
                    assert(stock_axis_refusal(*topology, defs@, n as int, error));
                }
                return Err(error);
            },
        };
        proof {
            assert(stock_known(*topology, def.stock@));
            let chosen = stock_index_of(*topology, def.stock@);
            if chosen != index {
                assert(topology.stock_ids()[chosen]@ == topology.stock_ids()[index as int]@);
            }
        }
        let kind = topology.kinds()[topology.stock_kind(index)].clone();
        let ghost stocks_before = by_stock@;
        let ghost rows_before = rows@;
        match insert_sorted(&mut by_stock, def.stock.clone(), def.axis.clone()) {
            Ok(p) => {
                match insert_sorted(&mut rows, def.axis.clone(), kind) {
                    Ok(q) => {
                        proof {
                            let count = n as int;
                            assert forall|i: int, j: int| 0 <= i < j < count + 1 implies (#[trigger] defs@[i]).stock@
                                != (#[trigger] defs@[j]).stock@ && defs@[i].axis@ != defs@[j].axis@ by {
                                if j == count {
                                    if defs@[i].stock@ == defs@[j].stock@ {
                                        assert(holds(stocks_before, defs@[i].stock@));
                                    }
                                    if defs@[i].axis@ == defs@[j].axis@ {
                                        assert(holds(stocks_before, defs@[i].stock@));
                                        assert(holds(rows_before, defs@[i].axis@));
                                    }
                                }
                            }
                            assert forall|i: int| 0 <= i < count + 1 implies {
                                &&& #[trigger] holds(by_stock@, defs@[i].stock@)
                                &&& value_of(by_stock@, defs@[i].stock@)@ == defs@[i].axis@
                                &&& holds(rows@, defs@[i].axis@)
                                &&& value_of(rows@, defs@[i].axis@)@ == stock_kind_of(*topology, defs@[i].stock@)@
                            } by {
                                if i < count {
                                    assert(holds(stocks_before, defs@[i].stock@));
                                    lemma_insert_keeps(stocks_before, by_stock@, p as int, (def.stock, def.axis), defs@[i].stock@);
                                    lemma_insert_keeps(rows_before, rows@, q as int, (def.axis, kind), defs@[i].axis@);
                                } else {
                                    lemma_insert_found(stocks_before, by_stock@, p as int, (def.stock, def.axis));
                                    lemma_insert_found(rows_before, rows@, q as int, (def.axis, kind));
                                }
                            }
                            assert forall|k: Seq<char>| #[trigger] holds(by_stock@, k) implies exists|i: int|
                                0 <= i < count + 1 && (#[trigger] defs@[i]).stock@ == k by {
                                lemma_insert_source(stocks_before, by_stock@, p as int, (def.stock, def.axis), k);
                                if !holds(stocks_before, k) {
                                    assert(defs@[count].stock@ == k);
                                }
                            }
                            assert forall|k: Seq<char>| #[trigger] holds(rows@, k) implies exists|i: int|
                                0 <= i < count + 1 && (#[trigger] defs@[i]).axis@ == k by {
                                lemma_insert_source(rows_before, rows@, q as int, (def.axis, kind), k);
                                if !holds(rows_before, k) {
                                    assert(defs@[count].axis@ == k);
                                }
                            }
                        }
                        n += 1;
                    },
                    Err(i) => {
                        let error = StockFlowError::DuplicateAxis(def.axis.clone());
                        proof {
                            assert(holds(rows_before, def.axis@));
                            assert(!holds(stocks_before, def.stock@));
                            assert(!(exists|i: int| 0 <= i < n && (#[trigger] defs@[i]).stock@ == def.stock@)) by {
                                if exists|i: int| 0 <= i < n && (#[trigger] defs@[i]).stock@ == def.stock@ {
                                    let i = choose|i: int| 0 <= i < n && (#[trigger] defs@[i]).stock@ == def.stock@;
                                    assert(holds(stocks_before, defs@[i].stock@));
                                }
                            }
                            assert(stock_axis_refusal(*topology, defs@, n as int, error));
                        }
                        return Err(error);
                    },
                }
            },
            Err(i) => {
                let error = StockFlowError::DuplicateStock(def.stock.clone());
                proof {
                    assert(holds(stocks_before, def.stock@));
                    assert(stock_axis_refusal(*topology, defs@, n as int, error));
                }
                return Err(error);
            },
        }
    }
    Ok((by_stock, rows))
}


/// Whether a channel name suits a flow slot's role: internal names for
/// transfers, boundary names for inputs and outputs.
pub open spec fn channel_fits(role: FlowRole, channel: ChannelId) -> bool {
    match channel {
        ChannelId::Internal(_) => role == FlowRole::Transfer,
        ChannelId::Boundary(_) => role != FlowRole::Transfer,
    }
}

/// Whether two channel names are the same name of the same class.
pub open spec fn same_channel(a: ChannelId, b: ChannelId) -> bool {
    match (a, b) {
        (ChannelId::Internal(x), ChannelId::Internal(y)) => x@ == y@,
        (ChannelId::Boundary(x), ChannelId::Boundary(y)) => x@ == y@,
        _ => false,
    }
}

/// Whether a channel is the internal channel named `flow`.
pub open spec fn names_internal(channel: ChannelId, flow: Seq<char>) -> bool {
    channel matches ChannelId::Internal(f) && f@ == flow
}

/// Whether a channel is the boundary channel named `port`.
pub open spec fn names_boundary(channel: ChannelId, port: Seq<char>) -> bool {
    channel matches ChannelId::Boundary(b) && b@ == port
}

/// Whether the first `count` channel names suit their slots and no name repeats.
pub open spec fn channels_valid(topology: FlowTopology<KindId>, channels: Seq<ChannelId>, count: int) -> bool {
    &&& forall|t: int| 0 <= t < count ==> channel_fits(topology.flow_seq()[t].role_spec(), #[trigger] channels[t])
    &&& forall|t: int, u: int| 0 <= t < u < count ==> !same_channel(#[trigger] channels[t], #[trigger] channels[u])
}

/// Whether `error` is what the channel at slot `n` raises once the earlier
/// ones are accepted: a name of the wrong class, then a repeated name.
pub open spec fn channel_refusal(
    topology: FlowTopology<KindId>,
    channels: Seq<ChannelId>,
    n: int,
    error: StockFlowError,
) -> bool {
    let role = topology.flow_seq()[n].role_spec();
    if !channel_fits(role, channels[n]) {
        error == StockFlowError::ChannelRole { channel: channels[n], actual: role }
    } else {
        &&& exists|t: int| 0 <= t < n && same_channel(#[trigger] channels[t], channels[n])
        &&& match channels[n] {
            ChannelId::Internal(f) => error matches StockFlowError::DuplicateFlow(g) && g@ == f@,
            ChannelId::Boundary(b) => error matches StockFlowError::DuplicateBoundary(c) && c@ == b@,
        }
    }
}

/// The kind of the balance that the flow in slot `t` enters.
pub open spec fn slot_kind(topology: FlowTopology<KindId>, t: int) -> KindId {
    topology.kind_seq()[topology.flow_seq()[t].kind_spec() as int]
}

/// The axis a stock table assigns to topology stock `s`.
pub open spec fn stock_axis(topology: FlowTopology<KindId>, by_stock: Seq<(StockId, AxisId)>, s: int) -> AxisId {
    value_of(by_stock, topology.stock_ids()[s]@)
}

/// The stock a boundary flow touches.
pub open spec fn boundary_stock(topology: FlowTopology<KindId>, t: int) -> int {
    match topology.flow_seq()[t].source_spec() {
        Some(s) => s as int,
        None => topology.flow_seq()[t].target_spec()->0 as int,
    }
}

/// One internal-flow column: its kind and its source and target axes.
#[derive(Debug, PartialEq, Eq)]
struct InternalColumn {
    kind: KindId,
    source: AxisId,
    target: AxisId,
}

/// One boundary-flow column: its kind, its stock's axis and its role.
#[derive(Debug, PartialEq, Eq)]
struct BoundaryColumn {
    kind: KindId,
    stock: AxisId,
    role: FlowRole,
}

/// Whether `column` describes the transfer in slot `t`.
spec fn internal_column_for(
    topology: FlowTopology<KindId>,
    by_stock: Seq<(StockId, AxisId)>,
    t: int,
    column: InternalColumn,
) -> bool {
    let flow = topology.flow_seq()[t];
    &&& column.kind@ == slot_kind(topology, t)@
    &&& column.source@ == stock_axis(topology, by_stock, flow.source_spec()->0 as int)@
    &&& column.target@ == stock_axis(topology, by_stock, flow.target_spec()->0 as int)@
}

/// Whether `column` describes the boundary flow in slot `t`.
spec fn boundary_column_for(
    topology: FlowTopology<KindId>,
    by_stock: Seq<(StockId, AxisId)>,
    t: int,
    column: BoundaryColumn,
) -> bool {
    &&& column.kind@ == slot_kind(topology, t)@
    &&& column.stock@ == stock_axis(topology, by_stock, boundary_stock(topology, t))@
    &&& column.role == topology.flow_seq()[t].role_spec()
}

/// Whether the column tables hold the first `count` channels.
spec fn channel_tables_hold(
    topology: FlowTopology<KindId>,
    by_stock: Seq<(StockId, AxisId)>,
    channels: Seq<ChannelId>,
    count: int,
    internal: Seq<(FlowId, InternalColumn)>,
    boundary: Seq<(BoundaryId, BoundaryColumn)>,
) -> bool {
    &&& keys_sorted(internal)
    &&& keys_sorted(boundary)
    &&& forall|t: int| 0 <= t < count ==> match #[trigger] channels[t] {
        ChannelId::Internal(f) => holds(internal, f@) && internal_column_for(topology, by_stock, t, value_of(internal, f@)),
        ChannelId::Boundary(b) => holds(boundary, b@) && boundary_column_for(topology, by_stock, t, value_of(boundary, b@)),
    }
    &&& forall|k: Seq<char>| #[trigger] holds(internal, k) ==> exists|t: int| 0 <= t < count && #[trigger] names_internal(channels[t], k)
    &&& forall|k: Seq<char>| #[trigger] holds(boundary, k) ==> exists|t: int| 0 <= t < count && #[trigger] names_boundary(channels[t], k)
}

/// Whether every topology stock has an axis in the table.
pub open spec fn covers_stocks(topology: FlowTopology<KindId>, by_stock: Seq<(StockId, AxisId)>) -> bool {
    forall|s: int| 0 <= s < topology.stock_ids().len() ==> holds(by_stock, (#[trigger] topology.stock_ids()[s])@)
}

/// The axis assigned to topology stock `s`.
fn axis_of_stock(topology: &FlowTopology<KindId>, by_stock: &Vec<(StockId, AxisId)>, s: usize) -> (result: AxisId)
    requires
        keys_sorted(by_stock@),
        covers_stocks(*topology, by_stock@),
        s < topology.stock_ids().len(),
    ensures
        result == stock_axis(*topology, by_stock@, s as int),
{
    let stock = &topology.stocks()[s];
    proof {
        assert(holds(by_stock@, topology.stock_ids()[s as int]@));
    }
    match find_key(by_stock, stock.as_str()) {
        Some(index) => {
            proof {
                lemma_position(by_stock@, index as int);
            }
            by_stock[index].1.clone()
        },
        None => {
            proof {
                assert(false);
            }
            by_stock[0].1.clone()
        },
    }
}

/// Names each flow slot's column, keyed by its channel name.
fn map_channels(
    topology: &FlowTopology<KindId>,
    by_stock: &Vec<(StockId, AxisId)>,
    channels: &Vec<ChannelId>,
) -> (result: Result<(Vec<(FlowId, InternalColumn)>, Vec<(BoundaryId, BoundaryColumn)>), StockFlowError>)
    requires
        keys_sorted(by_stock@),
        covers_stocks(*topology, by_stock@),
        channels@.len() == topology.flow_seq().len(),
    ensures
        result is Ok <==> channels_valid(*topology, channels@, channels@.len() as int),
        match result {
            Ok((internal, boundary)) => channel_tables_hold(
                *topology,
                by_stock@,
                channels@,
                channels@.len() as int,
                internal@,
                boundary@,
            ),
            Err(error) => exists|n: int|
                0 <= n < channels@.len() && channels_valid(*topology, channels@, n) && #[trigger] channel_refusal(
                    *topology,
                    channels@,
                    n,
                    error,
                ),
        },
{
    topology.check_well_formed();
    let flows = topology.flows();
    let mut internal: Vec<(FlowId, InternalColumn)> = Vec::new();
    let mut boundary: Vec<(BoundaryId, BoundaryColumn)> = Vec::new();
    let mut t: usize = 0;
    while t < channels.len()
        invariant
            topology.well_formed(),
            flows@ == topology.flow_seq(),
            keys_sorted(by_stock@),
            covers_stocks(*topology, by_stock@),
            channels@.len() == flows@.len(),
            t <= channels@.len(),
            channels_valid(*topology, channels@, t as int),
            channel_tables_hold(*topology, by_stock@, channels@, t as int, internal@, boundary@),
        decreases channels.len() - t,
    {
        let flow = flows[t];
        proof {
            assert(flow_well_formed(
                flow,
                topology.stock_kind_seq(),
                topology.kind_seq().len() as int,
                topology.process_ids().len() as int,
            ));
        }
        let kind = topology.kinds()[flow.kind()].clone();
        let role = flow.role();
        let ghost internal_before = internal@;
        let ghost boundary_before = boundary@;
        let ghost count = t as int;
        match (&channels[t], role) {
            (ChannelId::Internal(id), FlowRole::Transfer) => {
                let source = axis_of_stock(topology, by_stock, flow.source().unwrap());
                let target = axis_of_stock(topology, by_stock, flow.target().unwrap());
                let column = InternalColumn { kind, source, target };
                let ghost entry = (*id, column);
                match insert_sorted(&mut internal, id.clone(), column) {
                    Ok(p) => {
                        proof {
                            assert forall|u: int, v: int| 0 <= u < v < count + 1 implies !same_channel(
                                #[trigger] channels@[u],
                                #[trigger] channels@[v],
                            ) by {
                                if v == count {
                                    if same_channel(channels@[u], channels@[v]) {
                                        assert(holds(internal_before, id@));
                                    }
                                }
                            }
                            assert forall|u: int| 0 <= u < count + 1 implies match #[trigger] channels@[u] {
                                ChannelId::Internal(f) => holds(internal@, f@) && internal_column_for(
                                    *topology,
                                    by_stock@,
                                    u,
                                    value_of(internal@, f@),
                                ),
                                ChannelId::Boundary(b) => holds(boundary@, b@) && boundary_column_for(
                                    *topology,
                                    by_stock@,
                                    u,
                                    value_of(boundary@, b@),
                                ),
                            } by {
                                if u < count {
                                    match channels@[u] {
                                        ChannelId::Internal(f) => {
                                            lemma_insert_keeps(internal_before, internal@, p as int, entry, f@);
                                        },
                                        ChannelId::Boundary(b) => {},
                                    }
                                } else {
                                    lemma_insert_found(internal_before, internal@, p as int, entry);
                                }
                            }
                            assert forall|k: Seq<char>| #[trigger] holds(internal@, k) implies exists|u: int|
                                0 <= u < count + 1 && #[trigger] names_internal(channels@[u], k) by {
                                lemma_insert_source(internal_before, internal@, p as int, entry, k);
                                if !holds(internal_before, k) {
                                    assert(names_internal(channels@[count], k));
                                }
                            }
                        }
                    },
                    Err(i) => {
                        let error = StockFlowError::DuplicateFlow(id.clone());
                        proof {
                            assert(holds(internal_before, id@));
                            let u = choose|u: int| 0 <= u < count && #[trigger] names_internal(channels@[u], id@);
                            assert(same_channel(channels@[u], channels@[count]));
                            assert(channel_refusal(*topology, channels@, count, error));
                        }
                        return Err(error);
                    },
                }
            },
            (ChannelId::Boundary(id), FlowRole::Input) | (ChannelId::Boundary(id), FlowRole::Output) => {
                let stock = match flow.source() {
                    Some(s) => s,
                    None => flow.target().unwrap(),
                };
                let axis = axis_of_stock(topology, by_stock, stock);
                let column = BoundaryColumn { kind, stock: axis, role };
                let ghost entry = (*id, column);
                match insert_sorted(&mut boundary, id.clone(), column) {
                    Ok(p) => {
                        proof {
                            assert forall|u: int, v: int| 0 <= u < v < count + 1 implies !same_channel(
                                #[trigger] channels@[u],
                                #[trigger] channels@[v],
                            ) by {
                                if v == count {
                                    if same_channel(channels@[u], channels@[v]) {
                                        assert(holds(boundary_before, id@));
                                    }
                                }
                            }
                            assert forall|u: int| 0 <= u < count + 1 implies match #[trigger] channels@[u] {
                                ChannelId::Internal(f) => holds(internal@, f@) && internal_column_for(
                                    *topology,
                                    by_stock@,
                                    u,
                                    value_of(internal@, f@),
                                ),
                                ChannelId::Boundary(b) => holds(boundary@, b@) && boundary_column_for(
                                    *topology,
                                    by_stock@,
                                    u,
                                    value_of(boundary@, b@),
                                ),
                            } by {
                                if u < count {
                                    match channels@[u] {
                                        ChannelId::Internal(f) => {},
                                        ChannelId::Boundary(b) => {
                                            lemma_insert_keeps(boundary_before, boundary@, p as int, entry, b@);
                                        },
                                    }
                                } else {
                                    lemma_insert_found(boundary_before, boundary@, p as int, entry);
                                }
                            }
                            assert forall|k: Seq<char>| #[trigger] holds(boundary@, k) implies exists|u: int|
                                0 <= u < count + 1 && #[trigger] names_boundary(channels@[u], k) by {
                                lemma_insert_source(boundary_before, boundary@, p as int, entry, k);
                                if !holds(boundary_before, k) {
                                    assert(names_boundary(channels@[count], k));
                                }
                            }
                        }
                    },
                    Err(i) => {
                        let error = StockFlowError::DuplicateBoundary(id.clone());
                        proof {
                            assert(holds(boundary_before, id@));
                            let u = choose|u: int| 0 <= u < count && #[trigger] names_boundary(channels@[u], id@);
                            assert(same_channel(channels@[u], channels@[count]));
                            assert(channel_refusal(*topology, channels@, count, error));
                        }
                        return Err(error);
                    },
                }
            },
            (channel, actual) => {
                let error = StockFlowError::ChannelRole { channel: channel.clone(), actual };
                proof {
                    assert(channel_refusal(*topology, channels@, count, error));
                }
                return Err(error);
            },
        }
        t += 1;
    }
    Ok((internal, boundary))
}


/// The slot of the boundary channel named `port`.
pub open spec fn boundary_slot(channels: Seq<ChannelId>, port: Seq<char>) -> int {
    choose|t: int| 0 <= t < channels.len() && #[trigger] names_boundary(channels[t], port)
}

/// The slot of the internal channel named `flow`.
pub open spec fn internal_slot(channels: Seq<ChannelId>, flow: Seq<char>) -> int {
    choose|t: int| 0 <= t < channels.len() && #[trigger] names_internal(channels[t], flow)
}

/// Whether some channel is the boundary channel named `port`.
pub open spec fn port_known(channels: Seq<ChannelId>, port: Seq<char>) -> bool {
    exists|t: int| 0 <= t < channels.len() && #[trigger] names_boundary(channels[t], port)
}

/// The kind of the boundary channel named `port`.
pub open spec fn port_kind(topology: FlowTopology<KindId>, channels: Seq<ChannelId>, port: Seq<char>) -> KindId {
    slot_kind(topology, boundary_slot(channels, port))
}

/// The role of the boundary channel named `port`.
pub open spec fn port_role(topology: FlowTopology<KindId>, channels: Seq<ChannelId>, port: Seq<char>) -> FlowRole {
    topology.flow_seq()[boundary_slot(channels, port)].role_spec()
}

/// Whether the first `count` ports of a ledger are known, distinct, of the
/// ledger's kind and of the role of its first port.
pub open spec fn ports_valid(
    topology: FlowTopology<KindId>,
    channels: Seq<ChannelId>,
    ledger: LedgerDefinition,
    count: int,
) -> bool {
    let ports = ledger.boundaries@;
    &&& forall|i: int| 0 <= i < count ==> {
        &&& port_known(channels, (#[trigger] ports[i])@)
        &&& port_kind(topology, channels, ports[i]@)@ == ledger.kind@
        &&& port_role(topology, channels, ports[i]@) == port_role(topology, channels, ports[0]@)
    }
    &&& forall|i: int, j: int| 0 <= i < j < count ==> (#[trigger] ports[i])@ != (#[trigger] ports[j])@
}

/// Whether `error` is what port `m` of a ledger raises once the earlier ports
/// are accepted.
pub open spec fn port_refusal(
    topology: FlowTopology<KindId>,
    channels: Seq<ChannelId>,
    ledger: LedgerDefinition,
    m: int,
    error: StockFlowError,
) -> bool {
    let ports = ledger.boundaries@;
    let port = ports[m];
    if exists|i: int| 0 <= i < m && (#[trigger] ports[i])@ == port@ {
        error matches StockFlowError::DuplicateBoundaryMapping(b) && b@ == port@
    } else if !port_known(channels, port@) {
        error matches StockFlowError::UnknownBoundary(b) && b@ == port@
    } else if port_kind(topology, channels, port@)@ != ledger.kind@ {
        error matches StockFlowError::LedgerBoundaryKindMismatch { ledger: l, boundary: b, ledger_kind: lk, boundary_kind: bk }
            && l@ == ledger.id@ && b@ == port@ && lk@ == ledger.kind@ && bk@ == port_kind(topology, channels, port@)@
    } else {
        &&& m > 0
        &&& port_role(topology, channels, port@) != port_role(topology, channels, ports[0]@)
        &&& error == StockFlowError::MixedBoundaryRoles
    }
}

/// Whether the topology has a kind named `kind`.
pub open spec fn kind_known(topology: FlowTopology<KindId>, kind: Seq<char>) -> bool {
    exists|k: int| 0 <= k < topology.kind_seq().len() && (#[trigger] topology.kind_seq()[k])@ == kind
}

/// Whether a ledger's kind is known and its ports are a valid nonempty mapping.
pub open spec fn ledger_ports_valid(topology: FlowTopology<KindId>, channels: Seq<ChannelId>, ledger: LedgerDefinition) -> bool {
    &&& kind_known(topology, ledger.kind@)
    &&& ledger.boundaries@.len() > 0
    &&& ports_valid(topology, channels, ledger, ledger.boundaries@.len() as int)
}

/// Whether `error` is what a ledger's kind or ports raise.
pub open spec fn ledger_port_refusal(
    topology: FlowTopology<KindId>,
    channels: Seq<ChannelId>,
    ledger: LedgerDefinition,
    error: StockFlowError,
) -> bool {
    if !kind_known(topology, ledger.kind@) {
        error matches StockFlowError::UnknownKind(k) && k@ == ledger.kind@
    } else if ledger.boundaries@.len() == 0 {
        error == StockFlowError::EmptyBoundaryMapping
    } else {
        exists|m: int|
            0 <= m < ledger.boundaries@.len() && ports_valid(topology, channels, ledger, m) && #[trigger] port_refusal(
                topology,
                channels,
                ledger,
                m,
                error,
            )
    }
}

/// Whether a port table holds exactly a ledger's ports.
pub open spec fn ports_held(ports: Seq<(BoundaryId, ())>, ledger: LedgerDefinition) -> bool {
    &&& keys_sorted(ports)
    &&& ports.len() == ledger.boundaries@.len()
    &&& forall|i: int| 0 <= i < ledger.boundaries@.len() ==> #[trigger] holds(ports, ledger.boundaries@[i]@)
    &&& forall|k: Seq<char>| #[trigger] holds(ports, k) ==> exists|i: int|
        0 <= i < ledger.boundaries@.len() && (#[trigger] ledger.boundaries@[i])@ == k
}

/// The boundary column of a known port is the column of its slot.
proof fn lemma_port_column(
    topology: FlowTopology<KindId>,
    by_stock: Seq<(StockId, AxisId)>,
    channels: Seq<ChannelId>,
    internal: Seq<(FlowId, InternalColumn)>,
    boundary: Seq<(BoundaryId, BoundaryColumn)>,
    port: Seq<char>,
)
    requires
        channel_tables_hold(topology, by_stock, channels, channels.len() as int, internal, boundary),
    ensures
        holds(boundary, port) <==> port_known(channels, port),
        port_known(channels, port) ==> boundary_column_for(
            topology,
            by_stock,
            boundary_slot(channels, port),
            value_of(boundary, port),
        ),
{
    if port_known(channels, port) {
        let t = boundary_slot(channels, port);
        assert(names_boundary(channels[t], port));
        match channels[t] {
            ChannelId::Boundary(b) => {},
            ChannelId::Internal(f) => {},
        }
    }
    if holds(boundary, port) {
        let t = choose|t: int| 0 <= t < channels.len() && #[trigger] names_boundary(channels[t], port);
        assert(names_boundary(channels[t], port));
    }
}

/// Validates one ledger's kind and ports and collects its ports in order.
fn compile_ports(
    topology: &FlowTopology<KindId>,
    by_stock: Ghost<Seq<(StockId, AxisId)>>,
    channels: Ghost<Seq<ChannelId>>,
    internal: Ghost<Seq<(FlowId, InternalColumn)>>,
    boundary: &Vec<(BoundaryId, BoundaryColumn)>,
    ledger: &LedgerDefinition,
) -> (result: Result<Vec<(BoundaryId, ())>, StockFlowError>)
    requires
        channel_tables_hold(*topology, by_stock@, channels@, channels@.len() as int, internal@, boundary@),
    ensures
        result is Ok <==> ledger_ports_valid(*topology, channels@, *ledger),
        match result {
            Ok(ports) => ports_held(ports@, *ledger),
            Err(error) => ledger_port_refusal(*topology, channels@, *ledger, error),
        },
{
    if topology.kind_index(ledger.kind.clone()).is_none() {
        let error = StockFlowError::UnknownKind(ledger.kind.clone());
        proof {
            assert(!kind_known(*topology, ledger.kind@)) by {
                if kind_known(*topology, ledger.kind@) {
                    let k = choose|k: int| 0 <= k < topology.kind_seq().len() && (#[trigger] topology.kind_seq()[k])@ == ledger.kind@;
                    assert(topology.kind_seq()[k].identity() == ledger.kind@);
                }
            }
        }
        return Err(error);
    }
    proof {
        let k = choose|k: int| 0 <= k < topology.kind_seq().len() && (#[trigger] topology.kind_seq()[k]).identity() == ledger.kind@;
        assert(topology.kind_seq()[k]@ == ledger.kind@);
        assert(kind_known(*topology, ledger.kind@));
    }
    let ports = &ledger.boundaries;
    if ports.len() == 0 {
        return Err(StockFlowError::EmptyBoundaryMapping);
    }
    let mut mapped: Vec<(BoundaryId, ())> = Vec::new();
    let mut first_role: FlowRole = FlowRole::Input;
    let mut m: usize = 0;
    while m < ports.len()
        invariant
            channel_tables_hold(*topology, by_stock@, channels@, channels@.len() as int, internal@, boundary@),
            kind_known(*topology, ledger.kind@),
            ports@ == ledger.boundaries@,
            ports@.len() > 0,
            m <= ports@.len(),
            ports_valid(*topology, channels@, *ledger, m as int),
            m > 0 ==> first_role == port_role(*topology, channels@, ports@[0]@),
            keys_sorted(mapped@),
            mapped@.len() == m,
            forall|i: int| 0 <= i < m ==> #[trigger] holds(mapped@, ports@[i]@),
            forall|k: Seq<char>| #[trigger] holds(mapped@, k) ==> exists|i: int| 0 <= i < m && (#[trigger] ports@[i])@ == k,
        decreases ports.len() - m,
    {
        let port = &ports[m];
        let ghost before = mapped@;
        let ghost count = m as int;
        match insert_sorted(&mut mapped, port.clone(), ()) {
            Ok(p) => {
                proof {
                    assert forall|i: int| 0 <= i < count + 1 implies #[trigger] holds(mapped@, ports@[i]@) by {
                        if i < count {
                            lemma_insert_keeps(before, mapped@, p as int, (*port, ()), ports@[i]@);
                        } else {
                            lemma_insert_found(before, mapped@, p as int, (*port, ()));
                        }
                    }
                    assert forall|k: Seq<char>| #[trigger] holds(mapped@, k) implies exists|i: int|
                        0 <= i < count + 1 && (#[trigger] ports@[i])@ == k by {
                        lemma_insert_source(before, mapped@, p as int, (*port, ()), k);
                        if !holds(before, k) {
                            assert(ports@[count]@ == k);
                        }
                    }
                }
            },
            Err(i) => {
                let error = StockFlowError::DuplicateBoundaryMapping(port.clone());
                proof {
                    assert(holds(before, port@));
                    assert(port_refusal(*topology, channels@, *ledger, count, error));
                }
                return Err(error);
            },
        }
        proof {
            assert(!(exists|i: int| 0 <= i < count && (#[trigger] ports@[i])@ == port@)) by {
                if exists|i: int| 0 <= i < count && (#[trigger] ports@[i])@ == port@ {
                    let i = choose|i: int| 0 <= i < count && (#[trigger] ports@[i])@ == port@;
                    assert(holds(before, ports@[i]@));
                }
            }
            lemma_port_column(*topology, by_stock@, channels@, internal@, boundary@, port@);
        }
        let column = match find_key(boundary, port.as_str()) {
            Some(index) => &boundary[index].1,
            None => {
                let error = StockFlowError::UnknownBoundary(port.clone());
                proof {
                    assert(port_refusal(*topology, channels@, *ledger, count, error));
                }
                return Err(error);
            },
        };
        if !column.kind.same(&ledger.kind) {
            let error = StockFlowError::LedgerBoundaryKindMismatch {
                ledger: ledger.id.clone(),
                boundary: port.clone(),
                ledger_kind: ledger.kind.clone(),
                boundary_kind: column.kind.clone(),
            };
            proof {
                assert(port_refusal(*topology, channels@, *ledger, count, error));
            }
            return Err(error);
        }
        if m > 0 && column.role != first_role {
            proof {
                assert(port_refusal(*topology, channels@, *ledger, count, StockFlowError::MixedBoundaryRoles));
            }
            return Err(StockFlowError::MixedBoundaryRoles);
        }
        if m == 0 {
            first_role = column.role;
        }
        proof {
            assert forall|i: int, j: int| 0 <= i < j < count + 1 implies (#[trigger] ports@[i])@ != (#[trigger] ports@[j])@ by {
                if j == count && ports@[i]@ == ports@[j]@ {
                    assert(0 <= i < count && ports@[i]@ == port@);
                }
            }
        }
        m += 1;
    }
    Ok(mapped)
}


/// Whether some declaration names axis `axis`.
pub open spec fn axis_declared(defs: Seq<StockAxisDefinition>, axis: Seq<char>) -> bool {
    exists|i: int| 0 <= i < defs.len() && (#[trigger] defs[i]).axis@ == axis
}

/// Whether the first `count` ledgers are valid: ports valid, axes new and
/// distinct, identifiers distinct.
pub open spec fn ledgers_valid(
    topology: FlowTopology<KindId>,
    defs: Seq<StockAxisDefinition>,
    channels: Seq<ChannelId>,
    ledgers: Seq<LedgerDefinition>,
    count: int,
) -> bool {
    &&& forall|n: int| 0 <= n < count ==> ledger_ports_valid(topology, channels, #[trigger] ledgers[n]) && !axis_declared(
        defs,
        ledgers[n].axis@,
    )
    &&& forall|n: int, m: int| 0 <= n < m < count ==> (#[trigger] ledgers[n]).axis@ != (#[trigger] ledgers[m]).axis@
        && ledgers[n].id@ != ledgers[m].id@
}

/// Whether `error` is what ledger `n` raises once the earlier ones are
/// accepted: its kind or ports, then an axis already in use, then an
/// identifier already in use.
pub open spec fn ledger_refusal(
    topology: FlowTopology<KindId>,
    defs: Seq<StockAxisDefinition>,
    channels: Seq<ChannelId>,
    ledgers: Seq<LedgerDefinition>,
    n: int,
    error: StockFlowError,
) -> bool {
    let ledger = ledgers[n];
    if !ledger_ports_valid(topology, channels, ledger) {
        ledger_port_refusal(topology, channels, ledger, error)
    } else if axis_declared(defs, ledger.axis@) || exists|m: int| 0 <= m < n && (#[trigger] ledgers[m]).axis@ == ledger.axis@ {
        error matches StockFlowError::DuplicateAxis(a) && a@ == ledger.axis@
    } else {
        &&& exists|m: int| 0 <= m < n && (#[trigger] ledgers[m]).id@ == ledger.id@
        &&& error matches StockFlowError::DuplicateLedger(l) && l@ == ledger.id@
    }
}

/// Whether a ledger table holds exactly the first `count` ledgers.
pub open spec fn ledgers_held(ledgers: Seq<LedgerDefinition>, count: int, table: Seq<(LedgerId, LedgerIdentity)>) -> bool {
    &&& keys_sorted(table)
    &&& table.len() == count
    &&& forall|n: int| 0 <= n < count ==> {
        &&& #[trigger] holds(table, ledgers[n].id@)
        &&& value_of(table, ledgers[n].id@).axis_spec()@ == ledgers[n].axis@
        &&& value_of(table, ledgers[n].id@).kind_spec()@ == ledgers[n].kind@
        &&& ports_held(value_of(table, ledgers[n].id@).port_table(), ledgers[n])
    }
    &&& forall|k: Seq<char>| #[trigger] holds(table, k) ==> exists|n: int| 0 <= n < count && (#[trigger] ledgers[n]).id@ == k
}

/// Validates the ledgers in order and keys them by identifier.
fn map_ledgers(
    topology: &FlowTopology<KindId>,
    defs: Ghost<Seq<StockAxisDefinition>>,
    rows: &Vec<(AxisId, KindId)>,
    by_stock: Ghost<Seq<(StockId, AxisId)>>,
    channels: Ghost<Seq<ChannelId>>,
    internal: Ghost<Seq<(FlowId, InternalColumn)>>,
    boundary: &Vec<(BoundaryId, BoundaryColumn)>,
    ledgers: &Vec<LedgerDefinition>,
) -> (result: Result<Vec<(LedgerId, LedgerIdentity)>, StockFlowError>)
    requires
        stock_tables_hold(*topology, defs@, defs@.len() as int, by_stock@, rows@),
        channel_tables_hold(*topology, by_stock@, channels@, channels@.len() as int, internal@, boundary@),
    ensures
        result is Ok <==> ledgers_valid(*topology, defs@, channels@, ledgers@, ledgers@.len() as int),
        match result {
            Ok(table) => ledgers_held(ledgers@, ledgers@.len() as int, table@),
            Err(error) => exists|n: int|
                0 <= n < ledgers@.len() && ledgers_valid(*topology, defs@, channels@, ledgers@, n)
                    && #[trigger] ledger_refusal(*topology, defs@, channels@, ledgers@, n, error),
        },
{
    let mut table: Vec<(LedgerId, LedgerIdentity)> = Vec::new();
    let mut axes: Vec<(AxisId, ())> = Vec::new();
    let mut n: usize = 0;
    while n < ledgers.len()
        invariant
            stock_tables_hold(*topology, defs@, defs@.len() as int, by_stock@, rows@),
            channel_tables_hold(*topology, by_stock@, channels@, channels@.len() as int, internal@, boundary@),
            n <= ledgers@.len(),
            ledgers_valid(*topology, defs@, channels@, ledgers@, n as int),
            ledgers_held(ledgers@, n as int, table@),
            keys_sorted(axes@),
            forall|k: Seq<char>| #[trigger] holds(axes@, k) <==> exists|m: int| 0 <= m < n && (#[trigger] ledgers@[m]).axis@ == k,
        decreases ledgers.len() - n,
    {
        let ledger = &ledgers[n];
        let ghost count = n as int;
        let ports = match compile_ports(topology, by_stock, channels, internal, boundary, ledger) {
            Ok(ports) => ports,
            Err(error) => {
                proof {
                    assert(ledger_refusal(*topology, defs@, channels@, ledgers@, count, error));
                }
                return Err(error);
            },
        };
        proof {
            if axis_declared(defs@, ledger.axis@) {
                let i = choose|i: int| 0 <= i < defs@.len() && (#[trigger] defs@[i]).axis@ == ledger.axis@;
                assert(holds(rows@, defs@[i].axis@)) by {
                    assert(holds(by_stock@, defs@[i].stock@));
                }
            }
        }
        if find_key(rows, ledger.axis.as_str()).is_some() {
            let error = StockFlowError::DuplicateAxis(ledger.axis.clone());
            proof {
                assert(axis_declared(defs@, ledger.axis@));
                assert(ledger_refusal(*topology, defs@, channels@, ledgers@, count, error));
            }
            return Err(error);
        }
        let ghost axes_before = axes@;
        match insert_sorted(&mut axes, ledger.axis.clone(), ()) {
            Ok(p) => {
                proof {
                    assert forall|k: Seq<char>| #[trigger] holds(axes@, k) <==> exists|m: int|
                        0 <= m < count + 1 && (#[trigger] ledgers@[m]).axis@ == k by {
                        if holds(axes@, k) {
                            lemma_insert_source(axes_before, axes@, p as int, (ledger.axis, ()), k);
                            if !holds(axes_before, k) {
                                assert(ledgers@[count].axis@ == k);
                            }
                        }
                        if exists|m: int| 0 <= m < count + 1 && (#[trigger] ledgers@[m]).axis@ == k {
                            let m = choose|m: int| 0 <= m < count + 1 && (#[trigger] ledgers@[m]).axis@ == k;
                            if m < count {
                                lemma_insert_keeps(axes_before, axes@, p as int, (ledger.axis, ()), k);
                            } else {
                                lemma_insert_found(axes_before, axes@, p as int, (ledger.axis, ()));
                            }
                        }
                    }
                }
            },
            Err(i) => {
                let error = StockFlowError::DuplicateAxis(ledger.axis.clone());
                proof {
                    assert(holds(axes_before, ledger.axis@));
                    assert(ledger_refusal(*topology, defs@, channels@, ledgers@, count, error));
                }
                return Err(error);
            },
        }
        let identity = LedgerIdentity { axis: ledger.axis.clone(), kind: ledger.kind.clone(), boundaries: ports };
        let ghost table_before = table@;
        let ghost entry = (ledger.id, identity);
        match insert_sorted(&mut table, ledger.id.clone(), identity) {
            Ok(p) => {
                proof {
                    assert forall|a: int, b: int| 0 <= a < b < count + 1 implies (#[trigger] ledgers@[a]).axis@
                        != (#[trigger] ledgers@[b]).axis@ && ledgers@[a].id@ != ledgers@[b].id@ by {
                        if b == count {
                            if ledgers@[a].axis@ == ledgers@[b].axis@ {
                                assert(holds(axes_before, ledgers@[a].axis@));
                            }
                            if ledgers@[a].id@ == ledgers@[b].id@ {
                                assert(holds(table_before, ledgers@[a].id@));
                            }
                        }
                    }
                    assert forall|m: int| 0 <= m < count + 1 implies {
                        &&& #[trigger] holds(table@, ledgers@[m].id@)
                        &&& value_of(table@, ledgers@[m].id@).axis_spec()@ == ledgers@[m].axis@
                        &&& value_of(table@, ledgers@[m].id@).kind_spec()@ == ledgers@[m].kind@
                        &&& ports_held(value_of(table@, ledgers@[m].id@).port_table(), ledgers@[m])
                    } by {
                        if m < count {
                            assert(holds(table_before, ledgers@[m].id@));
                            lemma_insert_keeps(table_before, table@, p as int, entry, ledgers@[m].id@);
                        } else {
                            lemma_insert_found(table_before, table@, p as int, entry);
                        }
                    }
                    assert forall|k: Seq<char>| #[trigger] holds(table@, k) implies exists|m: int|
                        0 <= m < count + 1 && (#[trigger] ledgers@[m]).id@ == k by {
                        lemma_insert_source(table_before, table@, p as int, entry, k);
                        if !holds(table_before, k) {
                            assert(ledgers@[count].id@ == k);
                        }
                    }
                }
            },
            Err(i) => {
                let error = StockFlowError::DuplicateLedger(ledger.id.clone());
                proof {
                    assert(holds(table_before, ledger.id@));
                    assert(!axis_declared(defs@, ledger.axis@));
                    assert(!(exists|m: int| 0 <= m < count && (#[trigger] ledgers@[m]).axis@ == ledger.axis@));
                    assert(ledger_refusal(*topology, defs@, channels@, ledgers@, count, error));
                }
                return Err(error);
            },
        }
        n += 1;
    }
    Ok(table)
}


/// The exact effect of an internal column on `axis`: minus one at its source,
/// one at its target, zero elsewhere.
spec fn internal_incidence(axis: Seq<char>, column: InternalColumn) -> real {
    if axis == column.source@ {
        -1real
    } else if axis == column.target@ {
        1real
    } else {
        0real
    }
}

/// The exact effect of a boundary column on `axis`: one at an input's stock,
/// minus one at an output's stock, zero elsewhere.
spec fn boundary_incidence(axis: Seq<char>, column: BoundaryColumn) -> real {
    if axis == column.stock@ && column.role == FlowRole::Input {
        1real
    } else if axis == column.stock@ && column.role == FlowRole::Output {
        -1real
    } else {
        0real
    }
}

/// A copy of each row entry.
fn copy_rows(rows: &Vec<(AxisId, KindId)>) -> (result: Vec<(AxisId, KindId)>)
    ensures
        result@ == rows@,
{
    let mut result: Vec<(AxisId, KindId)> = Vec::new();
    let mut i: usize = 0;
    while i < rows.len()
        invariant
            i <= rows@.len(),
            result@ == rows@.take(i as int),
        decreases rows.len() - i,
    {
        result.push((rows[i].0.clone(), rows[i].1.clone()));
        proof {
            assert(result@ =~= rows@.take(i + 1));
        }
        i += 1;
    }
    proof {
        assert(result@ =~= rows@);
    }
    result
}

/// The exact internal incidence matrix of rows and internal columns.
fn internal_matrix(rows: &Vec<(AxisId, KindId)>, internal: &Vec<(FlowId, InternalColumn)>) -> (result: ExactEffectMatrix<FlowId>)
    requires
        keys_sorted(rows@),
        keys_sorted(internal@),
    ensures
        result.row_table() == rows@,
        result.column_table().len() == internal@.len(),
        forall|c: int| 0 <= c < internal@.len() ==> (#[trigger] result.column_table()[c]).0 == internal@[c].0
            && result.column_table()[c].1 == internal@[c].1.kind,
        forall|r: int, c: int| 0 <= r < rows@.len() && 0 <= c < internal@.len() ==> #[trigger] result.entry(r, c)
            == internal_incidence(rows@[r].0@, internal@[c].1),
{
    let mut columns: Vec<(FlowId, KindId)> = Vec::new();
    let mut c: usize = 0;
    while c < internal.len()
        invariant
            c <= internal@.len(),
            columns@.len() == c,
            forall|j: int| 0 <= j < c ==> (#[trigger] columns@[j]).0 == internal@[j].0 && columns@[j].1 == internal@[j].1.kind,
        decreases internal.len() - c,
    {
        columns.push((internal[c].0.clone(), internal[c].1.kind.clone()));
        c += 1;
    }
    let mut entries: Vec<Vec<Rational>> = Vec::new();
    let mut r: usize = 0;
    while r < rows.len()
        invariant
            r <= rows@.len(),
            entries@.len() == r,
            forall|i: int| 0 <= i < r ==> (#[trigger] entries@[i])@.len() == internal@.len(),
            forall|i: int, j: int| 0 <= i < r && 0 <= j < internal@.len() ==> #[trigger] entries@[i]@[j]@
                == internal_incidence(rows@[i].0@, internal@[j].1),
        decreases rows.len() - r,
    {
        let axis = &rows[r].0;
        let mut row: Vec<Rational> = Vec::new();
        let mut j: usize = 0;
        while j < internal.len()
            invariant
                j <= internal@.len(),
                row@.len() == j,
                forall|k: int| 0 <= k < j ==> (#[trigger] row@[k])@ == internal_incidence(axis@, internal@[k].1),
            decreases internal.len() - j,
        {
            let column = &internal[j].1;
            let value = if axis.same(&column.source) {
                Rational::from_integer(-1)
            } else if axis.same(&column.target) {
                Rational::one()
            } else {
                Rational::zero()
            };
            row.push(value);
            j += 1;
        }
        entries.push(row);
        r += 1;
    }
    let result = ExactEffectMatrix { rows: copy_rows(rows), columns, entries };
    proof {
        assert forall|a: int, b: int| 0 <= a < b < result.columns@.len() implies text_lt(
            (#[trigger] result.columns@[a]).0@,
            (#[trigger] result.columns@[b]).0@,
        ) by {
            assert(text_lt(internal@[a].0@, internal@[b].0@));
        }
    }
    result
}

/// The exact boundary incidence matrix of rows and boundary columns.
fn boundary_matrix(rows: &Vec<(AxisId, KindId)>, boundary: &Vec<(BoundaryId, BoundaryColumn)>) -> (result: ExactEffectMatrix<BoundaryId>)
    requires
        keys_sorted(rows@),
        keys_sorted(boundary@),
    ensures
        result.row_table() == rows@,
        result.column_table().len() == boundary@.len(),
        forall|c: int| 0 <= c < boundary@.len() ==> (#[trigger] result.column_table()[c]).0 == boundary@[c].0
            && result.column_table()[c].1 == boundary@[c].1.kind,
        forall|r: int, c: int| 0 <= r < rows@.len() && 0 <= c < boundary@.len() ==> #[trigger] result.entry(r, c)
            == boundary_incidence(rows@[r].0@, boundary@[c].1),
{
    let mut columns: Vec<(BoundaryId, KindId)> = Vec::new();
    let mut c: usize = 0;
    while c < boundary.len()
        invariant
            c <= boundary@.len(),
            columns@.len() == c,
            forall|j: int| 0 <= j < c ==> (#[trigger] columns@[j]).0 == boundary@[j].0 && columns@[j].1 == boundary@[j].1.kind,
        decreases boundary.len() - c,
    {
        columns.push((boundary[c].0.clone(), boundary[c].1.kind.clone()));
        c += 1;
    }
    let mut entries: Vec<Vec<Rational>> = Vec::new();
    let mut r: usize = 0;
    while r < rows.len()
        invariant
            r <= rows@.len(),
            entries@.len() == r,
            forall|i: int| 0 <= i < r ==> (#[trigger] entries@[i])@.len() == boundary@.len(),
            forall|i: int, j: int| 0 <= i < r && 0 <= j < boundary@.len() ==> #[trigger] entries@[i]@[j]@
                == boundary_incidence(rows@[i].0@, boundary@[j].1),
        decreases rows.len() - r,
    {
        let axis = &rows[r].0;
        let mut row: Vec<Rational> = Vec::new();
        let mut j: usize = 0;
        while j < boundary.len()
            invariant
                j <= boundary@.len(),
                row@.len() == j,
                forall|k: int| 0 <= k < j ==> (#[trigger] row@[k])@ == boundary_incidence(axis@, boundary@[k].1),
            decreases boundary.len() - j,
        {
            let column = &boundary[j].1;
            let value = if axis.same(&column.stock) && column.role == FlowRole::Input {
                Rational::one()
            } else if axis.same(&column.stock) && column.role == FlowRole::Output {
                Rational::from_integer(-1)
            } else {
                Rational::zero()
            };
            row.push(value);
            j += 1;
        }
        entries.push(row);
        r += 1;
    }
    let result = ExactEffectMatrix { rows: copy_rows(rows), columns, entries };
    proof {
        assert forall|a: int, b: int| 0 <= a < b < result.columns@.len() implies text_lt(
            (#[trigger] result.columns@[a]).0@,
            (#[trigger] result.columns@[b]).0@,
        ) by {
            assert(text_lt(boundary@[a].0@, boundary@[b].0@));
        }
    }
    result
}


/// Whether ledger axes are distinct from each other and from the stock axes.
pub open spec fn ledger_axes_fresh(rows: Seq<(AxisId, KindId)>, ledgers: Seq<(LedgerId, LedgerIdentity)>) -> bool {
    &&& forall|l: int| 0 <= l < ledgers.len() ==> !holds(rows, (#[trigger] ledgers[l]).1.axis_spec()@)
    &&& forall|l: int, m: int| 0 <= l < m < ledgers.len() ==> (#[trigger] ledgers[l]).1.axis_spec()@ != (
    #[trigger] ledgers[m]).1.axis_spec()@
}

/// Whether every port of every ledger is a boundary column.
pub open spec fn ports_are_columns(columns: Seq<(BoundaryId, KindId)>, ledgers: Seq<(LedgerId, LedgerIdentity)>) -> bool {
    forall|l: int, p: int|
        0 <= l < ledgers.len() && 0 <= p < ledgers[l].1.port_table().len() ==> holds(
            columns,
            (#[trigger] ledgers[l].1.port_table()[p]).0@,
        )
}

/// The structural facts every carrier identity keeps: matrix rows and
/// columns in identifier order, and one row set for both matrices.
pub open spec fn identity_sound(identity: CarrierIdentity) -> bool {
    &&& keys_sorted(identity.internal_spec().row_table())
    &&& keys_sorted(identity.internal_spec().column_table())
    &&& keys_sorted(identity.boundary_spec().column_table())
    &&& identity.boundary_spec().row_table() == identity.internal_spec().row_table()
}

/// Canonical carrier identity retained by records and witnesses.
#[derive(Debug, PartialEq, Eq)]
pub struct CarrierIdentity {
    internal: ExactEffectMatrix<FlowId>,
    boundary: ExactEffectMatrix<BoundaryId>,
    ledgers: Vec<(LedgerId, LedgerIdentity)>,
    boundary_roles: Vec<(BoundaryId, FlowRole)>,
}

impl CarrierIdentity {
    /// The exact internal incidence matrix.
    pub closed spec fn internal_spec(&self) -> ExactEffectMatrix<FlowId> {
        self.internal
    }

    /// The exact boundary incidence matrix.
    pub closed spec fn boundary_spec(&self) -> ExactEffectMatrix<BoundaryId> {
        self.boundary
    }

    /// The ledgers in identifier order.
    pub closed spec fn ledger_table(&self) -> Seq<(LedgerId, LedgerIdentity)> {
        self.ledgers@
    }

    /// Each boundary's role, in identifier order.
    pub closed spec fn role_table(&self) -> Seq<(BoundaryId, FlowRole)> {
        self.boundary_roles@
    }

    #[verifier::type_invariant]
    closed spec fn ordered(&self) -> bool {
        &&& keys_sorted(self.ledgers@)
        &&& keys_sorted(self.boundary_roles@)
        &&& ledger_axes_fresh(self.internal.row_table(), self.ledgers@)
        &&& self.internal.row_table().len() > 0
        &&& self.boundary.row_table() == self.internal.row_table()
        &&& ports_are_columns(self.boundary.column_table(), self.ledgers@)
    }

    /// The matrices' rows and columns are in identifier order and the
    /// boundary matrix has the internal matrix's rows.
    pub fn check_sound(&self)
        ensures
            identity_sound(*self),
    {
        proof {
            use_type_invariant(self);
        }
        self.internal.check_total();
        self.boundary.check_total();
    }

    /// The ledger and role tables are in identifier order, and ledger axes
    /// are distinct from each other and from the stock axes.
    pub fn check_ordered(&self)
        ensures
            keys_sorted(self.ledger_table()),
            keys_sorted(self.role_table()),
            ledger_axes_fresh(self.internal_spec().row_table(), self.ledger_table()),
            self.internal_spec().row_table().len() > 0,
            self.boundary_spec().row_table() == self.internal_spec().row_table(),
            ports_are_columns(self.boundary_spec().column_table(), self.ledger_table()),
    {
        proof {
            use_type_invariant(self);
        }
    }

    /// Exact internal incidence matrix.
    pub fn internal_effects(&self) -> (result: &ExactEffectMatrix<FlowId>)
        ensures
            *result == self.internal_spec(),
    {
        &self.internal
    }

    /// Exact boundary incidence matrix.
    pub fn boundary_effects(&self) -> (result: &ExactEffectMatrix<BoundaryId>)
        ensures
            *result == self.boundary_spec(),
    {
        &self.boundary
    }

    /// Canonical cumulative-ledger definitions.
    pub fn ledgers(&self) -> (result: &[(LedgerId, LedgerIdentity)])
        ensures
            result@ == self.ledger_table(),
    {
        self.ledgers.as_slice()
    }

    /// Returns whether a boundary is an input or output.
    pub fn boundary_role(&self, boundary: &BoundaryId) -> (result: Option<FlowRole>)
        ensures
            match result {
                Some(role) => holds(self.role_table(), boundary@) && role == value_of(self.role_table(), boundary@),
                None => !holds(self.role_table(), boundary@),
            },
    {
        proof {
            use_type_invariant(self);
        }
        match find_key(&self.boundary_roles, boundary.as_str()) {
            Some(index) => Some(self.boundary_roles[index].1),
            None => None,
        }
    }
}

/// Immutable exact stock-flow carrier compiled over the settlement topology.
#[derive(Debug)]
pub struct StockFlowCarrier {
    topology: Arc<FlowTopology<KindId>>,
    identity: CarrierIdentity,
    axes_by_stock: Vec<(StockId, AxisId)>,
    internal: Vec<(FlowId, InternalColumn)>,
    boundaries: Vec<(BoundaryId, BoundaryColumn)>,
    slot_channels: Vec<ChannelId>,
    declarations: Vec<StockAxisDefinition>,
    ledger_declarations: Vec<LedgerDefinition>,
}

/// Whether a carrier was compiled from these declarations: the facts
/// [`StockFlowCarrier::new`] states of the carrier it returns.
pub open spec fn compiled_from(carrier: StockFlowCarrier, defs: Seq<StockAxisDefinition>, ledgers: Seq<LedgerDefinition>) -> bool {
    let topology = carrier.topology_spec();
    let channels = carrier.channel_seq();
    &&& topology.well_formed()
    &&& identity_sound(carrier.identity_spec())
    &&& carrier_valid(topology, defs, channels, ledgers)
    &&& internal_compiled(topology, defs, channels, carrier.identity_spec().internal_spec())
    &&& boundary_compiled(topology, defs, channels, carrier.identity_spec().boundary_spec())
    &&& axes_as_declared(topology, carrier.stock_axis_table(), defs)
}

/// The axis declared for the stock named `stock`.
pub open spec fn declared_axis(defs: Seq<StockAxisDefinition>, stock: Seq<char>) -> Seq<char> {
    defs[choose|i: int| 0 <= i < defs.len() && (#[trigger] defs[i]).stock@ == stock].axis@
}

/// Whether the stock table gives each topology stock its declared axis.
pub open spec fn axes_as_declared(topology: FlowTopology<KindId>, by_stock: Seq<(StockId, AxisId)>, defs: Seq<StockAxisDefinition>) -> bool {
    forall|s: int| 0 <= s < topology.stock_ids().len() ==> value_of(by_stock, (#[trigger] topology.stock_ids()[s])@)@
        == declared_axis(defs, topology.stock_ids()[s]@)
}

/// Whether some declaration names the stock `stock`.
pub open spec fn names_stock(defs: Seq<StockAxisDefinition>, stock: Seq<char>) -> bool {
    exists|i: int| 0 <= i < defs.len() && (#[trigger] defs[i]).stock@ == stock
}

/// Whether every topology stock is named by some declaration.
pub open spec fn declarations_cover(topology: FlowTopology<KindId>, defs: Seq<StockAxisDefinition>) -> bool {
    forall|s: int| 0 <= s < topology.stock_ids().len() ==> names_stock(defs, (#[trigger] topology.stock_ids()[s])@)
}

/// The exact effect of the transfer named `flow` on `axis`.
pub open spec fn internal_effect(
    topology: FlowTopology<KindId>,
    defs: Seq<StockAxisDefinition>,
    channels: Seq<ChannelId>,
    axis: Seq<char>,
    flow: Seq<char>,
) -> real {
    let f = topology.flow_seq()[internal_slot(channels, flow)];
    if axis == declared_axis(defs, topology.stock_ids()[f.source_spec()->0 as int]@) {
        -1real
    } else if axis == declared_axis(defs, topology.stock_ids()[f.target_spec()->0 as int]@) {
        1real
    } else {
        0real
    }
}

/// The exact effect of the boundary flow named `port` on `axis`.
pub open spec fn boundary_effect(
    topology: FlowTopology<KindId>,
    defs: Seq<StockAxisDefinition>,
    channels: Seq<ChannelId>,
    axis: Seq<char>,
    port: Seq<char>,
) -> real {
    let t = boundary_slot(channels, port);
    if axis == declared_axis(defs, topology.stock_ids()[boundary_stock(topology, t)]@) {
        if topology.flow_seq()[t].role_spec() == FlowRole::Input {
            1real
        } else {
            -1real
        }
    } else {
        0real
    }
}

/// Whether a row table holds one row per declaration: its axis and its
/// stock's kind.
pub open spec fn rows_compiled(topology: FlowTopology<KindId>, defs: Seq<StockAxisDefinition>, rows: Seq<(AxisId, KindId)>) -> bool {
    &&& keys_sorted(rows)
    &&& rows.len() == defs.len()
    &&& forall|i: int| 0 <= i < defs.len() ==> #[trigger] holds(rows, defs[i].axis@) && value_of(rows, defs[i].axis@)@
        == stock_kind_of(topology, defs[i].stock@)@
    &&& forall|k: Seq<char>| #[trigger] holds(rows, k) ==> axis_declared(defs, k)
}

/// Whether `m` is the internal incidence matrix of the declarations.
pub open spec fn internal_compiled(
    topology: FlowTopology<KindId>,
    defs: Seq<StockAxisDefinition>,
    channels: Seq<ChannelId>,
    m: ExactEffectMatrix<FlowId>,
) -> bool {
    let columns = m.column_table();
    &&& rows_compiled(topology, defs, m.row_table())
    &&& keys_sorted(columns)
    &&& forall|k: Seq<char>| #[trigger] holds(columns, k) <==> exists|t: int| 0 <= t < channels.len() && #[trigger] names_internal(channels[t], k)
    &&& forall|c: int| 0 <= c < columns.len() ==> (#[trigger] columns[c]).1@ == slot_kind(topology, internal_slot(channels, columns[c].0@))@
    &&& forall|r: int, c: int| 0 <= r < m.row_table().len() && 0 <= c < columns.len() ==> #[trigger] m.entry(r, c)
        == internal_effect(topology, defs, channels, m.row_table()[r].0@, columns[c].0@)
}

/// Whether `m` is the boundary incidence matrix of the declarations.
pub open spec fn boundary_compiled(
    topology: FlowTopology<KindId>,
    defs: Seq<StockAxisDefinition>,
    channels: Seq<ChannelId>,
    m: ExactEffectMatrix<BoundaryId>,
) -> bool {
    let columns = m.column_table();
    &&& rows_compiled(topology, defs, m.row_table())
    &&& keys_sorted(columns)
    &&& forall|k: Seq<char>| #[trigger] holds(columns, k) <==> port_known(channels, k)
    &&& forall|c: int| 0 <= c < columns.len() ==> (#[trigger] columns[c]).1@ == port_kind(topology, channels, columns[c].0@)@
    &&& forall|r: int, c: int| 0 <= r < m.row_table().len() && 0 <= c < columns.len() ==> #[trigger] m.entry(r, c)
        == boundary_effect(topology, defs, channels, m.row_table()[r].0@, columns[c].0@)
}

/// Whether the declarations compile: one declaration per topology stock,
/// valid and covering; one valid channel per flow slot; valid ledgers.
pub open spec fn carrier_valid(
    topology: FlowTopology<KindId>,
    defs: Seq<StockAxisDefinition>,
    channels: Seq<ChannelId>,
    ledgers: Seq<LedgerDefinition>,
) -> bool {
    &&& defs.len() == topology.stock_ids().len()
    &&& stock_axes_valid(topology, defs, defs.len() as int)
    &&& declarations_cover(topology, defs)
    &&& channels.len() == topology.flow_seq().len()
    &&& channels_valid(topology, channels, channels.len() as int)
    &&& ledgers_valid(topology, defs, channels, ledgers, ledgers.len() as int)
}

/// Whether `error` is the first failure of the declarations, in the order
/// stock axes, channels, ledgers.
pub open spec fn carrier_refusal(
    topology: FlowTopology<KindId>,
    defs: Seq<StockAxisDefinition>,
    channels: Seq<ChannelId>,
    ledgers: Seq<LedgerDefinition>,
    error: StockFlowError,
) -> bool {
    let stocks = topology.stock_ids().len();
    if defs.len() != stocks {
        error == StockFlowError::StockAxisCount { expected: stocks as usize, actual: defs.len() as usize }
    } else if !stock_axes_valid(topology, defs, defs.len() as int) {
        exists|n: int| 0 <= n < defs.len() && stock_axes_valid(topology, defs, n) && #[trigger] stock_axis_refusal(topology, defs, n, error)
    } else if !declarations_cover(topology, defs) {
        error == StockFlowError::StockAxisCount { expected: stocks as usize, actual: defs.len() as usize }
    } else if channels.len() != topology.flow_seq().len() {
        error == StockFlowError::ChannelCount {
            expected: topology.flow_seq().len() as usize,
            actual: channels.len() as usize,
        }
    } else if !channels_valid(topology, channels, channels.len() as int) {
        exists|n: int| 0 <= n < channels.len() && channels_valid(topology, channels, n) && #[trigger] channel_refusal(topology, channels, n, error)
    } else {
        exists|n: int|
            0 <= n < ledgers.len() && ledgers_valid(topology, defs, channels, ledgers, n) && #[trigger] ledger_refusal(
                topology,
                defs,
                channels,
                ledgers,
                n,
                error,
            )
    }
}

impl StockFlowCarrier {
    /// The settlement topology.
    pub closed spec fn topology_spec(&self) -> FlowTopology<KindId> {
        *self.topology
    }

    /// The canonical identity.
    pub closed spec fn identity_spec(&self) -> CarrierIdentity {
        self.identity
    }

    /// The channel name of each flow slot.
    pub closed spec fn channel_seq(&self) -> Seq<ChannelId> {
        self.slot_channels@
    }

    /// Each stock's axis, in stock order.
    pub closed spec fn stock_axis_table(&self) -> Seq<(StockId, AxisId)> {
        self.axes_by_stock@
    }

    /// The stock-axis declarations the carrier was compiled from.
    pub closed spec fn stock_declarations(&self) -> Seq<StockAxisDefinition> {
        self.declarations@
    }

    /// The ledger declarations the carrier was compiled from.
    pub closed spec fn ledger_declarations(&self) -> Seq<LedgerDefinition> {
        self.ledger_declarations@
    }

    #[verifier::type_invariant]
    closed spec fn coherent(&self) -> bool {
        let topology = *self.topology;
        let count = self.slot_channels@.len() as int;
        &&& compiled_from(*self, self.declarations@, self.ledger_declarations@)
        &&& keys_sorted(self.axes_by_stock@)
        &&& covers_stocks(topology, self.axes_by_stock@)
        &&& count == topology.flow_seq().len()
        &&& channels_valid(topology, self.slot_channels@, count)
        &&& channel_tables_hold(topology, self.axes_by_stock@, self.slot_channels@, count, self.internal@, self.boundaries@)
        &&& self.identity.internal.column_table().len() == self.internal@.len()
        &&& forall|c: int| 0 <= c < self.internal@.len() ==> (#[trigger] self.identity.internal.column_table()[c]).0
            == self.internal@[c].0 && self.identity.internal.column_table()[c].1 == self.internal@[c].1.kind
        &&& self.identity.boundary.column_table().len() == self.boundaries@.len()
        &&& forall|c: int| 0 <= c < self.boundaries@.len() ==> (#[trigger] self.identity.boundary.column_table()[c]).0
            == self.boundaries@[c].0 && self.identity.boundary.column_table()[c].1 == self.boundaries@[c].1.kind
    }
}

/// `value_of` on the stock table is the declared axis.
proof fn lemma_declared_axis(
    topology: FlowTopology<KindId>,
    defs: Seq<StockAxisDefinition>,
    by_stock: Seq<(StockId, AxisId)>,
    rows: Seq<(AxisId, KindId)>,
    stock: Seq<char>,
)
    requires
        stock_axes_valid(topology, defs, defs.len() as int),
        stock_tables_hold(topology, defs, defs.len() as int, by_stock, rows),
        holds(by_stock, stock),
    ensures
        value_of(by_stock, stock)@ == declared_axis(defs, stock),
{
    let i = choose|i: int| 0 <= i < defs.len() && (#[trigger] defs[i]).stock@ == stock;
    assert(holds(by_stock, defs[i].stock@));
}

/// The internal matrix built from the tables is the compiled one.
proof fn lemma_internal_compiled(
    topology: FlowTopology<KindId>,
    defs: Seq<StockAxisDefinition>,
    by_stock: Seq<(StockId, AxisId)>,
    rows: Seq<(AxisId, KindId)>,
    channels: Seq<ChannelId>,
    internal: Seq<(FlowId, InternalColumn)>,
    boundary: Seq<(BoundaryId, BoundaryColumn)>,
    m: ExactEffectMatrix<FlowId>,
)
    requires
        topology.well_formed(),
        channels.len() == topology.flow_seq().len(),
        stock_axes_valid(topology, defs, defs.len() as int),
        stock_tables_hold(topology, defs, defs.len() as int, by_stock, rows),
        covers_stocks(topology, by_stock),
        channels_valid(topology, channels, channels.len() as int),
        channel_tables_hold(topology, by_stock, channels, channels.len() as int, internal, boundary),
        m.row_table() == rows,
        m.column_table().len() == internal.len(),
        forall|c: int| 0 <= c < internal.len() ==> (#[trigger] m.column_table()[c]).0 == internal[c].0
            && m.column_table()[c].1 == internal[c].1.kind,
        forall|r: int, c: int| 0 <= r < rows.len() && 0 <= c < internal.len() ==> #[trigger] m.entry(r, c)
            == internal_incidence(rows[r].0@, internal[c].1),
    ensures
        internal_compiled(topology, defs, channels, m),
{
    let columns = m.column_table();
    assert forall|a: int, b: int| 0 <= a < b < columns.len() implies text_lt((#[trigger] columns[a]).0@, (#[trigger] columns[b]).0@) by {
        assert(text_lt(internal[a].0@, internal[b].0@));
    }
    assert forall|k: Seq<char>| #[trigger] holds(columns, k) <==> exists|t: int| 0 <= t < channels.len() && #[trigger] names_internal(channels[t], k) by {
        if holds(columns, k) {
            let c = choose|c: int| 0 <= c < columns.len() && (#[trigger] columns[c]).0@ == k;
            assert(internal[c].0@ == k);
            assert(holds(internal, k));
        }
        if exists|t: int| 0 <= t < channels.len() && #[trigger] names_internal(channels[t], k) {
            let t = choose|t: int| 0 <= t < channels.len() && #[trigger] names_internal(channels[t], k);
            match channels[t] {
                ChannelId::Internal(f) => {},
                ChannelId::Boundary(b) => {},
            }
            assert(holds(internal, k));
            let c = choose|c: int| 0 <= c < internal.len() && (#[trigger] internal[c]).0@ == k;
            assert(columns[c].0@ == k);
        }
    }
    assert forall|c: int| 0 <= c < columns.len() implies {
        &&& (#[trigger] columns[c]).1@ == slot_kind(topology, internal_slot(channels, columns[c].0@))@
        &&& forall|r: int| 0 <= r < rows.len() ==> #[trigger] m.entry(r, c)
            == internal_effect(topology, defs, channels, rows[r].0@, columns[c].0@)
    } by {
        let k = internal[c].0@;
        lemma_position(internal, c);
        let t = choose|t: int| 0 <= t < channels.len() && #[trigger] names_internal(channels[t], k);
        assert(names_internal(channels[t], k));
        let u = internal_slot(channels, k);
        assert(names_internal(channels[u], k));
        match channels[u] {
            ChannelId::Internal(f) => {},
            ChannelId::Boundary(b) => {},
        }
        let flow = topology.flow_seq()[u];
        assert(flow_well_formed(flow, topology.stock_kind_seq(), topology.kind_seq().len() as int, topology.process_ids().len() as int));
        assert(channel_fits(flow.role_spec(), channels[u]));
        let source = flow.source_spec()->0 as int;
        let target = flow.target_spec()->0 as int;
        assert(holds(by_stock, topology.stock_ids()[source]@));
        assert(holds(by_stock, topology.stock_ids()[target]@));
        lemma_declared_axis(topology, defs, by_stock, rows, topology.stock_ids()[source]@);
        lemma_declared_axis(topology, defs, by_stock, rows, topology.stock_ids()[target]@);
    }
}


/// The boundary matrix built from the tables is the compiled one.
proof fn lemma_boundary_compiled(
    topology: FlowTopology<KindId>,
    defs: Seq<StockAxisDefinition>,
    by_stock: Seq<(StockId, AxisId)>,
    rows: Seq<(AxisId, KindId)>,
    channels: Seq<ChannelId>,
    internal: Seq<(FlowId, InternalColumn)>,
    boundary: Seq<(BoundaryId, BoundaryColumn)>,
    m: ExactEffectMatrix<BoundaryId>,
)
    requires
        topology.well_formed(),
        channels.len() == topology.flow_seq().len(),
        stock_axes_valid(topology, defs, defs.len() as int),
        stock_tables_hold(topology, defs, defs.len() as int, by_stock, rows),
        covers_stocks(topology, by_stock),
        channels_valid(topology, channels, channels.len() as int),
        channel_tables_hold(topology, by_stock, channels, channels.len() as int, internal, boundary),
        m.row_table() == rows,
        m.column_table().len() == boundary.len(),
        forall|c: int| 0 <= c < boundary.len() ==> (#[trigger] m.column_table()[c]).0 == boundary[c].0
            && m.column_table()[c].1 == boundary[c].1.kind,
        forall|r: int, c: int| 0 <= r < rows.len() && 0 <= c < boundary.len() ==> #[trigger] m.entry(r, c)
            == boundary_incidence(rows[r].0@, boundary[c].1),
    ensures
        boundary_compiled(topology, defs, channels, m),
{
    let columns = m.column_table();
    assert forall|a: int, b: int| 0 <= a < b < columns.len() implies text_lt((#[trigger] columns[a]).0@, (#[trigger] columns[b]).0@) by {
        assert(text_lt(boundary[a].0@, boundary[b].0@));
    }
    assert forall|k: Seq<char>| #[trigger] holds(columns, k) <==> port_known(channels, k) by {
        lemma_port_column(topology, by_stock, channels, internal, boundary, k);
        if holds(columns, k) {
            let c = choose|c: int| 0 <= c < columns.len() && (#[trigger] columns[c]).0@ == k;
            assert(boundary[c].0@ == k);
        }
        if holds(boundary, k) {
            let c = choose|c: int| 0 <= c < boundary.len() && (#[trigger] boundary[c]).0@ == k;
            assert(columns[c].0@ == k);
        }
    }
    assert forall|c: int| 0 <= c < columns.len() implies {
        &&& (#[trigger] columns[c]).1@ == port_kind(topology, channels, columns[c].0@)@
        &&& forall|r: int| 0 <= r < rows.len() ==> #[trigger] m.entry(r, c)
            == boundary_effect(topology, defs, channels, rows[r].0@, columns[c].0@)
    } by {
        let k = boundary[c].0@;
        lemma_position(boundary, c);
        lemma_port_column(topology, by_stock, channels, internal, boundary, k);
        let u = boundary_slot(channels, k);
        assert(names_boundary(channels[u], k));
        let flow = topology.flow_seq()[u];
        assert(flow_well_formed(flow, topology.stock_kind_seq(), topology.kind_seq().len() as int, topology.process_ids().len() as int));
        assert(channel_fits(flow.role_spec(), channels[u]));
        let stock = boundary_stock(topology, u);
        assert(holds(by_stock, topology.stock_ids()[stock]@));
        lemma_declared_axis(topology, defs, by_stock, rows, topology.stock_ids()[stock]@);
    }
}

/// A copy of each boundary's role.
fn role_table(boundary: &Vec<(BoundaryId, BoundaryColumn)>) -> (result: Vec<(BoundaryId, FlowRole)>)
    requires
        keys_sorted(boundary@),
    ensures
        keys_sorted(result@),
        result@.len() == boundary@.len(),
        forall|c: int| 0 <= c < result@.len() ==> (#[trigger] result@[c]).0 == boundary@[c].0 && result@[c].1
            == boundary@[c].1.role,
{
    let mut result: Vec<(BoundaryId, FlowRole)> = Vec::new();
    let mut c: usize = 0;
    while c < boundary.len()
        invariant
            c <= boundary@.len(),
            result@.len() == c,
            forall|j: int| 0 <= j < c ==> (#[trigger] result@[j]).0 == boundary@[j].0 && result@[j].1 == boundary@[j].1.role,
        decreases boundary.len() - c,
    {
        result.push((boundary[c].0.clone(), boundary[c].1.role));
        c += 1;
    }
    proof {
        assert forall|a: int, b: int| 0 <= a < b < result@.len() implies text_lt(
            (#[trigger] result@[a]).0@,
            (#[trigger] result@[b]).0@,
        ) by {
            assert(text_lt(boundary@[a].0@, boundary@[b].0@));
        }
    }
    result
}

/// Whether every topology stock has an axis in the table.
fn check_cover(topology: &FlowTopology<KindId>, by_stock: &Vec<(StockId, AxisId)>) -> (result: bool)
    requires
        keys_sorted(by_stock@),
    ensures
        result == covers_stocks(*topology, by_stock@),
{
    let stocks = topology.stocks();
    let mut s: usize = 0;
    while s < stocks.len()
        invariant
            stocks@ == topology.stock_ids(),
            keys_sorted(by_stock@),
            s <= stocks@.len(),
            forall|i: int| 0 <= i < s ==> holds(by_stock@, (#[trigger] topology.stock_ids()[i])@),
        decreases stocks.len() - s,
    {
        if find_key(by_stock, stocks[s].as_str()).is_none() {
            return false;
        }
        s += 1;
    }
    true
}

impl StockFlowCarrier {
    /// Compiles exact incidence matrices and canonical symbol tables.
    ///
    /// `channels` follows the topology's stable flow-slot order; every other
    /// public carrier order is canonical by identifier.
    #[verifier::rlimit(40)]
    pub fn new(
        topology: Arc<FlowTopology<KindId>>,
        stock_axes: Vec<StockAxisDefinition>,
        channels: Vec<ChannelId>,
        ledgers: Vec<LedgerDefinition>,
    ) -> (result: Result<Self, StockFlowError>)
        ensures
            result is Ok <==> carrier_valid(*topology, stock_axes@, channels@, ledgers@),
            match result {
                Ok(carrier) => {
                    &&& carrier.topology_spec() == *topology
                    &&& carrier.channel_seq() == channels@
                    &&& internal_compiled(*topology, stock_axes@, channels@, carrier.identity_spec().internal_spec())
                    &&& boundary_compiled(*topology, stock_axes@, channels@, carrier.identity_spec().boundary_spec())
                    &&& axes_as_declared(*topology, carrier.stock_axis_table(), stock_axes@)
                    &&& ledgers_held(ledgers@, ledgers@.len() as int, carrier.identity_spec().ledger_table())
                },
                Err(error) => carrier_refusal(*topology, stock_axes@, channels@, ledgers@, error),
            },
    {
        topology.check_well_formed();
        let shared: &FlowTopology<KindId> = &*topology;
        let stock_count = topology.stocks().len();
        if stock_axes.len() != stock_count {
            return Err(StockFlowError::StockAxisCount { expected: stock_count, actual: stock_axes.len() });
        }
        let (by_stock, rows) = match map_stock_axes(&topology, &stock_axes) {
            Ok(tables) => tables,
            Err(error) => {
                return Err(error);
            },
        };
        proof {
            let t = *shared;
            assert(declarations_cover(t, stock_axes@) == covers_stocks(t, by_stock@)) by {
                if declarations_cover(t, stock_axes@) {
                    assert forall|s: int| 0 <= s < t.stock_ids().len() implies holds(
                        by_stock@,
                        (#[trigger] t.stock_ids()[s])@,
                    ) by {
                        assert(names_stock(stock_axes@, t.stock_ids()[s]@));
                        let i = choose|i: int| 0 <= i < stock_axes@.len() && (#[trigger] stock_axes@[i]).stock@ == t.stock_ids()[s]@;
                        assert(holds(by_stock@, stock_axes@[i].stock@));
                    }
                }
                if covers_stocks(t, by_stock@) {
                    assert forall|s: int| 0 <= s < t.stock_ids().len() implies names_stock(
                        stock_axes@,
                        (#[trigger] t.stock_ids()[s])@,
                    ) by {
                        assert(holds(by_stock@, t.stock_ids()[s]@));
                    }
                }
            }
        }
        if !check_cover(&topology, &by_stock) {
            return Err(StockFlowError::StockAxisCount { expected: stock_count, actual: by_stock.len() });
        }
        if channels.len() != topology.flows().len() {
            return Err(StockFlowError::ChannelCount { expected: topology.flows().len(), actual: channels.len() });
        }
        let (internal, boundary) = match map_channels(&topology, &by_stock, &channels) {
            Ok(tables) => tables,
            Err(error) => {
                return Err(error);
            },
        };
        let ledger_table = match map_ledgers(
            &topology,
            Ghost(stock_axes@),
            &rows,
            Ghost(by_stock@),
            Ghost(channels@),
            Ghost(internal@),
            &boundary,
            &ledgers,
        ) {
            Ok(table) => table,
            Err(error) => {
                return Err(error);
            },
        };
        let internal_effects = internal_matrix(&rows, &internal);
        let boundary_effects = boundary_matrix(&rows, &boundary);
        proof {
            lemma_internal_compiled(*shared, stock_axes@, by_stock@, rows@, channels@, internal@, boundary@, internal_effects);
            lemma_boundary_compiled(*shared, stock_axes@, by_stock@, rows@, channels@, internal@, boundary@, boundary_effects);
            assert forall|s: int| 0 <= s < shared.stock_ids().len() implies value_of(by_stock@, (#[trigger] shared.stock_ids()[s])@)@
                == declared_axis(stock_axes@, shared.stock_ids()[s]@) by {
                lemma_declared_axis(*shared, stock_axes@, by_stock@, rows@, shared.stock_ids()[s]@);
            }
        }
        let roles = role_table(&boundary);
        proof {
            let table = ledger_table@;
            assert forall|l: int| 0 <= l < table.len() implies !holds(rows@, (#[trigger] table[l]).1.axis_spec()@) by {
                lemma_position(table, l);
                let n = choose|n: int| 0 <= n < ledgers@.len() && (#[trigger] ledgers@[n]).id@ == table[l].0@;
                assert(holds(table, ledgers@[n].id@));
                if holds(rows@, table[l].1.axis_spec()@) {
                    assert(axis_declared(stock_axes@, ledgers@[n].axis@));
                }
            }
            assert forall|l: int, m: int| 0 <= l < m < table.len() implies (#[trigger] table[l]).1.axis_spec()@ != (
            #[trigger] table[m]).1.axis_spec()@ by {
                lemma_position(table, l);
                lemma_position(table, m);
                let a = choose|n: int| 0 <= n < ledgers@.len() && (#[trigger] ledgers@[n]).id@ == table[l].0@;
                let b = choose|n: int| 0 <= n < ledgers@.len() && (#[trigger] ledgers@[n]).id@ == table[m].0@;
                assert(holds(table, ledgers@[a].id@));
                assert(holds(table, ledgers@[b].id@));
                assert(table[l].0@ != table[m].0@);
                if a < b {
                    assert(ledgers@[a].axis@ != ledgers@[b].axis@);
                } else if b < a {
                    assert(ledgers@[b].axis@ != ledgers@[a].axis@);
                }
            }
        }
        proof {
            let table = ledger_table@;
            let columns = boundary_effects.column_table();
            assert forall|l: int, p: int| 0 <= l < table.len() && 0 <= p < table[l].1.port_table().len() implies holds(
                columns,
                (#[trigger] table[l].1.port_table()[p]).0@,
            ) by {
                lemma_position(table, l);
                let n = choose|n: int| 0 <= n < ledgers@.len() && (#[trigger] ledgers@[n]).id@ == table[l].0@;
                assert(holds(table, ledgers@[n].id@));
                let ports = table[l].1.port_table();
                let key = ports[p].0@;
                assert(holds(ports, key));
                let i = choose|i: int| 0 <= i < ledgers@[n].boundaries@.len() && (#[trigger] ledgers@[n].boundaries@[i])@ == key;
                assert(ledger_ports_valid(*shared, channels@, ledgers@[n]));
                assert(port_known(channels@, ledgers@[n].boundaries@[i]@));
            }
        }
        let identity = CarrierIdentity {
            internal: internal_effects,
            boundary: boundary_effects,
            ledgers: ledger_table,
            boundary_roles: roles,
        };
        Ok(StockFlowCarrier {
            topology,
            identity,
            axes_by_stock: by_stock,
            internal,
            boundaries: boundary,
            slot_channels: channels,
            declarations: stock_axes,
            ledger_declarations: ledgers,
        })
    }
}


/// Whether two row tables name the same axes with the same kinds.
pub open spec fn same_rows(a: Seq<(AxisId, KindId)>, b: Seq<(AxisId, KindId)>) -> bool {
    &&& a.len() == b.len()
    &&& forall|i: int| 0 <= i < a.len() ==> (#[trigger] a[i]).0@ == b[i].0@ && a[i].1@ == b[i].1@
}

/// Whether two column tables name the same columns with the same kinds.
pub open spec fn same_columns<C: Symbol>(a: Seq<(C, KindId)>, b: Seq<(C, KindId)>) -> bool {
    &&& a.len() == b.len()
    &&& forall|i: int| 0 <= i < a.len() ==> (#[trigger] a[i]).0@ == b[i].0@ && a[i].1@ == b[i].1@
}

/// Whether two matrices have the same rows, columns and exact entries.
pub open spec fn matrix_equivalent<C: Symbol>(a: ExactEffectMatrix<C>, b: ExactEffectMatrix<C>) -> bool {
    &&& same_rows(a.row_table(), b.row_table())
    &&& same_columns(a.column_table(), b.column_table())
    &&& forall|r: int, c: int| 0 <= r < a.row_table().len() && 0 <= c < a.column_table().len() ==> #[trigger] a.entry(r, c)
        == b.entry(r, c)
}

/// Whether two port tables name the same ports.
pub open spec fn same_ports(a: Seq<(BoundaryId, ())>, b: Seq<(BoundaryId, ())>) -> bool {
    &&& a.len() == b.len()
    &&& forall|i: int| 0 <= i < a.len() ==> (#[trigger] a[i]).0@ == b[i].0@
}

/// Whether two ledger tables describe the same ledgers.
pub open spec fn same_ledgers(a: Seq<(LedgerId, LedgerIdentity)>, b: Seq<(LedgerId, LedgerIdentity)>) -> bool {
    &&& a.len() == b.len()
    &&& forall|i: int| 0 <= i < a.len() ==> {
        &&& (#[trigger] a[i]).0@ == b[i].0@
        &&& a[i].1.axis_spec()@ == b[i].1.axis_spec()@
        &&& a[i].1.kind_spec()@ == b[i].1.kind_spec()@
        &&& same_ports(a[i].1.port_table(), b[i].1.port_table())
    }
}

/// Whether two role tables give the same roles to the same boundaries.
pub open spec fn same_roles(a: Seq<(BoundaryId, FlowRole)>, b: Seq<(BoundaryId, FlowRole)>) -> bool {
    &&& a.len() == b.len()
    &&& forall|i: int| 0 <= i < a.len() ==> (#[trigger] a[i]).0@ == b[i].0@ && a[i].1 == b[i].1
}

/// Whether two carrier identities are the same identity.
pub open spec fn identity_equivalent(a: CarrierIdentity, b: CarrierIdentity) -> bool {
    &&& matrix_equivalent(a.internal_spec(), b.internal_spec())
    &&& matrix_equivalent(a.boundary_spec(), b.boundary_spec())
    &&& same_ledgers(a.ledger_table(), b.ledger_table())
    &&& same_roles(a.role_table(), b.role_table())
}

impl<C: Symbol> ExactEffectMatrix<C> {
    /// Whether another matrix has the same rows, columns and entries.
    pub fn same_as(&self, other: &Self) -> (result: bool)
        ensures
            result == matrix_equivalent(*self, *other),
    {
        proof {
            use_type_invariant(self);
            use_type_invariant(other);
        }
        if self.rows.len() != other.rows.len() || self.columns.len() != other.columns.len() {
            return false;
        }
        let mut r: usize = 0;
        while r < self.rows.len()
            invariant
                self.rows@.len() == other.rows@.len(),
                r <= self.rows@.len(),
                forall|i: int| 0 <= i < r ==> (#[trigger] self.rows@[i]).0@ == other.rows@[i].0@ && self.rows@[i].1@
                    == other.rows@[i].1@,
            decreases self.rows.len() - r,
        {
            if !self.rows[r].0.same(&other.rows[r].0) || !self.rows[r].1.same(&other.rows[r].1) {
                return false;
            }
            r += 1;
        }
        let mut c: usize = 0;
        while c < self.columns.len()
            invariant
                self.columns@.len() == other.columns@.len(),
                c <= self.columns@.len(),
                forall|i: int| 0 <= i < c ==> (#[trigger] self.columns@[i]).0@ == other.columns@[i].0@
                    && self.columns@[i].1@ == other.columns@[i].1@,
            decreases self.columns.len() - c,
        {
            if !crate::format::same_text(self.columns[c].0.text(), other.columns[c].0.text())
                || !self.columns[c].1.same(&other.columns[c].1) {
                return false;
            }
            c += 1;
        }
        let mut r: usize = 0;
        while r < self.rows.len()
            invariant
                self.rows@.len() == other.rows@.len(),
                self.columns@.len() == other.columns@.len(),
                self.entries@.len() == self.rows@.len(),
                other.entries@.len() == other.rows@.len(),
                forall|i: int| 0 <= i < self.entries@.len() ==> (#[trigger] self.entries@[i])@.len() == self.columns@.len(),
                forall|i: int| 0 <= i < other.entries@.len() ==> (#[trigger] other.entries@[i])@.len() == other.columns@.len(),
                r <= self.rows@.len(),
                forall|i: int, j: int| 0 <= i < r && 0 <= j < self.columns@.len() ==> #[trigger] self.entry(i, j) == other.entry(i, j),
            decreases self.rows.len() - r,
        {
            let mut c: usize = 0;
            while c < self.columns.len()
                invariant
                    self.columns@.len() == other.columns@.len(),
                    r < self.rows@.len(),
                    r < self.entries@.len(),
                    r < other.entries@.len(),
                    self.entries@[r as int]@.len() == self.columns@.len(),
                    other.entries@[r as int]@.len() == other.columns@.len(),
                    c <= self.columns@.len(),
                    forall|j: int| 0 <= j < c ==> #[trigger] self.entry(r as int, j) == other.entry(r as int, j),
                decreases self.columns.len() - c,
            {
                if !self.entries[r][c].eq(&other.entries[r][c]) {
                    proof {
                        assert(self.entry(r as int, c as int) != other.entry(r as int, c as int));
                    }
                    return false;
                }
                c += 1;
            }
            r += 1;
        }
        true
    }
}

impl<C: Symbol> Clone for ExactEffectMatrix<C> {
    fn clone(&self) -> (result: Self)
        ensures
            result.row_table() == self.row_table(),
            result.column_table() == self.column_table(),
            forall|r: int, c: int| 0 <= r < self.row_table().len() && 0 <= c < self.column_table().len() ==> #[trigger] result.entry(
                r,
                c,
            ) == self.entry(r, c),
    {
        proof {
            use_type_invariant(self);
        }
        let rows = copy_rows(&self.rows);
        let mut columns: Vec<(C, KindId)> = Vec::new();
        let mut c: usize = 0;
        while c < self.columns.len()
            invariant
                c <= self.columns@.len(),
                columns@ == self.columns@.take(c as int),
            decreases self.columns.len() - c,
        {
            columns.push((self.columns[c].0.duplicate(), self.columns[c].1.clone()));
            proof {
                assert(columns@ =~= self.columns@.take(c + 1));
            }
            c += 1;
        }
        proof {
            assert(columns@ =~= self.columns@);
        }
        let mut entries: Vec<Vec<Rational>> = Vec::new();
        let mut r: usize = 0;
        while r < self.entries.len()
            invariant
                r <= self.entries@.len(),
                entries@.len() == r,
                forall|i: int| 0 <= i < r ==> (#[trigger] entries@[i])@.len() == self.entries@[i]@.len(),
                forall|i: int, j: int| 0 <= i < r && 0 <= j < self.entries@[i]@.len() ==> #[trigger] entries@[i]@[j]@
                    == self.entries@[i]@[j]@,
            decreases self.entries.len() - r,
        {
            let row = crate::exact::copies(&self.entries[r]);
            proof {
                assert forall|j: int| 0 <= j < row@.len() implies #[trigger] row@[j]@ == self.entries@[r as int]@[j]@ by {
                    assert(crate::exact::reals(row@)[j] == crate::exact::reals(self.entries@[r as int]@)[j]);
                }
            }
            entries.push(row);
            r += 1;
        }
        ExactEffectMatrix { rows, columns, entries }
    }
}

impl<I: Symbol> Clone for ExactAmounts<I> {
    fn clone(&self) -> (result: Self)
        ensures
            result.table().len() == self.table().len(),
            forall|i: int| 0 <= i < self.table().len() ==> (#[trigger] result.table()[i]).0 == self.table()[i].0
                && result.table()[i].1.0 == self.table()[i].1.0 && result.table()[i].1.1@ == self.table()[i].1.1@,
    {
        proof {
            use_type_invariant(self);
        }
        let mut values: Vec<(I, (KindId, Rational))> = Vec::new();
        let mut i: usize = 0;
        while i < self.values.len()
            invariant
                i <= self.values@.len(),
                values@.len() == i,
                forall|j: int| 0 <= j < i ==> (#[trigger] values@[j]).0 == self.values@[j].0 && values@[j].1.0
                    == self.values@[j].1.0 && values@[j].1.1@ == self.values@[j].1.1@,
            decreases self.values.len() - i,
        {
            let entry = &self.values[i];
            values.push((entry.0.duplicate(), (entry.1.0.clone(), entry.1.1.clone())));
            i += 1;
        }
        proof {
            assert forall|a: int, b: int| 0 <= a < b < values@.len() implies text_lt(
                (#[trigger] values@[a]).0@,
                (#[trigger] values@[b]).0@,
            ) by {
                assert(text_lt(self.values@[a].0@, self.values@[b].0@));
            }
        }
        ExactAmounts { values }
    }
}

impl CarrierIdentity {
    /// Whether another identity is the same identity.
    pub fn same_as(&self, other: &Self) -> (result: bool)
        ensures
            result == identity_equivalent(*self, *other),
    {
        if !self.internal.same_as(&other.internal) || !self.boundary.same_as(&other.boundary) {
            return false;
        }
        if self.ledgers.len() != other.ledgers.len() || self.boundary_roles.len() != other.boundary_roles.len() {
            return false;
        }
        let mut i: usize = 0;
        while i < self.ledgers.len()
            invariant
                self.ledgers@.len() == other.ledgers@.len(),
                i <= self.ledgers@.len(),
                forall|j: int| 0 <= j < i ==> {
                    &&& (#[trigger] self.ledgers@[j]).0@ == other.ledgers@[j].0@
                    &&& self.ledgers@[j].1.axis_spec()@ == other.ledgers@[j].1.axis_spec()@
                    &&& self.ledgers@[j].1.kind_spec()@ == other.ledgers@[j].1.kind_spec()@
                    &&& same_ports(self.ledgers@[j].1.port_table(), other.ledgers@[j].1.port_table())
                },
            decreases self.ledgers.len() - i,
        {
            let a = &self.ledgers[i];
            let b = &other.ledgers[i];
            if !a.0.same(&b.0) || !a.1.axis.same(&b.1.axis) || !a.1.kind.same(&b.1.kind) || a.1.boundaries.len()
                != b.1.boundaries.len() {
                return false;
            }
            let mut k: usize = 0;
            while k < a.1.boundaries.len()
                invariant
                    i < self.ledgers@.len(),
                    *a == self.ledgers@[i as int],
                    *b == other.ledgers@[i as int],
                    a.1.boundaries@.len() == b.1.boundaries@.len(),
                    k <= a.1.boundaries@.len(),
                    forall|j: int| 0 <= j < k ==> (#[trigger] a.1.boundaries@[j]).0@ == b.1.boundaries@[j].0@,
                decreases a.1.boundaries.len() - k,
            {
                if !a.1.boundaries[k].0.same(&b.1.boundaries[k].0) {
                    proof {
                        assert(!same_ports(a.1.port_table(), b.1.port_table()));
                        assert(self.ledgers@[i as int] == *a);
                    }
                    return false;
                }
                k += 1;
            }
            i += 1;
        }
        let mut i: usize = 0;
        while i < self.boundary_roles.len()
            invariant
                self.boundary_roles@.len() == other.boundary_roles@.len(),
                i <= self.boundary_roles@.len(),
                forall|j: int| 0 <= j < i ==> (#[trigger] self.boundary_roles@[j]).0@ == other.boundary_roles@[j].0@
                    && self.boundary_roles@[j].1 == other.boundary_roles@[j].1,
            decreases self.boundary_roles.len() - i,
        {
            if !self.boundary_roles[i].0.same(&other.boundary_roles[i].0) || self.boundary_roles[i].1
                != other.boundary_roles[i].1 {
                return false;
            }
            i += 1;
        }
        true
    }
}

impl Clone for CarrierIdentity {
    fn clone(&self) -> (result: Self)
        ensures
            identity_equivalent(result, *self),
            result.internal_spec().row_table() == self.internal_spec().row_table(),
            result.internal_spec().column_table() == self.internal_spec().column_table(),
            result.boundary_spec().row_table() == self.boundary_spec().row_table(),
            result.boundary_spec().column_table() == self.boundary_spec().column_table(),
            result.role_table() == self.role_table(),
            result.ledger_table().len() == self.ledger_table().len(),
            forall|j: int| 0 <= j < self.ledger_table().len() ==> {
                &&& (#[trigger] result.ledger_table()[j]).0 == self.ledger_table()[j].0
                &&& result.ledger_table()[j].1.axis_spec() == self.ledger_table()[j].1.axis_spec()
                &&& result.ledger_table()[j].1.kind_spec() == self.ledger_table()[j].1.kind_spec()
                &&& result.ledger_table()[j].1.port_table() == self.ledger_table()[j].1.port_table()
            },
    {
        proof {
            use_type_invariant(self);
        }
        let mut ledgers: Vec<(LedgerId, LedgerIdentity)> = Vec::new();
        let mut i: usize = 0;
        while i < self.ledgers.len()
            invariant
                i <= self.ledgers@.len(),
                ledgers@.len() == i,
                forall|j: int| 0 <= j < i ==> {
                    &&& (#[trigger] ledgers@[j]).0 == self.ledgers@[j].0
                    &&& ledgers@[j].1.axis_spec() == self.ledgers@[j].1.axis_spec()
                    &&& ledgers@[j].1.kind_spec() == self.ledgers@[j].1.kind_spec()
                    &&& ledgers@[j].1.port_table() == self.ledgers@[j].1.port_table()
                },
            decreases self.ledgers.len() - i,
        {
            ledgers.push((self.ledgers[i].0.clone(), self.ledgers[i].1.clone()));
            i += 1;
        }
        let mut roles: Vec<(BoundaryId, FlowRole)> = Vec::new();
        let mut i: usize = 0;
        while i < self.boundary_roles.len()
            invariant
                i <= self.boundary_roles@.len(),
                roles@ == self.boundary_roles@.take(i as int),
            decreases self.boundary_roles.len() - i,
        {
            roles.push((self.boundary_roles[i].0.clone(), self.boundary_roles[i].1));
            proof {
                assert(roles@ =~= self.boundary_roles@.take(i + 1));
            }
            i += 1;
        }
        proof {
            assert(roles@ =~= self.boundary_roles@);
            assert forall|a: int, b: int| 0 <= a < b < ledgers@.len() implies text_lt(
                (#[trigger] ledgers@[a]).0@,
                (#[trigger] ledgers@[b]).0@,
            ) by {
                assert(text_lt(self.ledgers@[a].0@, self.ledgers@[b].0@));
            }
        }
        CarrierIdentity {
            internal: self.internal.clone(),
            boundary: self.boundary.clone(),
            ledgers,
            boundary_roles: roles,
        }
    }
}

impl StockFlowCarrier {
    /// Underlying immutable settlement topology.
    pub fn topology(&self) -> (result: &Arc<FlowTopology<KindId>>)
        ensures
            **result == self.topology_spec(),
    {
        &self.topology
    }

    /// Canonical exact identity retained by records and evidence.
    pub fn identity(&self) -> (result: &CarrierIdentity)
        ensures
            *result == self.identity_spec(),
    {
        &self.identity
    }

    /// Exact internal incidence matrix.
    pub fn internal_effects(&self) -> (result: &ExactEffectMatrix<FlowId>)
        ensures
            *result == self.identity_spec().internal_spec(),
    {
        &self.identity.internal
    }

    /// Exact boundary incidence matrix.
    pub fn boundary_effects(&self) -> (result: &ExactEffectMatrix<BoundaryId>)
        ensures
            *result == self.identity_spec().boundary_spec(),
    {
        &self.identity.boundary
    }

    /// Returns the axis assigned to one settlement stock.
    pub fn axis_for_stock(&self, stock: &StockId) -> (result: Option<&AxisId>)
        ensures
            match result {
                Some(axis) => holds(self.stock_axis_table(), stock@) && *axis == value_of(self.stock_axis_table(), stock@),
                None => !holds(self.stock_axis_table(), stock@),
            },
    {
        proof {
            use_type_invariant(self);
        }
        match find_key(&self.axes_by_stock, stock.as_str()) {
            Some(index) => Some(&self.axes_by_stock[index].1),
            None => None,
        }
    }

    /// Returns one ledger's projected axis and kind.
    pub fn ledger(&self, ledger: &LedgerId) -> (result: Option<&LedgerIdentity>)
        ensures
            match result {
                Some(identity) => holds(self.identity_spec().ledger_table(), ledger@) && *identity == value_of(
                    self.identity_spec().ledger_table(),
                    ledger@,
                ),
                None => !holds(self.identity_spec().ledger_table(), ledger@),
            },
    {
        proof {
            use_type_invariant(&self.identity);
        }
        match find_key(&self.identity.ledgers, ledger.as_str()) {
            Some(index) => Some(&self.identity.ledgers[index].1),
            None => None,
        }
    }

    /// The carrier is what its declarations compile to.
    pub fn check_compiled(&self)
        ensures
            compiled_from(*self, self.stock_declarations(), self.ledger_declarations()),
    {
        proof {
            use_type_invariant(self);
        }
    }

    /// Every stock has an axis and every flow slot has a channel name.
    pub fn check_slots(&self)
        ensures
            keys_sorted(self.stock_axis_table()),
            covers_stocks(self.topology_spec(), self.stock_axis_table()),
            self.channel_seq().len() == self.topology_spec().flow_seq().len(),
    {
        proof {
            use_type_invariant(self);
        }
    }

    /// Flow-slot names in settlement-topology order.
    pub fn slot_channels(&self) -> (result: &[ChannelId])
        ensures
            result@ == self.channel_seq(),
    {
        self.slot_channels.as_slice()
    }
}

} // verus!
