//! Exact settlement for typed stock-flow processes.
//!
//! [`FlowTopology`] compiles identifiers and endpoints into immutable indices.
//! A batch is evaluated against one pre-settlement state. When proposed
//! withdrawals would take a floored stock below its floor, all withdrawals from
//! that stock receive the same proportional scale, provided every process
//! drawing on it rations; otherwise the batch is refused. Boundary inputs
//! become available only after the batch.
use crate::format::{count_text, decimal, push_text, text_from_chars};
use crate::ident::{ProcessId, StockId};
use crate::kind::Kind;
use crate::rational::Rational;
use std::sync::Arc;
use vstd::prelude::*;

verus! {

/// The boundary role of a flow.
#[derive(Clone, Copy, Debug, PartialEq, Eq, Structural)]
pub enum FlowRole {
    /// A flow from outside the modeled boundary into one stock.
    Input,
    /// A flow between two stocks within the boundary.
    Transfer,
    /// A flow from one stock out of the modeled boundary.
    Output,
}

/// What settlement does when a batch would take a floored stock below its
/// kind's floor. Declared once per process.
#[derive(Clone, Copy, Debug, PartialEq, Eq, Hash, Structural)]
pub enum Rationing {
    /// The batch is rejected with `StockFlowError::BelowFloor`.
    Refuse,
    /// Withdrawals share the proportional limit `(available - floor) / withdrawal`,
    /// but only when every process withdrawing from that stock is `Ration`.
    Ration,
}

impl Default for Rationing {
    fn default() -> (result: Self)
        ensures
            result == Rationing::Refuse,
    {
        Rationing::Refuse
    }
}

/// One process's declaration. A process that is not declared is `Refuse`.
#[derive(Clone, Debug, PartialEq, Eq)]
pub struct ProcessDefinition {
    /// The declared process.
    pub id: ProcessId,
    /// What settlement does when this process would breach a floor.
    pub rationing: Rationing,
}

/// Immutable metadata for one stock in a compiled flow system.
#[derive(Clone, Debug, PartialEq, Eq)]
pub struct StockDefinition<K> {
    /// Stable external identifier.
    pub id: StockId,
    /// Conserved quantity kind stored in the stock.
    pub kind: K,
}

/// Immutable metadata for one flow slot in a compiled flow system.
#[derive(Clone, Debug, PartialEq, Eq)]
pub struct FlowSpec<K> {
    /// Process responsible for this flow slot.
    pub process: ProcessId,
    /// The kind of the amount moved: the endpoint stocks' difference kind.
    pub kind: K,
    /// Source stock, absent for a boundary input.
    pub source: Option<StockId>,
    /// Target stock, absent for a boundary output.
    pub target: Option<StockId>,
}

/// One validated flow expressed entirely as stable topology indices.
#[derive(Clone, Copy, Debug, PartialEq, Eq, Structural)]
pub struct CompiledFlow {
    process: usize,
    kind: usize,
    source: Option<usize>,
    target: Option<usize>,
    role: FlowRole,
}

impl CompiledFlow {
    /// Index of the flow's process.
    pub closed spec fn process_spec(&self) -> usize {
        self.process
    }

    /// Index of the kind of the balance the flow enters.
    pub closed spec fn kind_spec(&self) -> usize {
        self.kind
    }

    /// Source stock index, absent for a boundary input.
    pub closed spec fn source_spec(&self) -> Option<usize> {
        self.source
    }

    /// Target stock index, absent for a boundary output.
    pub closed spec fn target_spec(&self) -> Option<usize> {
        self.target
    }

    /// Boundary role determined during compilation.
    pub closed spec fn role_spec(&self) -> FlowRole {
        self.role
    }

    /// Index into [`FlowTopology::processes`].
    pub fn process(&self) -> (result: usize)
        ensures
            result == self.process_spec(),
    {
        self.process
    }

    /// Index into [`FlowTopology::kinds`] of the balance this flow enters.
    pub fn kind(&self) -> (result: usize)
        ensures
            result == self.kind_spec(),
    {
        self.kind
    }

    /// Source stock index, absent for a boundary input.
    pub fn source(&self) -> (result: Option<usize>)
        ensures
            result == self.source_spec(),
    {
        self.source
    }

    /// Target stock index, absent for a boundary output.
    pub fn target(&self) -> (result: Option<usize>)
        ensures
            result == self.target_spec(),
    {
        self.target
    }

    /// Boundary role determined during compilation.
    pub fn role(&self) -> (result: FlowRole)
        ensures
            result == self.role_spec(),
    {
        self.role
    }
}

/// The role of a flow with the given endpoints.
pub open spec fn role_of(source: Option<usize>, target: Option<usize>) -> FlowRole {
    match (source, target) {
        (None, _) => FlowRole::Input,
        (Some(_), None) => FlowRole::Output,
        (Some(_), Some(_)) => FlowRole::Transfer,
    }
}

/// Whether one compiled flow is well formed for a topology of the given sizes.
pub open spec fn flow_well_formed(
    flow: CompiledFlow,
    stock_kinds: Seq<usize>,
    kind_count: int,
    process_count: int,
) -> bool {
    &&& flow.process_spec() < process_count
    &&& flow.kind_spec() < kind_count
    &&& !(flow.source_spec() is None && flow.target_spec() is None)
    &&& flow.role_spec() == role_of(flow.source_spec(), flow.target_spec())
    &&& flow.source_spec() matches Some(s) ==> s < stock_kinds.len() && stock_kinds[s as int]
        == flow.kind_spec()
    &&& flow.target_spec() matches Some(t) ==> t < stock_kinds.len() && stock_kinds[t as int]
        == flow.kind_spec()
    &&& (flow.source_spec() is Some && flow.target_spec() is Some) ==> flow.source_spec()->0 != flow.target_spec()->0
}

/// Invalid stock declarations or flow batches.
#[derive(Clone, Debug, PartialEq, Eq)]
#[non_exhaustive]
pub enum StockFlowError<K> {
    /// A system must contain at least one stock.
    NoStocks,
    /// The same stock identifier was declared twice.
    DuplicateStock(StockId),
    /// A proposed flow amount was negative.
    NegativeAmount,
    /// A flow has neither source nor target.
    DisconnectedFlow,
    /// A transfer names the same source and target.
    SameStock(StockId),
    /// A flow references an undeclared stock.
    UnknownStock(StockId),
    /// A flow kind differs from a referenced stock's difference kind.
    KindMismatch {
        /// Referenced stock.
        stock: StockId,
        /// Kind declared by the stock.
        stock_kind: K,
        /// Kind declared by the flow.
        flow_kind: K,
    },
    /// A transfer joins stocks of different kinds.
    TransferKinds {
        /// Source stock.
        source: StockId,
        /// Its kind.
        source_kind: K,
        /// Target stock.
        target: StockId,
        /// Its kind.
        target_kind: K,
    },
    /// A process was declared twice.
    DuplicateProcess(ProcessId),
    /// A declared process has no flow.
    UnknownProcess(ProcessId),
    /// An amount vector has the wrong length.
    AmountCount {
        /// Number of stock or flow slots required by the topology.
        expected: usize,
        /// Number of supplied values.
        actual: usize,
    },
    /// A compiled report did not originate from the supplied topology.
    TopologyMismatch,
    /// A dense initial or proposed amount was NaN or infinite.
    NonFiniteAmount,
    /// Finite inputs produced a non-finite dense intermediate or account.
    ArithmeticOverflow,
    /// A requested flow amount was negative.
    NegativeFlow {
        /// Flow slot of the first negative request.
        index: usize,
        /// Its process.
        process: ProcessId,
        /// The requested amount.
        amount: Box<Rational>,
    },
    /// An initial amount lies below its kind's floor.
    InitialBelowFloor {
        /// The stock.
        stock: StockId,
        /// Its kind's floor.
        floor: Box<Rational>,
        /// The initial amount.
        amount: Box<Rational>,
    },
    /// A refusing process would take a floored stock below its floor.
    BelowFloor {
        /// The stock.
        stock: StockId,
        /// Its kind's floor.
        floor: Box<Rational>,
        /// The least refusing process with a positive withdrawal from it.
        process: ProcessId,
        /// The amount available before the batch.
        available: Box<Rational>,
        /// The total withdrawal requested.
        withdrawal: Box<Rational>,
    },
    /// A kind's floor has no finite binary64 value.
    FloorNotRepresentable {
        /// The kind.
        kind: K,
        /// Its floor.
        floor: Box<Rational>,
    },
}

/// The message describing an error.
pub open spec fn error_message<K: Kind>(error: StockFlowError<K>) -> Seq<char> {
    match error {
        StockFlowError::NoStocks => "a stock-flow system needs at least one stock"@,
        StockFlowError::DuplicateStock(stock) => "duplicate stock "@ + stock@,
        StockFlowError::NegativeAmount => "stock and flow amounts must be nonnegative"@,
        StockFlowError::DisconnectedFlow => "a flow needs a source or target"@,
        StockFlowError::SameStock(stock) => "flow source and target are both "@ + stock@,
        StockFlowError::UnknownStock(stock) => "unknown stock "@ + stock@,
        StockFlowError::KindMismatch { stock, stock_kind, flow_kind } => "stock "@ + stock@ + " contains kind "@
            + stock_kind.identity() + ", not flow kind "@ + flow_kind.identity(),
        StockFlowError::TransferKinds { source, source_kind, target, target_kind } => "transfer from "@ + source@
            + " of kind "@ + source_kind.identity() + " to "@ + target@ + " of kind "@ + target_kind.identity()
            + " joins different balances"@,
        StockFlowError::DuplicateProcess(process) => "duplicate process "@ + process@,
        StockFlowError::UnknownProcess(process) => "declared process "@ + process@ + " has no flow"@,
        StockFlowError::AmountCount { expected, actual } => "topology requires "@ + decimal(expected as int)
            + " amounts, but "@ + decimal(actual as int) + " were supplied"@,
        StockFlowError::TopologyMismatch => "compiled report does not match the supplied topology"@,
        StockFlowError::NonFiniteAmount => "dense amounts must be finite"@,
        StockFlowError::ArithmeticOverflow => "dense settlement produced a non-finite value"@,
        StockFlowError::NegativeFlow { index, process, amount } => "flow "@ + decimal(index as int) + " of process "@
            + process@ + " requests the negative amount "@ + amount.text_spec(),
        StockFlowError::InitialBelowFloor { stock, floor, amount } => "stock "@ + stock@ + " starts at "@
            + amount.text_spec() + ", below its floor "@ + floor.text_spec(),
        StockFlowError::BelowFloor { stock, floor, process, available, withdrawal } => "process "@ + process@
            + " would take stock "@ + stock@ + " below its floor "@ + floor.text_spec() + ": "@
            + withdrawal.text_spec() + " requested from "@ + available.text_spec(),
        StockFlowError::FloorNotRepresentable { kind, floor } => "floor "@ + floor.text_spec() + " of kind "@
            + kind.identity() + " has no finite binary64 value"@,
    }
}

impl<K: Kind> StockFlowError<K> {
    /// Describes the error, naming the stocks, processes, kinds and amounts it
    /// carries.
    pub fn to_string(&self) -> (result: String)
        ensures
            result@ == error_message(*self),
    {
        let mut out: Vec<char> = Vec::new();
        match self {
            StockFlowError::NoStocks => push_text(&mut out, "a stock-flow system needs at least one stock"),
            StockFlowError::DuplicateStock(stock) => {
                push_text(&mut out, "duplicate stock ");
                push_text(&mut out, stock.as_str());
            },
            StockFlowError::NegativeAmount => push_text(&mut out, "stock and flow amounts must be nonnegative"),
            StockFlowError::DisconnectedFlow => push_text(&mut out, "a flow needs a source or target"),
            StockFlowError::SameStock(stock) => {
                push_text(&mut out, "flow source and target are both ");
                push_text(&mut out, stock.as_str());
            },
            StockFlowError::UnknownStock(stock) => {
                push_text(&mut out, "unknown stock ");
                push_text(&mut out, stock.as_str());
            },
            StockFlowError::KindMismatch { stock, stock_kind, flow_kind } => {
                push_text(&mut out, "stock ");
                push_text(&mut out, stock.as_str());
                push_text(&mut out, " contains kind ");
                push_text(&mut out, stock_kind.label());
                push_text(&mut out, ", not flow kind ");
                push_text(&mut out, flow_kind.label());
            },
            StockFlowError::TransferKinds { source, source_kind, target, target_kind } => {
                push_text(&mut out, "transfer from ");
                push_text(&mut out, source.as_str());
                push_text(&mut out, " of kind ");
                push_text(&mut out, source_kind.label());
                push_text(&mut out, " to ");
                push_text(&mut out, target.as_str());
                push_text(&mut out, " of kind ");
                push_text(&mut out, target_kind.label());
                push_text(&mut out, " joins different balances");
            },
            StockFlowError::DuplicateProcess(process) => {
                push_text(&mut out, "duplicate process ");
                push_text(&mut out, process.as_str());
            },
            StockFlowError::UnknownProcess(process) => {
                push_text(&mut out, "declared process ");
                push_text(&mut out, process.as_str());
                push_text(&mut out, " has no flow");
            },
            StockFlowError::AmountCount { expected, actual } => {
                push_text(&mut out, "topology requires ");
                push_text(&mut out, count_text(*expected).as_str());
                push_text(&mut out, " amounts, but ");
                push_text(&mut out, count_text(*actual).as_str());
                push_text(&mut out, " were supplied");
            },
            StockFlowError::TopologyMismatch => push_text(&mut out, "compiled report does not match the supplied topology"),
            StockFlowError::NonFiniteAmount => push_text(&mut out, "dense amounts must be finite"),
            StockFlowError::ArithmeticOverflow => push_text(&mut out, "dense settlement produced a non-finite value"),
            StockFlowError::NegativeFlow { index, process, amount } => {
                push_text(&mut out, "flow ");
                push_text(&mut out, count_text(*index).as_str());
                push_text(&mut out, " of process ");
                push_text(&mut out, process.as_str());
                push_text(&mut out, " requests the negative amount ");
                push_text(&mut out, amount.to_text().as_str());
            },
            StockFlowError::InitialBelowFloor { stock, floor, amount } => {
                push_text(&mut out, "stock ");
                push_text(&mut out, stock.as_str());
                push_text(&mut out, " starts at ");
                push_text(&mut out, amount.to_text().as_str());
                push_text(&mut out, ", below its floor ");
                push_text(&mut out, floor.to_text().as_str());
            },
            StockFlowError::BelowFloor { stock, floor, process, available, withdrawal } => {
                push_text(&mut out, "process ");
                push_text(&mut out, process.as_str());
                push_text(&mut out, " would take stock ");
                push_text(&mut out, stock.as_str());
                push_text(&mut out, " below its floor ");
                push_text(&mut out, floor.to_text().as_str());
                push_text(&mut out, ": ");
                push_text(&mut out, withdrawal.to_text().as_str());
                push_text(&mut out, " requested from ");
                push_text(&mut out, available.to_text().as_str());
            },
            StockFlowError::FloorNotRepresentable { kind, floor } => {
                push_text(&mut out, "floor ");
                push_text(&mut out, floor.to_text().as_str());
                push_text(&mut out, " of kind ");
                push_text(&mut out, kind.label());
                push_text(&mut out, " has no finite binary64 value");
            },
        }
        assert(out@ =~= error_message(*self));
        text_from_chars(&out)
    }
}

/// Immutable, validated stock-flow layout.
///
/// Every stock, conserved kind, process, source, and target is assigned an
/// index once. Settlement therefore operates on contiguous amount arrays and
/// cannot encounter an unknown stock or kind after compilation.
#[derive(Debug, PartialEq, Eq)]
pub struct FlowTopology<K: Kind> {
    stocks: Vec<StockId>,
    stock_kinds: Vec<usize>,
    kinds: Vec<K>,
    processes: Vec<ProcessId>,
    rationing: Vec<Rationing>,
    flows: Vec<CompiledFlow>,
}

/// Whether the identifiers are pairwise distinct.
pub open spec fn distinct_stocks(ids: Seq<StockId>) -> bool {
    forall|i: int, j: int| 0 <= i < j < ids.len() ==> (#[trigger] ids[i])@ != (#[trigger] ids[j])@
}

/// Whether the identifiers are pairwise distinct.
pub open spec fn distinct_processes(ids: Seq<ProcessId>) -> bool {
    forall|i: int, j: int| 0 <= i < j < ids.len() ==> (#[trigger] ids[i])@ != (#[trigger] ids[j])@
}

/// Whether the kinds have pairwise distinct identities.
pub open spec fn distinct_kinds<K: Kind>(kinds: Seq<K>) -> bool {
    forall|i: int, j: int| 0 <= i < j < kinds.len() ==> (#[trigger] kinds[i]).identity() != (
    #[trigger] kinds[j]).identity()
}

impl<K: Kind> FlowTopology<K> {
    /// Stock identifiers in index order.
    pub closed spec fn stock_ids(&self) -> Seq<StockId> {
        self.stocks@
    }

    /// The kind index of each stock.
    pub closed spec fn stock_kind_seq(&self) -> Seq<usize> {
        self.stock_kinds@
    }

    /// Conserved kinds in first-declaration order.
    pub closed spec fn kind_seq(&self) -> Seq<K> {
        self.kinds@
    }

    /// Process identifiers in first-flow order.
    pub closed spec fn process_ids(&self) -> Seq<ProcessId> {
        self.processes@
    }

    /// The declared rationing of each process.
    pub closed spec fn rationing_seq(&self) -> Seq<Rationing> {
        self.rationing@
    }

    /// Compiled flows in declaration order.
    pub closed spec fn flow_seq(&self) -> Seq<CompiledFlow> {
        self.flows@
    }

    /// The floor of stock `stock`'s kind.
    pub open spec fn stock_floor(&self, stock: int) -> Option<real> {
        self.kind_seq()[self.stock_kind_seq()[stock] as int].floor_value()
    }

    /// The structural invariant of a compiled topology.
    pub open spec fn well_formed(&self) -> bool {
        &&& self.stock_ids().len() > 0
        &&& distinct_stocks(self.stock_ids())
        &&& self.stock_kind_seq().len() == self.stock_ids().len()
        &&& forall|i: int| 0 <= i < self.stock_kind_seq().len() ==> #[trigger] self.stock_kind_seq()[i]
            < self.kind_seq().len()
        &&& distinct_kinds(self.kind_seq())
        &&& distinct_processes(self.process_ids())
        &&& self.rationing_seq().len() == self.process_ids().len()
        &&& forall|f: int| 0 <= f < self.flow_seq().len() ==> flow_well_formed(
            #[trigger] self.flow_seq()[f],
            self.stock_kind_seq(),
            self.kind_seq().len() as int,
            self.process_ids().len() as int,
        )
    }

    #[verifier::type_invariant]
    closed spec fn structurally_valid(&self) -> bool {
        self.well_formed()
    }

    /// Establishes the structural invariant of a topology.
    pub fn check_well_formed(&self)
        ensures
            self.well_formed(),
    {
        proof {
            use_type_invariant(self);
        }
    }

    /// Stock identifiers in stable index order.
    pub fn stocks(&self) -> (result: &Vec<StockId>)
        ensures
            result@ == self.stock_ids(),
    {
        &self.stocks
    }

    /// Conserved kinds in stable first-declaration order.
    pub fn kinds(&self) -> (result: &Vec<K>)
        ensures
            result@ == self.kind_seq(),
    {
        &self.kinds
    }

    /// Process identifiers in stable first-flow order.
    pub fn processes(&self) -> (result: &Vec<ProcessId>)
        ensures
            result@ == self.process_ids(),
    {
        &self.processes
    }

    /// Compiled flows in declaration order.
    pub fn flows(&self) -> (result: &Vec<CompiledFlow>)
        ensures
            result@ == self.flow_seq(),
    {
        &self.flows
    }

    /// The kind index of a stock.
    pub fn stock_kind(&self, stock: usize) -> (result: usize)
        requires
            stock < self.stock_ids().len(),
        ensures
            result == self.stock_kind_seq()[stock as int],
            result < self.kind_seq().len(),
    {
        proof {
            use_type_invariant(self);
        }
        self.stock_kinds[stock]
    }

    /// The declared rationing of a process index.
    pub fn process_rationing(&self, process: usize) -> (result: Rationing)
        requires
            process < self.process_ids().len(),
        ensures
            result == self.rationing_seq()[process as int],
    {
        proof {
            use_type_invariant(self);
        }
        self.rationing[process]
    }

    /// Returns the stable index assigned to a stock.
    pub fn stock_index(&self, stock: &StockId) -> (result: Option<usize>)
        ensures
            match result {
                Some(index) => index < self.stock_ids().len() && self.stock_ids()[index as int]@
                    == stock@,
                None => forall|i: int| 0 <= i < self.stock_ids().len() ==> (#[trigger] self.stock_ids()[i])@
                    != stock@,
            },
    {
        let mut index: usize = 0;
        while index < self.stocks.len()
            invariant
                index <= self.stocks@.len(),
                forall|i: int| 0 <= i < index ==> (#[trigger] self.stocks@[i])@ != stock@,
            decreases self.stocks.len() - index,
        {
            if self.stocks[index].same(stock) {
                return Some(index);
            }
            index += 1;
        }
        None
    }

    /// Returns the stable index assigned to a process.
    pub fn process_index(&self, process: &ProcessId) -> (result: Option<usize>)
        ensures
            match result {
                Some(index) => index < self.process_ids().len() && self.process_ids()[index as int]@
                    == process@,
                None => forall|i: int| 0 <= i < self.process_ids().len() ==> (#[trigger] self.process_ids()[i])@
                    != process@,
            },
    {
        let mut index: usize = 0;
        while index < self.processes.len()
            invariant
                index <= self.processes@.len(),
                forall|i: int| 0 <= i < index ==> (#[trigger] self.processes@[i])@ != process@,
            decreases self.processes.len() - index,
        {
            if self.processes[index].same(process) {
                return Some(index);
            }
            index += 1;
        }
        None
    }

    /// Returns the stable index assigned to a conserved kind.
    pub fn kind_index(&self, kind: K) -> (result: Option<usize>)
        ensures
            match result {
                Some(index) => index < self.kind_seq().len() && self.kind_seq()[index as int].identity()
                    == kind.identity(),
                None => forall|i: int| 0 <= i < self.kind_seq().len() ==> (#[trigger] self.kind_seq()[i]).identity()
                    != kind.identity(),
            },
    {
        let mut index: usize = 0;
        while index < self.kinds.len()
            invariant
                index <= self.kinds@.len(),
                forall|i: int| 0 <= i < index ==> (#[trigger] self.kinds@[i]).identity() != kind.identity(),
            decreases self.kinds.len() - index,
        {
            if self.kinds[index].same(&kind) {
                return Some(index);
            }
            index += 1;
        }
        None
    }

    /// The declared rationing of a process with a flow in this topology.
    pub fn rationing(&self, process: &ProcessId) -> (result: Option<Rationing>)
        ensures
            match result {
                Some(rationing) => exists|i: int|
                    0 <= i < self.process_ids().len() && (#[trigger] self.process_ids()[i])@ == process@
                        && self.rationing_seq()[i] == rationing,
                None => forall|i: int| 0 <= i < self.process_ids().len() ==> (#[trigger] self.process_ids()[i])@
                    != process@,
            },
    {
        match self.process_index(process) {
            Some(index) => Some(self.process_rationing(index)),
            None => None,
        }
    }

    /// Returns the conserved kind stored by a declared stock.
    pub fn stock_kind_for(&self, stock: &StockId) -> (result: Option<K>)
        ensures
            match result {
                Some(kind) => exists|i: int|
                    0 <= i < self.stock_ids().len() && (#[trigger] self.stock_ids()[i])@ == stock@
                        && kind.identity() == self.kind_seq()[self.stock_kind_seq()[i] as int].identity(),
                None => forall|i: int| 0 <= i < self.stock_ids().len() ==> (#[trigger] self.stock_ids()[i])@
                    != stock@,
            },
    {
        match self.stock_index(stock) {
            Some(index) => {
                let kind = self.stock_kind(index);
                Some(self.kinds[kind].duplicate())
            },
            None => None,
        }
    }
}

/// Whether two topologies have the same layout: the same stocks, stock kinds,
/// kinds, processes, rationing and compiled flows, position by position.
pub open spec fn same_layout<K: Kind>(a: FlowTopology<K>, b: FlowTopology<K>) -> bool {
    &&& a.stock_ids().len() == b.stock_ids().len()
    &&& forall|i: int| 0 <= i < a.stock_ids().len() ==> (#[trigger] a.stock_ids()[i])@ == b.stock_ids()[i]@
    &&& a.stock_kind_seq() == b.stock_kind_seq()
    &&& a.kind_seq().len() == b.kind_seq().len()
    &&& forall|i: int| 0 <= i < a.kind_seq().len() ==> (#[trigger] a.kind_seq()[i]).identity() == b.kind_seq()[i].identity()
    &&& a.process_ids().len() == b.process_ids().len()
    &&& forall|i: int| 0 <= i < a.process_ids().len() ==> (#[trigger] a.process_ids()[i])@ == b.process_ids()[i]@
    &&& a.rationing_seq() == b.rationing_seq()
    &&& a.flow_seq() == b.flow_seq()
}

impl<K: Kind> FlowTopology<K> {
    /// Whether another topology has the same layout as this one.
    pub fn same_layout(&self, other: &Self) -> (result: bool)
        ensures
            result == same_layout(*self, *other),
    {
        if self.stocks.len() != other.stocks.len() || self.stock_kinds.len() != other.stock_kinds.len()
            || self.kinds.len() != other.kinds.len() || self.processes.len() != other.processes.len()
            || self.rationing.len() != other.rationing.len() || self.flows.len() != other.flows.len() {
            return false;
        }
        let mut i: usize = 0;
        while i < self.stocks.len()
            invariant
                self.stocks@.len() == other.stocks@.len(),
                i <= self.stocks@.len(),
                forall|j: int| 0 <= j < i ==> (#[trigger] self.stocks@[j])@ == other.stocks@[j]@,
            decreases self.stocks.len() - i,
        {
            if !self.stocks[i].same(&other.stocks[i]) {
                return false;
            }
            i += 1;
        }
        let mut i: usize = 0;
        while i < self.stock_kinds.len()
            invariant
                self.stock_kinds@.len() == other.stock_kinds@.len(),
                i <= self.stock_kinds@.len(),
                forall|j: int| 0 <= j < i ==> self.stock_kinds@[j] == other.stock_kinds@[j],
            decreases self.stock_kinds.len() - i,
        {
            if self.stock_kinds[i] != other.stock_kinds[i] {
                return false;
            }
            i += 1;
        }
        assert(self.stock_kinds@ =~= other.stock_kinds@);
        let mut i: usize = 0;
        while i < self.kinds.len()
            invariant
                self.kinds@.len() == other.kinds@.len(),
                i <= self.kinds@.len(),
                forall|j: int| 0 <= j < i ==> (#[trigger] self.kinds@[j]).identity() == other.kinds@[j].identity(),
            decreases self.kinds.len() - i,
        {
            if !self.kinds[i].same(&other.kinds[i]) {
                return false;
            }
            i += 1;
        }
        let mut i: usize = 0;
        while i < self.processes.len()
            invariant
                self.processes@.len() == other.processes@.len(),
                i <= self.processes@.len(),
                forall|j: int| 0 <= j < i ==> (#[trigger] self.processes@[j])@ == other.processes@[j]@,
            decreases self.processes.len() - i,
        {
            if !self.processes[i].same(&other.processes[i]) {
                return false;
            }
            i += 1;
        }
        let mut i: usize = 0;
        while i < self.rationing.len()
            invariant
                self.rationing@.len() == other.rationing@.len(),
                i <= self.rationing@.len(),
                forall|j: int| 0 <= j < i ==> self.rationing@[j] == other.rationing@[j],
            decreases self.rationing.len() - i,
        {
            if self.rationing[i] != other.rationing[i] {
                return false;
            }
            i += 1;
        }
        assert(self.rationing@ =~= other.rationing@);
        let mut i: usize = 0;
        while i < self.flows.len()
            invariant
                self.flows@.len() == other.flows@.len(),
                i <= self.flows@.len(),
                forall|j: int| 0 <= j < i ==> self.flows@[j] == other.flows@[j],
            decreases self.flows.len() - i,
        {
            if self.flows[i] != other.flows[i] {
                return false;
            }
            i += 1;
        }
        assert(self.flows@ =~= other.flows@);
        true
    }
}

/// Whether some declared stock has identifier `id`.
pub open spec fn declares_stock<K: Kind>(stocks: Seq<StockDefinition<K>>, id: Seq<char>) -> bool {
    exists|i: int| 0 <= i < stocks.len() && (#[trigger] stocks[i]).id@ == id
}

/// Whether an optional flow endpoint names a declared stock whose difference
/// kind is the flow's kind.
pub open spec fn endpoint_valid<K: Kind>(
    stocks: Seq<StockDefinition<K>>,
    endpoint: Option<StockId>,
    flow_kind: K,
) -> bool {
    match endpoint {
        None => true,
        Some(id) => exists|i: int|
            0 <= i < stocks.len() && (#[trigger] stocks[i]).id@ == id@
                && stocks[i].kind.difference_identity() == flow_kind.identity(),
    }
}

/// The identity of the kind of the declared stock with identifier `id`.
pub open spec fn declared_kind<K: Kind>(stocks: Seq<StockDefinition<K>>, id: Seq<char>) -> Seq<char> {
    stocks[choose|i: int| 0 <= i < stocks.len() && (#[trigger] stocks[i]).id@ == id].kind.identity()
}

/// Whether one flow declaration compiles against the stocks.
pub open spec fn flow_spec_valid<K: Kind>(stocks: Seq<StockDefinition<K>>, flow: FlowSpec<K>) -> bool {
    &&& !(flow.source is None && flow.target is None)
    &&& endpoint_valid(stocks, flow.source, flow.kind)
    &&& endpoint_valid(stocks, flow.target, flow.kind)
    &&& (flow.source is Some && flow.target is Some) ==> {
        &&& flow.source->0@ != flow.target->0@
        &&& declared_kind(stocks, flow.source->0@) == declared_kind(stocks, flow.target->0@)
    }
}

/// Whether some flow belongs to process `id`.
pub open spec fn has_flow_process<K>(flows: Seq<FlowSpec<K>>, id: Seq<char>) -> bool {
    exists|i: int| 0 <= i < flows.len() && (#[trigger] flows[i]).process@ == id
}

/// Whether the process declarations name pairwise distinct processes.
pub open spec fn distinct_declarations(declarations: Seq<ProcessDefinition>) -> bool {
    forall|i: int, j: int| 0 <= i < j < declarations.len() ==> (#[trigger] declarations[i]).id@ != (
    #[trigger] declarations[j]).id@
}

/// The rationing declared for a process, `Refuse` when undeclared.
pub open spec fn declared_rationing(declarations: Seq<ProcessDefinition>, id: Seq<char>) -> Rationing {
    if exists|i: int| 0 <= i < declarations.len() && (#[trigger] declarations[i]).id@ == id {
        declarations[choose|i: int| 0 <= i < declarations.len() && (#[trigger] declarations[i]).id@
            == id].rationing
    } else {
        Rationing::Refuse
    }
}

/// Whether the first `count` stock declarations name pairwise distinct stocks.
pub open spec fn distinct_stock_prefix<K>(stocks: Seq<StockDefinition<K>>, count: int) -> bool {
    forall|i: int, j: int| 0 <= i < j < count ==> (#[trigger] stocks[i]).id@ != (#[trigger] stocks[j]).id@
}

/// Whether all stock declarations name pairwise distinct stocks.
pub open spec fn distinct_stock_definitions<K>(stocks: Seq<StockDefinition<K>>) -> bool {
    distinct_stock_prefix(stocks, stocks.len() as int)
}

/// Whether every process declaration before `count` names a process with a flow.
pub open spec fn declarations_known<K>(
    flows: Seq<FlowSpec<K>>,
    processes: Seq<ProcessDefinition>,
    count: int,
) -> bool {
    forall|p: int| 0 <= p < count ==> has_flow_process(flows, (#[trigger] processes[p]).id@)
}

/// Whether every flow before `count` compiles against the stocks.
pub open spec fn flows_valid_prefix<K: Kind>(
    stocks: Seq<StockDefinition<K>>,
    flows: Seq<FlowSpec<K>>,
    count: int,
) -> bool {
    forall|f: int| 0 <= f < count ==> flow_spec_valid(stocks, #[trigger] flows[f])
}

/// Whether stock, flow and process declarations compile into a topology.
pub open spec fn declarations_valid<K: Kind>(
    stocks: Seq<StockDefinition<K>>,
    flows: Seq<FlowSpec<K>>,
    processes: Seq<ProcessDefinition>,
) -> bool {
    &&& stocks.len() > 0
    &&& distinct_stock_definitions(stocks)
    &&& flows_valid_prefix(stocks, flows, flows.len() as int)
    &&& distinct_declarations(processes)
    &&& declarations_known(flows, processes, processes.len() as int)
}

/// Whether `error` is what compiling one flow declaration reports.
pub open spec fn flow_error<K: Kind>(
    stocks: Seq<StockDefinition<K>>,
    flow: FlowSpec<K>,
    error: StockFlowError<K>,
) -> bool {
    match error {
        StockFlowError::DisconnectedFlow => flow.source is None && flow.target is None,
        StockFlowError::UnknownStock(id) => (flow.source == Some(id) || flow.target == Some(id))
            && !declares_stock(stocks, id@),
        StockFlowError::KindMismatch { stock, stock_kind, flow_kind } => {
            &&& (flow.source == Some(stock) && !endpoint_valid(stocks, flow.source, flow.kind)) || (flow.target == Some(
                stock,
            ) && !endpoint_valid(stocks, flow.target, flow.kind))
            &&& declares_stock(stocks, stock@)
            &&& stock_kind.identity() == declared_kind(stocks, stock@)
            &&& flow_kind.identity() == flow.kind.identity()
        },
        StockFlowError::SameStock(id) => flow.source is Some && flow.target is Some
            && flow.source->0@ == id@ && flow.target->0@ == id@,
        StockFlowError::TransferKinds { source, source_kind, target, target_kind } => {
            &&& flow.source == Some(source)
            &&& flow.target == Some(target)
            &&& declared_kind(stocks, source@) != declared_kind(stocks, target@)
            &&& source_kind.identity() == declared_kind(stocks, source@)
            &&& target_kind.identity() == declared_kind(stocks, target@)
        },
        _ => false,
    }
}

/// Whether `error` is what compiling the declarations reports: the first
/// problem found, checking stocks, then flows, then process declarations,
/// each in declaration order.
pub open spec fn declaration_error<K: Kind>(
    stocks: Seq<StockDefinition<K>>,
    flows: Seq<FlowSpec<K>>,
    processes: Seq<ProcessDefinition>,
    error: StockFlowError<K>,
) -> bool {
    match error {
        StockFlowError::NoStocks => stocks.len() == 0,
        StockFlowError::DuplicateStock(id) => exists|i: int, j: int|
            0 <= i < j < stocks.len() && distinct_stock_prefix(stocks, j) && (#[trigger] stocks[i]).id@
                == (#[trigger] stocks[j]).id@ && stocks[j].id == id,
        StockFlowError::DuplicateProcess(id) => {
            &&& stocks.len() > 0
            &&& distinct_stock_definitions(stocks)
            &&& flows_valid_prefix(stocks, flows, flows.len() as int)
            &&& exists|i: int, j: int|
                0 <= i < j < processes.len() && distinct_declarations(processes.take(j))
                    && declarations_known(flows, processes, j) && (#[trigger] processes[i]).id@ == (
                #[trigger] processes[j]).id@ && processes[j].id == id
        },
        StockFlowError::UnknownProcess(id) => {
            &&& stocks.len() > 0
            &&& distinct_stock_definitions(stocks)
            &&& flows_valid_prefix(stocks, flows, flows.len() as int)
            &&& exists|p: int|
                0 <= p < processes.len() && distinct_declarations(processes.take(p + 1))
                    && declarations_known(flows, processes, p) && (#[trigger] processes[p]).id == id
                    && !has_flow_process(flows, id@)
        },
        _ => {
            &&& stocks.len() > 0
            &&& distinct_stock_definitions(stocks)
            &&& exists|f: int|
                0 <= f < flows.len() && flows_valid_prefix(stocks, flows, f) && flow_error(
                    stocks,
                    #[trigger] flows[f],
                    error,
                )
        },
    }
}

/// Whether a compiled endpoint corresponds to a declared one.
pub open spec fn endpoint_compiled(ids: Seq<StockId>, compiled: Option<usize>, declared: Option<StockId>) -> bool {
    match (compiled, declared) {
        (None, None) => true,
        (Some(index), Some(id)) => index < ids.len() && ids[index as int]@ == id@,
        _ => false,
    }
}

/// Whether a compiled flow corresponds to its declaration.
pub open spec fn flow_compiled<K>(
    ids: Seq<StockId>,
    process_ids: Seq<ProcessId>,
    compiled: CompiledFlow,
    flow: FlowSpec<K>,
) -> bool {
    &&& endpoint_compiled(ids, compiled.source_spec(), flow.source)
    &&& endpoint_compiled(ids, compiled.target_spec(), flow.target)
    &&& process_ids[compiled.process_spec() as int]@ == flow.process@
}

/// Whether compiled stock tables describe the first `count` stock declarations:
/// identifiers in order, and each stock's kind index into distinct kinds.
pub open spec fn stocks_compiled<K: Kind>(
    stocks: Seq<StockDefinition<K>>,
    count: int,
    ids: Seq<StockId>,
    stock_kinds: Seq<usize>,
    kinds: Seq<K>,
) -> bool {
    &&& ids.len() == count
    &&& stock_kinds.len() == count
    &&& distinct_kinds(kinds)
    &&& forall|i: int| 0 <= i < count ==> (#[trigger] ids[i])@ == stocks[i].id@
    &&& forall|i: int| 0 <= i < count ==> #[trigger] stock_kinds[i] < kinds.len()
    &&& forall|i: int| 0 <= i < count ==> {
        let kind = #[trigger] kinds[stock_kinds[i] as int];
        &&& kind.identity() == stocks[i].kind.identity()
        &&& kind.floor_value() == stocks[i].kind.floor_value()
        &&& kind.difference_identity() == stocks[i].kind.difference_identity()
    }
}

/// Whether a topology is the compilation of the given declarations.
pub open spec fn compiles<K: Kind>(
    topology: FlowTopology<K>,
    stocks: Seq<StockDefinition<K>>,
    flows: Seq<FlowSpec<K>>,
    processes: Seq<ProcessDefinition>,
) -> bool {
    &&& topology.well_formed()
    &&& stocks_compiled(
        stocks,
        stocks.len() as int,
        topology.stock_ids(),
        topology.stock_kind_seq(),
        topology.kind_seq(),
    )
    &&& topology.flow_seq().len() == flows.len()
    &&& forall|f: int| 0 <= f < flows.len() ==> flow_compiled(
        topology.stock_ids(),
        topology.process_ids(),
        #[trigger] topology.flow_seq()[f],
        flows[f],
    )
    &&& forall|p: int| 0 <= p < topology.process_ids().len() ==> has_flow_process(flows, (#[trigger] topology.process_ids()[p])@)
    &&& forall|p: int| 0 <= p < topology.process_ids().len() ==> #[trigger] topology.rationing_seq()[p]
        == declared_rationing(processes, topology.process_ids()[p]@)
}

/// Whether the indices number the values in order of first occurrence: each
/// is below `count`, each but zero is preceded by the index one below it, and
/// the last index is used.
pub open spec fn first_occurrence_order(indices: Seq<usize>, count: int) -> bool {
    &&& forall|i: int| 0 <= i < indices.len() ==> #[trigger] indices[i] < count
    &&& forall|i: int|
        0 <= i < indices.len() && #[trigger] indices[i] > 0 ==> exists|j: int| 0 <= j < i && #[trigger] indices[j] + 1 == indices[i]
    &&& count == 0 || exists|i: int| 0 <= i < indices.len() && #[trigger] indices[i] + 1 == count
}

/// Whether some index equals `c`.
pub open spec fn index_used(indices: Seq<usize>, c: int) -> bool {
    exists|i: int| 0 <= i < indices.len() && indices[i] == c
}

/// Numbering the next value keeps the first-occurrence order: a new value
/// takes the next number, an old one its own.
proof fn lemma_order_push(before: Seq<usize>, count: int, k: int, after: int)
    requires
        first_occurrence_order(before, count),
        forall|c: int| 0 <= c < count ==> #[trigger] index_used(before, c),
        0 <= k,
        (k < count && after == count) || (k == count && after == count + 1),
        k <= usize::MAX,
    ensures
        first_occurrence_order(before.push(k as usize), after),
        forall|c: int| 0 <= c < after ==> #[trigger] index_used(before.push(k as usize), c),
{
    let order = before.push(k as usize);
    let n = before.len() as int;
    assert forall|i: int| 0 <= i < n implies #[trigger] order[i] == before[i] by {}
    assert forall|i: int| 0 <= i < order.len() && #[trigger] order[i] > 0 implies exists|j: int|
        0 <= j < i && #[trigger] order[j] + 1 == order[i] by {
        if i < n {
            let j = choose|j: int| 0 <= j < i && #[trigger] before[j] + 1 == before[i];
            assert(order[j] == before[j]);
        } else if k == count {
            let j = choose|j: int| 0 <= j < n && #[trigger] before[j] + 1 == count;
            assert(order[j] == before[j]);
        } else {
            assert(index_used(before, k));
            let e = choose|e: int| 0 <= e < n && before[e] == k;
            assert(before[e] > 0);
            let j = choose|j: int| 0 <= j < e && #[trigger] before[j] + 1 == before[e];
            assert(order[j] == before[j]);
        }
    }
    if k == count {
        assert(order[n] + 1 == after);
    } else if count > 0 {
        let i = choose|i: int| 0 <= i < n && #[trigger] before[i] + 1 == count;
        assert(order[i] == before[i]);
    }
    assert forall|c: int| 0 <= c < after implies #[trigger] index_used(order, c) by {
        if c < count {
            assert(index_used(before, c));
            let i = choose|i: int| 0 <= i < n && before[i] == c;
            assert(order[i] == before[i]);
        } else {
            assert(order[n] == c);
        }
    }
}

/// The process index of each compiled flow.
pub open spec fn flow_processes(flows: Seq<CompiledFlow>) -> Seq<usize> {
    Seq::new(flows.len(), |f: int| flows[f].process_spec())
}

/// The declared kind of a stock is its own kind when identifiers are distinct.
proof fn lemma_declared_kind<K: Kind>(stocks: Seq<StockDefinition<K>>, i: int)
    requires
        0 <= i < stocks.len(),
        distinct_stock_definitions(stocks),
    ensures
        declared_kind(stocks, stocks[i].id@) == stocks[i].kind.identity(),
{
    let id = stocks[i].id@;
    assert(stocks[i].id@ == id);
    let a = choose|a: int| 0 <= a < stocks.len() && (#[trigger] stocks[a]).id@ == id;
    if a < i {
        assert(stocks[a].id@ != stocks[i].id@);
    } else if i < a {
        assert(stocks[i].id@ != stocks[a].id@);
    }
}

/// The position of the first identifier equal to `id`, or the length when none is.
pub(crate) fn position_of_stock(ids: &Vec<StockId>, id: &StockId) -> (result: usize)
    ensures
        result <= ids@.len(),
        result < ids@.len() ==> ids@[result as int]@ == id@,
        forall|i: int| 0 <= i < result ==> (#[trigger] ids@[i])@ != id@,
{
    let mut index: usize = 0;
    while index < ids.len()
        invariant
            index <= ids@.len(),
            forall|i: int| 0 <= i < index ==> (#[trigger] ids@[i])@ != id@,
        decreases ids.len() - index,
    {
        if ids[index].same(id) {
            return index;
        }
        index += 1;
    }
    index
}

/// The position of the first identifier equal to `id`, or the length when none is.
pub(crate) fn position_of_process(ids: &Vec<ProcessId>, id: &ProcessId) -> (result: usize)
    ensures
        result <= ids@.len(),
        result < ids@.len() ==> ids@[result as int]@ == id@,
        forall|i: int| 0 <= i < result ==> (#[trigger] ids@[i])@ != id@,
{
    let mut index: usize = 0;
    while index < ids.len()
        invariant
            index <= ids@.len(),
            forall|i: int| 0 <= i < index ==> (#[trigger] ids@[i])@ != id@,
        decreases ids.len() - index,
    {
        if ids[index].same(id) {
            return index;
        }
        index += 1;
    }
    index
}

/// The position of the first kind with the identity of `kind`, or the length when none has it.
fn position_of_kind<K: Kind>(kinds: &Vec<K>, kind: &K) -> (result: usize)
    ensures
        result <= kinds@.len(),
        result < kinds@.len() ==> kinds@[result as int].identity() == kind.identity(),
        forall|i: int| 0 <= i < result ==> (#[trigger] kinds@[i]).identity() != kind.identity(),
{
    let mut index: usize = 0;
    while index < kinds.len()
        invariant
            index <= kinds@.len(),
            forall|i: int| 0 <= i < index ==> (#[trigger] kinds@[i]).identity() != kind.identity(),
        decreases kinds.len() - index,
    {
        if kinds[index].same(kind) {
            return index;
        }
        index += 1;
    }
    index
}

/// The position of the first of the first `count` declarations naming `id`, or `count`.
pub(crate) fn position_of_declaration(processes: &Vec<ProcessDefinition>, count: usize, id: &ProcessId) -> (result: usize)
    requires
        count <= processes@.len(),
    ensures
        result <= count,
        result < count ==> processes@[result as int].id@ == id@,
        forall|i: int| 0 <= i < result ==> (#[trigger] processes@[i]).id@ != id@,
{
    let mut index: usize = 0;
    while index < count
        invariant
            count <= processes@.len(),
            index <= count,
            forall|i: int| 0 <= i < index ==> (#[trigger] processes@[i]).id@ != id@,
        decreases count - index,
    {
        if processes[index].id.same(id) {
            return index;
        }
        index += 1;
    }
    index
}

/// Compiles stock declarations into identifiers, each stock's kind index, and
/// the distinct kinds in first-declaration order.
pub(crate) fn compile_stocks<K: Kind>(stocks: &Vec<StockDefinition<K>>) -> (result: Result<
    (Vec<StockId>, Vec<usize>, Vec<K>),
    StockFlowError<K>,
>)
    ensures
        match result {
            Ok((ids, stock_kinds, kinds)) => distinct_stock_definitions(stocks@) && stocks_compiled(
                stocks@,
                stocks@.len() as int,
                ids@,
                stock_kinds@,
                kinds@,
            ) && first_occurrence_order(stock_kinds@, kinds@.len() as int),
            Err(StockFlowError::DuplicateStock(id)) => exists|i: int, j: int|
                0 <= i < j < stocks@.len() && distinct_stock_prefix(stocks@, j) && (#[trigger] stocks@[i]).id@
                    == (#[trigger] stocks@[j]).id@ && stocks@[j].id == id,
            Err(_) => false,
        },
{
    let mut ids: Vec<StockId> = Vec::new();
    let mut stock_kinds: Vec<usize> = Vec::new();
    let mut kinds: Vec<K> = Vec::new();
    let mut index: usize = 0;
    while index < stocks.len()
        invariant
            index <= stocks@.len(),
            distinct_stock_prefix(stocks@, index as int),
            stocks_compiled(stocks@, index as int, ids@, stock_kinds@, kinds@),
            first_occurrence_order(stock_kinds@, kinds@.len() as int),
            forall|k: int| 0 <= k < kinds@.len() ==> #[trigger] index_used(stock_kinds@, k),
        decreases stocks.len() - index,
    {
        let stock = &stocks[index];
        let earlier = position_of_stock(&ids, &stock.id);
        if earlier < index {
            proof {
                assert(stocks@[earlier as int].id@ == stocks@[index as int].id@);
            }
            return Err(StockFlowError::DuplicateStock(stock.id.clone()));
        }
        let ghost before_kinds = kinds@;
        let kind_index = position_of_kind(&kinds, &stock.kind);
        if kind_index == kinds.len() {
            kinds.push(stock.kind.duplicate());
            proof {
                assert forall|i: int, j: int| 0 <= i < j < kinds@.len() implies (#[trigger] kinds@[i]).identity()
                    != (#[trigger] kinds@[j]).identity() by {
                    assert(kinds@[i] == before_kinds[i]);
                    if j < before_kinds.len() {
                        assert(kinds@[j] == before_kinds[j]);
                    }
                }
            }
        }
        proof {
            K::lemma_identity_determines(kinds@[kind_index as int], stock.kind);
        }
        let ghost before_ids = ids@;
        let ghost before_stock_kinds = stock_kinds@;
        ids.push(stock.id.clone());
        stock_kinds.push(kind_index);
        proof {
            assert forall|i: int, j: int| 0 <= i < j < index + 1 implies (#[trigger] stocks@[i]).id@
                != (#[trigger] stocks@[j]).id@ by {
                if j == index {
                    assert(ids@[i] == before_ids[i]);
                }
            }
            assert forall|i: int| 0 <= i < index + 1 implies (#[trigger] ids@[i])@ == stocks@[i].id@ by {
                if i < index {
                    assert(ids@[i] == before_ids[i]);
                }
            }
            assert forall|i: int| 0 <= i < index + 1 implies #[trigger] stock_kinds@[i] < kinds@.len() by {
                if i < index {
                    assert(stock_kinds@[i] == before_stock_kinds[i]);
                }
            }
            assert(stock_kinds@ =~= before_stock_kinds.push(kind_index));
            lemma_order_push(before_stock_kinds, before_kinds.len() as int, kind_index as int, kinds@.len() as int);
        }
        index += 1;
    }
    Ok((ids, stock_kinds, kinds))
}

/// Resolves an optional flow endpoint against compiled stocks.
fn resolve_stock<K: Kind>(
    endpoint: &Option<StockId>,
    flow_kind: &K,
    stocks: &Vec<StockDefinition<K>>,
    ids: &Vec<StockId>,
    stock_kinds: &Vec<usize>,
    kinds: &Vec<K>,
) -> (result: Result<Option<usize>, StockFlowError<K>>)
    requires
        distinct_stock_definitions(stocks@),
        stocks_compiled(stocks@, stocks@.len() as int, ids@, stock_kinds@, kinds@),
    ensures
        match result {
            Ok(None) => endpoint is None,
            Ok(Some(index)) => endpoint is Some && index < stocks@.len() && stocks@[index as int].id@
                == endpoint->0@ && endpoint_valid(stocks@, *endpoint, *flow_kind),
            Err(StockFlowError::UnknownStock(id)) => *endpoint == Some(id) && !declares_stock(stocks@, id@),
            Err(StockFlowError::KindMismatch { stock, stock_kind, flow_kind: kind }) => *endpoint == Some(stock)
                && !endpoint_valid(stocks@, *endpoint, *flow_kind) && declares_stock(stocks@, stock@)
                && stock_kind.identity() == declared_kind(stocks@, stock@) && kind.identity() == flow_kind.identity(),
            Err(_) => false,
        },
{
    match endpoint {
        None => Ok(None),
        Some(id) => {
            let index = position_of_stock(ids, id);
            if index == ids.len() {
                proof {
                    assert forall|i: int| 0 <= i < stocks@.len() implies (#[trigger] stocks@[i]).id@ != id@ by {
                        assert(ids@[i]@ == stocks@[i].id@);
                    }
                }
                return Err(StockFlowError::UnknownStock(id.clone()));
            }
            proof {
                assert(ids@[index as int]@ == stocks@[index as int].id@);
            }
            let kind = stock_kinds[index];
            let difference = kinds[kind].difference();
            if !difference.same(flow_kind) {
                proof {
                    assert(kinds@[stock_kinds@[index as int] as int].difference_identity()
                        == stocks@[index as int].kind.difference_identity());
                    assert(kinds@[stock_kinds@[index as int] as int].identity() == stocks@[index as int].kind.identity());
                    lemma_declared_kind(stocks@, index as int);
                    assert forall|i: int| 0 <= i < stocks@.len() && (#[trigger] stocks@[i]).id@ == id@
                        implies stocks@[i].kind.difference_identity() != flow_kind.identity() by {
                        if i < index {
                            assert(stocks@[i].id@ != stocks@[index as int].id@);
                        } else if index < i {
                            assert(stocks@[index as int].id@ != stocks@[i].id@);
                        }
                    }
                }
                return Err(StockFlowError::KindMismatch {
                    stock: id.clone(),
                    stock_kind: kinds[kind].duplicate(),
                    flow_kind: flow_kind.duplicate(),
                });
            }
            proof {
                assert(kinds@[stock_kinds@[index as int] as int].difference_identity()
                    == stocks@[index as int].kind.difference_identity());
            }
            Ok(Some(index))
        },
    }
}

/// Compiles one flow's endpoints: source and target stock indices, the
/// boundary role, and the index of the kind of the balance it enters.
pub(crate) fn compile_endpoints<K: Kind>(
    flow: &FlowSpec<K>,
    stocks: &Vec<StockDefinition<K>>,
    ids: &Vec<StockId>,
    stock_kinds: &Vec<usize>,
    kinds: &Vec<K>,
) -> (result: Result<(Option<usize>, Option<usize>, FlowRole, usize), StockFlowError<K>>)
    requires
        distinct_stock_definitions(stocks@),
        stocks_compiled(stocks@, stocks@.len() as int, ids@, stock_kinds@, kinds@),
    ensures
        result is Ok <==> flow_spec_valid(stocks@, *flow),
        match result {
            Ok((source, target, role, kind)) => {
                &&& endpoint_compiled(ids@, source, flow.source)
                &&& endpoint_compiled(ids@, target, flow.target)
                &&& role == role_of(source, target)
                &&& kind < kinds@.len()
                &&& !(source is None && target is None)
                &&& source matches Some(s) ==> s < stock_kinds@.len() && stock_kinds@[s as int] == kind
                &&& target matches Some(t) ==> t < stock_kinds@.len() && stock_kinds@[t as int] == kind
                &&& (source is Some && target is Some) ==> source->0 != target->0
            },
            Err(error) => flow_error(stocks@, *flow, error),
        },
{
    if flow.source.is_none() && flow.target.is_none() {
        return Err(StockFlowError::DisconnectedFlow);
    }
    let source = match resolve_stock(&flow.source, &flow.kind, stocks, ids, stock_kinds, kinds) {
        Ok(index) => index,
        Err(error) => {
            return Err(error);
        },
    };
    let target = match resolve_stock(&flow.target, &flow.kind, stocks, ids, stock_kinds, kinds) {
        Ok(index) => index,
        Err(error) => {
            return Err(error);
        },
    };
    match (source, target) {
        (Some(s), Some(t)) => {
            proof {
                lemma_declared_kind(stocks@, s as int);
                lemma_declared_kind(stocks@, t as int);
                assert(ids@[s as int]@ == stocks@[s as int].id@);
                assert(kinds@[stock_kinds@[s as int] as int].identity() == stocks@[s as int].kind.identity());
                assert(kinds@[stock_kinds@[t as int] as int].identity() == stocks@[t as int].kind.identity());
            }
            if s == t {
                return Err(StockFlowError::SameStock(ids[s].clone()));
            }
            if stock_kinds[s] != stock_kinds[t] {
                proof {
                    if stock_kinds@[s as int] < stock_kinds@[t as int] {
                        assert(kinds@[stock_kinds@[s as int] as int].identity() != kinds@[stock_kinds@[t as int] as int].identity());
                    } else {
                        assert(kinds@[stock_kinds@[t as int] as int].identity() != kinds@[stock_kinds@[s as int] as int].identity());
                    }
                }
                let source_id = match &flow.source {
                    Some(id) => id.clone(),
                    None => ids[s].clone(),
                };
                let target_id = match &flow.target {
                    Some(id) => id.clone(),
                    None => ids[t].clone(),
                };
                return Err(StockFlowError::TransferKinds {
                    source: source_id,
                    source_kind: kinds[stock_kinds[s]].duplicate(),
                    target: target_id,
                    target_kind: kinds[stock_kinds[t]].duplicate(),
                });
            }
            proof {
                if s < t {
                    assert(stocks@[s as int].id@ != stocks@[t as int].id@);
                } else {
                    assert(stocks@[t as int].id@ != stocks@[s as int].id@);
                }
            }
            Ok((source, target, FlowRole::Transfer, stock_kinds[s]))
        },
        (None, Some(t)) => {
            proof {
                assert(ids@[t as int]@ == stocks@[t as int].id@);
            }
            Ok((source, target, FlowRole::Input, stock_kinds[t]))
        },
        (Some(s), None) => {
            proof {
                assert(ids@[s as int]@ == stocks@[s as int].id@);
            }
            Ok((source, target, FlowRole::Output, stock_kinds[s]))
        },
        (None, None) => Err(StockFlowError::DisconnectedFlow),
    }
}

/// The rationing declared by a prefix of declarations after one more is added.
proof fn lemma_declared_rationing_push(declarations: Seq<ProcessDefinition>, count: int, id: Seq<char>)
    requires
        0 <= count < declarations.len(),
        distinct_declarations(declarations.take(count + 1)),
    ensures
        declared_rationing(declarations.take(count + 1), id) == if declarations[count].id@ == id {
            declarations[count].rationing
        } else {
            declared_rationing(declarations.take(count), id)
        },
{
    let longer = declarations.take(count + 1);
    let shorter = declarations.take(count);
    if declarations[count].id@ == id {
        assert(longer[count].id@ == id);
        let i = choose|i: int| 0 <= i < longer.len() && (#[trigger] longer[i]).id@ == id;
        if i != count {
            assert(longer[i].id@ != longer[count].id@);
        }
    } else {
        if exists|i: int| 0 <= i < shorter.len() && (#[trigger] shorter[i]).id@ == id {
            let i = choose|i: int| 0 <= i < shorter.len() && (#[trigger] shorter[i]).id@ == id;
            assert(longer[i].id@ == id);
            let k = choose|k: int| 0 <= k < longer.len() && (#[trigger] longer[k]).id@ == id;
            if k != i {
                if k < i {
                    assert(longer[k].id@ != longer[i].id@);
                } else {
                    assert(longer[i].id@ != longer[k].id@);
                }
            }
        } else {
            assert forall|i: int| 0 <= i < longer.len() implies (#[trigger] longer[i]).id@ != id by {
                if i < count {
                    assert(shorter[i] == longer[i]);
                }
            }
        }
    }
}


/// Whether some process identifier equals `id`.
pub open spec fn has_process(ids: Seq<ProcessId>, id: Seq<char>) -> bool {
    exists|p: int| 0 <= p < ids.len() && (#[trigger] ids[p])@ == id
}

impl<K: Kind> FlowTopology<K> {
    /// Compiles stock, flow and process declarations into a stable index layout.
    ///
    /// A process with a flow but no declaration is [`Rationing::Refuse`].
    pub fn new(
        stocks: Vec<StockDefinition<K>>,
        flows: Vec<FlowSpec<K>>,
        processes: Vec<ProcessDefinition>,
    ) -> (result: Result<Self, StockFlowError<K>>)
        ensures
            result is Ok <==> declarations_valid(stocks@, flows@, processes@),
            match result {
                Ok(topology) => {
                    &&& compiles(topology, stocks@, flows@, processes@)
                    &&& first_occurrence_order(topology.stock_kind_seq(), topology.kind_seq().len() as int)
                    &&& first_occurrence_order(flow_processes(topology.flow_seq()), topology.process_ids().len() as int)
                },
                Err(error) => declaration_error(stocks@, flows@, processes@, error),
            },
    {
        if stocks.len() == 0 {
            return Err(StockFlowError::NoStocks);
        }
        let (ids, stock_kinds, kinds) = match compile_stocks(&stocks) {
            Ok(tables) => tables,
            Err(error) => {
                return Err(error);
            },
        };
        proof {
            assert(stocks@.len() > 0);
        }
        Self::compile_flows(&stocks, ids, stock_kinds, kinds, &flows, &processes)
    }

    /// Compiles flow and process declarations against compiled stock tables.
    pub(crate) fn compile_flows(
        stocks: &Vec<StockDefinition<K>>,
        ids: Vec<StockId>,
        stock_kinds: Vec<usize>,
        kinds: Vec<K>,
        flows: &Vec<FlowSpec<K>>,
        processes: &Vec<ProcessDefinition>,
    ) -> (result: Result<Self, StockFlowError<K>>)
        requires
            stocks@.len() > 0,
            distinct_stock_definitions(stocks@),
            stocks_compiled(stocks@, stocks@.len() as int, ids@, stock_kinds@, kinds@),
        ensures
            result is Ok <==> (flows_valid_prefix(stocks@, flows@, flows@.len() as int) && distinct_declarations(
                processes@,
            ) && declarations_known(flows@, processes@, processes@.len() as int)),
            match result {
                Ok(topology) => {
                    &&& compiles(topology, stocks@, flows@, processes@)
                    &&& topology.stock_ids() == ids@
                    &&& topology.stock_kind_seq() == stock_kinds@
                    &&& topology.kind_seq() == kinds@
                    &&& first_occurrence_order(flow_processes(topology.flow_seq()), topology.process_ids().len() as int)
                },
                Err(error) => declaration_error(stocks@, flows@, processes@, error),
            },
    {
        let mut process_ids: Vec<ProcessId> = Vec::new();
        let mut compiled: Vec<CompiledFlow> = Vec::new();
        let mut f: usize = 0;
        while f < flows.len()
            invariant
                stocks@.len() > 0,
                distinct_stock_definitions(stocks@),
                stocks_compiled(stocks@, stocks@.len() as int, ids@, stock_kinds@, kinds@),
                f <= flows@.len(),
                compiled@.len() == f,
                flows_valid_prefix(stocks@, flows@, f as int),
                forall|j: int| 0 <= j < f ==> flow_well_formed(
                    #[trigger] compiled@[j],
                    stock_kinds@,
                    kinds@.len() as int,
                    process_ids@.len() as int,
                ),
                forall|j: int| 0 <= j < f ==> flow_compiled(ids@, process_ids@, #[trigger] compiled@[j], flows@[j]),
                distinct_processes(process_ids@),
                forall|p: int| 0 <= p < process_ids@.len() ==> has_flow_process(flows@, (#[trigger] process_ids@[p])@),
                first_occurrence_order(flow_processes(compiled@), process_ids@.len() as int),
                forall|c: int| 0 <= c < process_ids@.len() ==> #[trigger] index_used(flow_processes(compiled@), c),
            decreases flows.len() - f,
        {
            let flow = &flows[f];
            let (source, target, role, kind) = match compile_endpoints(flow, stocks, &ids, &stock_kinds, &kinds) {
                Ok(endpoints) => endpoints,
                Err(error) => {
                    proof {
                        assert(flow_error(stocks@, flows@[f as int], error));
                    }
                    return Err(error);
                },
            };
            let ghost before_processes = process_ids@;
            let process = position_of_process(&process_ids, &flow.process);
            if process == process_ids.len() {
                process_ids.push(flow.process.clone());
                proof {
                    assert forall|i: int, j: int| 0 <= i < j < process_ids@.len() implies (#[trigger] process_ids@[i])@
                        != (#[trigger] process_ids@[j])@ by {
                        assert(process_ids@[i] == before_processes[i]);
                        if j < before_processes.len() {
                            assert(process_ids@[j] == before_processes[j]);
                        }
                    }
                    assert forall|p: int| 0 <= p < process_ids@.len() implies has_flow_process(flows@, (#[trigger] process_ids@[p])@) by {
                        if p < before_processes.len() {
                            assert(process_ids@[p] == before_processes[p]);
                        } else {
                            assert(flows@[f as int].process@ == process_ids@[p]@);
                        }
                    }
                }
            }
            let ghost before_compiled = compiled@;
            compiled.push(CompiledFlow { process, kind, source, target, role });
            proof {
                assert forall|j: int| 0 <= j < f + 1 implies flow_well_formed(
                    #[trigger] compiled@[j],
                    stock_kinds@,
                    kinds@.len() as int,
                    process_ids@.len() as int,
                ) by {
                    if j < f {
                        assert(compiled@[j] == before_compiled[j]);
                    }
                }
                assert forall|j: int| 0 <= j < f + 1 implies flow_compiled(ids@, process_ids@, #[trigger] compiled@[j], flows@[j]) by {
                    if j < f {
                        assert(compiled@[j] == before_compiled[j]);
                        let index = before_compiled[j].process_spec() as int;
                        assert(process_ids@[index] == before_processes[index]);
                    }
                }
                assert(flow_processes(compiled@) =~= flow_processes(before_compiled).push(process));
                lemma_order_push(flow_processes(before_compiled), before_processes.len() as int, process as int, process_ids@.len() as int);
            }
            f += 1;
        }
        proof {
            assert forall|j: int| 0 <= j < flows@.len() implies has_process(process_ids@, (#[trigger] flows@[j]).process@) by {
                let index = compiled@[j].process_spec() as int;
                assert(flow_compiled(ids@, process_ids@, compiled@[j], flows@[j]));
                assert(process_ids@[index]@ == flows@[j].process@);
            }
        }
        let mut rationing: Vec<Rationing> = Vec::new();
        while rationing.len() < process_ids.len()
            invariant
                rationing@.len() <= process_ids@.len(),
                forall|p: int| 0 <= p < rationing@.len() ==> #[trigger] rationing@[p] == Rationing::Refuse,
            decreases process_ids.len() - rationing.len(),
        {
            rationing.push(Rationing::Refuse);
        }
        proof {
            assert forall|p: int| 0 <= p < process_ids@.len() implies #[trigger] rationing@[p] == declared_rationing(
                processes@.take(0),
                process_ids@[p]@,
            ) by {
                assert(!exists|i: int| 0 <= i < processes@.take(0).len() && (#[trigger] processes@.take(0)[i]).id@ == process_ids@[p]@);
            }
        }
        let mut d: usize = 0;
        while d < processes.len()
            invariant
                stocks@.len() > 0,
                distinct_stock_definitions(stocks@),
                flows_valid_prefix(stocks@, flows@, flows@.len() as int),
                d <= processes@.len(),
                rationing@.len() == process_ids@.len(),
                distinct_processes(process_ids@),
                distinct_declarations(processes@.take(d as int)),
                declarations_known(flows@, processes@, d as int),
                forall|p: int| 0 <= p < process_ids@.len() ==> has_flow_process(flows@, (#[trigger] process_ids@[p])@),
                forall|p: int| 0 <= p < process_ids@.len() ==> #[trigger] rationing@[p] == declared_rationing(
                    processes@.take(d as int),
                    process_ids@[p]@,
                ),
                forall|j: int| 0 <= j < flows@.len() ==> has_process(process_ids@, (#[trigger] flows@[j]).process@),
            decreases processes.len() - d,
        {
            let declaration = &processes[d];
            let earlier = position_of_declaration(processes, d, &declaration.id);
            if earlier < d {
                proof {
                    assert(processes@[earlier as int].id@ == processes@[d as int].id@);
                }
                return Err(StockFlowError::DuplicateProcess(declaration.id.clone()));
            }
            proof {
                assert(processes@.take(d + 1).take(d as int) =~= processes@.take(d as int));
                assert forall|i: int, j: int| 0 <= i < j < processes@.take(d + 1).len() implies (#[trigger] processes@.take(
                    d + 1,
                )[i]).id@ != (#[trigger] processes@.take(d + 1)[j]).id@ by {
                    if j < d {
                        assert(processes@.take(d as int)[i] == processes@[i]);
                        assert(processes@.take(d as int)[j] == processes@[j]);
                    }
                }
            }
            let process = position_of_process(&process_ids, &declaration.id);
            if process == process_ids.len() {
                proof {
                    assert forall|j: int| 0 <= j < flows@.len() implies (#[trigger] flows@[j]).process@ != declaration.id@ by {
                        assert(has_process(process_ids@, flows@[j].process@));
                        let p = choose|p: int| 0 <= p < process_ids@.len() && (#[trigger] process_ids@[p])@ == flows@[j].process@;
                    }
                }
                return Err(StockFlowError::UnknownProcess(declaration.id.clone()));
            }
            let ghost before = rationing@;
            rationing.set(process, declaration.rationing);
            proof {
                assert forall|p: int| 0 <= p < process_ids@.len() implies #[trigger] rationing@[p] == declared_rationing(
                    processes@.take(d + 1),
                    process_ids@[p]@,
                ) by {
                    lemma_declared_rationing_push(processes@, d as int, process_ids@[p]@);
                    if p != process {
                        assert(before[p] == rationing@[p]);
                        if p < process {
                            assert(process_ids@[p]@ != process_ids@[process as int]@);
                        } else {
                            assert(process_ids@[process as int]@ != process_ids@[p]@);
                        }
                    }
                }
                assert(has_flow_process(flows@, process_ids@[process as int]@));
                assert forall|q: int| 0 <= q < d + 1 implies has_flow_process(flows@, (#[trigger] processes@[q]).id@) by {
                }
            }
            d += 1;
        }
        proof {
            assert(processes@.take(processes@.len() as int) =~= processes@);
            assert forall|i: int, j: int| 0 <= i < j < ids@.len() implies (#[trigger] ids@[i])@ != (#[trigger] ids@[j])@ by {
                assert(ids@[i]@ == stocks@[i].id@);
                assert(ids@[j]@ == stocks@[j].id@);
            }
        }
        let topology = FlowTopology { stocks: ids, stock_kinds, kinds, processes: process_ids, rationing, flows: compiled };
        Ok(topology)
    }
}

} // verus!
