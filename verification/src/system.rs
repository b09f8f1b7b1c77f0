//! Identifier-rich settlement records and the dynamic exact-flow system.
use crate::dynamics::{
    StockFlowError, declared_rationing, distinct_declarations, distinct_kinds, endpoint_compiled, flow_error,
    flow_spec_valid, flow_well_formed, has_flow_process, FlowRole, FlowSpec, FlowTopology, Rationing,
    ProcessDefinition, StockDefinition,
};
use crate::dynamics::{
    compile_endpoints, role_of, compile_stocks, distinct_stock_definitions, distinct_stock_prefix,
    position_of_declaration, position_of_stock, stocks_compiled,
};
use crate::exact::{
    applied_amounts, batch_accepted, batch_error, batch_inputs, batch_outputs, flow_process, in_kind,
    lemma_settles_alike, reals, settled_amounts, settles_alike, total_of, within_floors, ExactState,
};
use std::sync::Arc;
use crate::ident::{KindId, ProcessId, StockId};
use crate::kind::Kind;
use crate::rational::Rational;
use vstd::prelude::*;

verus! {

/// An exact flow after simultaneous resource limitation.
#[derive(Clone, Debug, PartialEq, Eq)]
pub struct AppliedFlow<K> {
    /// Process responsible for the flow.
    pub process: ProcessId,
    /// Kind of the amount moved.
    pub kind: K,
    /// Source stock, absent for an input.
    pub source: Option<StockId>,
    /// Target stock, absent for an output.
    pub target: Option<StockId>,
    /// Requested amount before limitation.
    pub requested: Rational,
    /// Amount actually settled.
    pub applied: Rational,
    /// Boundary role of the flow.
    pub role: FlowRole,
}

/// Result of one atomic settlement batch.
#[derive(Clone, Debug, PartialEq, Eq)]
pub struct SettlementReport<K> {
    applied: Vec<AppliedFlow<K>>,
}

/// The sum of the applied amounts of the first `count` flows of process `process`.
pub open spec fn applied_sum<K>(flows: Seq<AppliedFlow<K>>, process: Seq<char>, count: int) -> real
    decreases count,
{
    if count <= 0 {
        0real
    } else {
        applied_sum(flows, process, count - 1) + if flows[count - 1].process@ == process {
            flows[count - 1].applied@
        } else {
            0real
        }
    }
}

impl<K> SettlementReport<K> {
    /// The settled flows in order.
    pub closed spec fn flow_seq(&self) -> Seq<AppliedFlow<K>> {
        self.applied@
    }

    /// A report of the given settled flows.
    pub(crate) fn from_flows(applied: Vec<AppliedFlow<K>>) -> (result: Self)
        ensures
            result.flow_seq() == applied@,
    {
        SettlementReport { applied }
    }

    /// Returns settled flows in proposal order.
    pub fn flows(&self) -> (result: &[AppliedFlow<K>])
        ensures
            result@ == self.flow_seq(),
    {
        self.applied.as_slice()
    }

    /// Sums the applied amount attributed to a process.
    pub fn applied_by(&self, process: &ProcessId) -> (result: Rational)
        ensures
            result@ == applied_sum(self.flow_seq(), process@, self.flow_seq().len() as int),
    {
        let mut total = Rational::zero();
        let mut i: usize = 0;
        while i < self.applied.len()
            invariant
                i <= self.applied@.len(),
                total@ == applied_sum(self.applied@, process@, i as int),
            decreases self.applied.len() - i,
        {
            if self.applied[i].process.same(process) {
                total = total.add(&self.applied[i].applied);
            }
            i += 1;
        }
        total
    }
}


/// Declares one stock, its conserved kind, and its exact initial amount.
#[derive(Clone, Debug, PartialEq, Eq)]
pub struct StockSpec<K> {
    /// Stable identifier used by flows and queries.
    pub id: StockId,
    /// Quantity kind stored here.
    pub kind: K,
    /// Exact initial amount.
    pub initial: Rational,
}

/// A flow request before resource limitation.
#[derive(Clone, Debug, PartialEq, Eq)]
pub struct ProposedFlow<K> {
    /// Process responsible for the request.
    pub process: ProcessId,
    /// Kind of the amount moved: the endpoint stocks' difference kind.
    pub kind: K,
    /// Source stock, or `None` for a boundary input.
    pub source: Option<StockId>,
    /// Target stock, or `None` for a boundary output.
    pub target: Option<StockId>,
    /// Nonnegative exact requested amount.
    pub amount: Rational,
}

/// The flow declaration a proposal makes.
pub open spec fn proposal_flow<K>(proposal: ProposedFlow<K>) -> FlowSpec<K> {
    FlowSpec { process: proposal.process, kind: proposal.kind, source: proposal.source, target: proposal.target }
}

/// The requested amounts of a batch of proposals.
pub open spec fn proposal_amounts<K>(proposals: Seq<ProposedFlow<K>>) -> Seq<real> {
    proposals.map_values(|proposal: ProposedFlow<K>| proposal.amount@)
}

/// Whether a proposal requests a nonnegative amount along a flow that
/// compiles against the stocks.
pub open spec fn proposal_valid<K: Kind>(stocks: Seq<StockDefinition<K>>, proposal: ProposedFlow<K>) -> bool {
    proposal.amount@ >= 0real && flow_spec_valid(stocks, proposal_flow(proposal))
}

/// Whether every proposal is valid.
pub open spec fn proposals_valid<K: Kind>(stocks: Seq<StockDefinition<K>>, proposals: Seq<ProposedFlow<K>>) -> bool {
    forall|i: int| 0 <= i < proposals.len() ==> proposal_valid(stocks, #[trigger] proposals[i])
}

/// Whether `error` reports the first invalid proposal: a negative amount, or
/// the reason its flow does not compile.
pub open spec fn proposal_error<K: Kind>(
    stocks: Seq<StockDefinition<K>>,
    proposals: Seq<ProposedFlow<K>>,
    error: StockFlowError<K>,
) -> bool {
    exists|i: int|
        0 <= i < proposals.len() && (forall|j: int| 0 <= j < i ==> proposal_valid(stocks, #[trigger] proposals[j]))
            && if (#[trigger] proposals[i]).amount@ < 0real {
            error == StockFlowError::<K>::NegativeAmount
        } else {
            flow_error(stocks, proposal_flow(proposals[i]), error)
        }
}

/// The boundary role of a proposal.
pub open spec fn proposal_role<K>(proposal: ProposedFlow<K>) -> FlowRole {
    match (proposal.source, proposal.target) {
        (None, _) => FlowRole::Input,
        (Some(_), None) => FlowRole::Output,
        (Some(_), Some(_)) => FlowRole::Transfer,
    }
}

/// Whether a topology compiles a batch of proposals over the given stock
/// tables: stocks, their kind indices and floors, each proposal's endpoints and
/// process, and the rationing declared for that process.
pub open spec fn batch_layout<K: Kind, P>(
    topology: FlowTopology<K>,
    ids: Seq<StockId>,
    stock_kinds: Seq<usize>,
    kinds: Seq<K>,
    proposals: Seq<ProposedFlow<P>>,
) -> bool {
    &&& topology.well_formed()
    &&& topology.stock_ids().len() == ids.len()
    &&& forall|s: int| 0 <= s < ids.len() ==> (#[trigger] topology.stock_ids()[s])@ == ids[s]@
    &&& topology.stock_kind_seq() == stock_kinds
    &&& topology.kind_seq().len() == kinds.len()
    &&& forall|k: int| 0 <= k < kinds.len() ==> (#[trigger] topology.kind_seq()[k]).floor_value() == kinds[k].floor_value()
    &&& topology.flow_seq().len() == proposals.len()
    &&& forall|f: int| 0 <= f < proposals.len() ==> {
        let flow = #[trigger] topology.flow_seq()[f];
        &&& endpoint_compiled(topology.stock_ids(), flow.source_spec(), proposals[f].source)
        &&& endpoint_compiled(topology.stock_ids(), flow.target_spec(), proposals[f].target)
        &&& flow_process(topology, f) == proposals[f].process@
        &&& topology.rationing_seq()[flow.process_spec() as int] == Rationing::Ration
    }
}

/// Whether the identifiers are pairwise distinct.
pub open spec fn distinct_ids(ids: Seq<StockId>) -> bool {
    forall|i: int, j: int| 0 <= i < j < ids.len() ==> (#[trigger] ids[i])@ != (#[trigger] ids[j])@
}

/// An endpoint compiled against distinct identifiers is determined by the identifier.
proof fn lemma_endpoint_unique(ids: Seq<StockId>, a: Option<usize>, b: Option<usize>, named: Option<StockId>)
    requires
        distinct_ids(ids),
        endpoint_compiled(ids, a, named),
        endpoint_compiled(ids, b, named),
    ensures
        a == b,
{
    if let (Some(x), Some(y)) = (a, b) {
        if x < y {
            assert(ids[x as int]@ != ids[y as int]@);
        } else if y < x {
            assert(ids[y as int]@ != ids[x as int]@);
        }
    }
}

/// Two layouts of the same batch over the same distinct stocks settle alike.
pub proof fn lemma_layouts_alike<K: Kind>(
    a: FlowTopology<K>,
    b: FlowTopology<K>,
    ids: Seq<StockId>,
    stock_kinds: Seq<usize>,
    kinds: Seq<K>,
    proposals: Seq<ProposedFlow<K>>,
)
    requires
        distinct_ids(ids),
        batch_layout(a, ids, stock_kinds, kinds, proposals),
        batch_layout(b, ids, stock_kinds, kinds, proposals),
    ensures
        settles_alike(a, b),
{
    assert(distinct_ids(a.stock_ids())) by {
        assert forall|i: int, j: int| 0 <= i < j < a.stock_ids().len() implies (#[trigger] a.stock_ids()[i])@
            != (#[trigger] a.stock_ids()[j])@ by {
            assert(ids[i]@ != ids[j]@);
        }
    }
    assert forall|s: int| 0 <= s < a.stock_ids().len() implies #[trigger] a.stock_floor(s) == b.stock_floor(s) by {
        assert(a.stock_kind_seq()[s] < a.kind_seq().len());
        assert(a.kind_seq()[stock_kinds[s] as int].floor_value() == kinds[stock_kinds[s] as int].floor_value());
        assert(b.kind_seq()[stock_kinds[s] as int].floor_value() == kinds[stock_kinds[s] as int].floor_value());
    }
    assert forall|s: int| 0 <= s < a.stock_ids().len() implies (#[trigger] a.stock_ids()[s])@ == b.stock_ids()[s]@ by {
        assert(a.stock_ids()[s]@ == ids[s]@);
    }
    assert forall|f: int| 0 <= f < a.flow_seq().len() implies {
        let x = #[trigger] a.flow_seq()[f];
        let y = b.flow_seq()[f];
        &&& x.source_spec() == y.source_spec()
        &&& x.target_spec() == y.target_spec()
        &&& x.kind_spec() == y.kind_spec()
        &&& x.role_spec() == y.role_spec()
        &&& a.rationing_seq()[x.process_spec() as int] == b.rationing_seq()[y.process_spec() as int]
    } by {
        let x = a.flow_seq()[f];
        let y = b.flow_seq()[f];
        assert(flow_well_formed(x, a.stock_kind_seq(), a.kind_seq().len() as int, a.process_ids().len() as int));
        assert(flow_well_formed(y, b.stock_kind_seq(), b.kind_seq().len() as int, b.process_ids().len() as int));
        assert(endpoint_compiled(b.stock_ids(), y.source_spec(), proposals[f].source));
        assert(endpoint_compiled(b.stock_ids(), y.target_spec(), proposals[f].target));
        assert(endpoint_compiled(a.stock_ids(), y.source_spec(), proposals[f].source)) by {
            if let Some(index) = y.source_spec() {
                assert(b.stock_ids()[index as int]@ == ids[index as int]@);
            }
        }
        assert(endpoint_compiled(a.stock_ids(), y.target_spec(), proposals[f].target)) by {
            if let Some(index) = y.target_spec() {
                assert(b.stock_ids()[index as int]@ == ids[index as int]@);
            }
        }
        lemma_endpoint_unique(a.stock_ids(), x.source_spec(), y.source_spec(), proposals[f].source);
        lemma_endpoint_unique(a.stock_ids(), x.target_spec(), y.target_spec(), proposals[f].target);
    }
    assert forall|f: int| 0 <= f < a.flow_seq().len() implies #[trigger] flow_process(a, f) == flow_process(b, f) by {
        assert(flow_process(a, f) == proposals[f].process@);
        assert(flow_process(b, f) == proposals[f].process@);
    }
}

/// A copy of an optional stock identifier.
fn copy_endpoint(endpoint: &Option<StockId>) -> (result: Option<StockId>)
    ensures
        result == *endpoint,
{
    match endpoint {
        Some(id) => Some(id.clone()),
        None => None,
    }
}

/// Copies of compiled stock tables.
fn copy_tables<K: Kind>(ids: &Vec<StockId>, stock_kinds: &Vec<usize>, kinds: &Vec<K>) -> (result: (
    Vec<StockId>,
    Vec<usize>,
    Vec<K>,
))
    ensures
        result.0@ == ids@,
        result.1@ == stock_kinds@,
        result.2@.len() == kinds@.len(),
        forall|k: int| 0 <= k < kinds@.len() ==> {
            let copy = #[trigger] result.2@[k];
            &&& copy.identity() == kinds@[k].identity()
            &&& copy.floor_value() == kinds@[k].floor_value()
            &&& copy.difference_identity() == kinds@[k].difference_identity()
        },
{
    let mut id_copies: Vec<StockId> = Vec::new();
    let mut i: usize = 0;
    while i < ids.len()
        invariant
            i <= ids@.len(),
            id_copies@ == ids@.take(i as int),
        decreases ids.len() - i,
    {
        id_copies.push(ids[i].clone());
        assert(ids@.take(i + 1) =~= ids@.take(i as int).push(ids@[i as int]));
        i += 1;
    }
    assert(ids@.take(ids@.len() as int) =~= ids@);
    let mut kind_index_copies: Vec<usize> = Vec::new();
    let mut i: usize = 0;
    while i < stock_kinds.len()
        invariant
            i <= stock_kinds@.len(),
            kind_index_copies@ == stock_kinds@.take(i as int),
        decreases stock_kinds.len() - i,
    {
        kind_index_copies.push(stock_kinds[i]);
        assert(stock_kinds@.take(i + 1) =~= stock_kinds@.take(i as int).push(stock_kinds@[i as int]));
        i += 1;
    }
    assert(stock_kinds@.take(stock_kinds@.len() as int) =~= stock_kinds@);
    let mut kind_copies: Vec<K> = Vec::new();
    let mut i: usize = 0;
    while i < kinds.len()
        invariant
            i <= kinds@.len(),
            kind_copies@.len() == i,
            forall|k: int| 0 <= k < i ==> {
                let copy = #[trigger] kind_copies@[k];
                &&& copy.identity() == kinds@[k].identity()
                &&& copy.floor_value() == kinds@[k].floor_value()
                &&& copy.difference_identity() == kinds@[k].difference_identity()
            },
        decreases kinds.len() - i,
    {
        kind_copies.push(kinds[i].duplicate());
        i += 1;
    }
    (id_copies, kind_index_copies, kind_copies)
}

/// One rationing declaration for each process that has a flow, in order of
/// first flow.
fn rationed_declarations<K>(flows: &Vec<FlowSpec<K>>) -> (result: Vec<ProcessDefinition>)
    ensures
        distinct_declarations(result@),
        forall|u: int| 0 <= u < result@.len() ==> has_flow_process(flows@, (#[trigger] result@[u]).id@),
        forall|u: int| 0 <= u < result@.len() ==> (#[trigger] result@[u]).rationing == Rationing::Ration,
        forall|id: Seq<char>| has_flow_process(flows@, id) ==> #[trigger] declared_rationing(result@, id) == Rationing::Ration,
{
    let mut result: Vec<ProcessDefinition> = Vec::new();
    let mut f: usize = 0;
    while f < flows.len()
        invariant
            f <= flows@.len(),
            distinct_declarations(result@),
            forall|u: int| 0 <= u < result@.len() ==> has_flow_process(flows@, (#[trigger] result@[u]).id@),
            forall|u: int| 0 <= u < result@.len() ==> (#[trigger] result@[u]).rationing == Rationing::Ration,
            forall|g: int| 0 <= g < f ==> exists|u: int| 0 <= u < result@.len() && (#[trigger] result@[u]).id@ == (#[trigger] flows@[g]).process@,
        decreases flows.len() - f,
    {
        let earlier = position_of_declaration(&result, result.len(), &flows[f].process);
        let ghost before = result@;
        if earlier == result.len() {
            result.push(ProcessDefinition { id: flows[f].process.clone(), rationing: Rationing::Ration });
            proof {
                let last = result@.len() - 1;
                assert(result@[last].id@ == flows@[f as int].process@);
                assert forall|u: int| 0 <= u < result@.len() implies has_flow_process(flows@, (#[trigger] result@[u]).id@) by {
                    if u < last {
                        assert(result@[u] == before[u]);
                    } else {
                        assert(flows@[f as int].process@ == result@[u].id@);
                    }
                }
                assert forall|a: int, b: int| 0 <= a < b < result@.len() implies (#[trigger] result@[a]).id@ != (#[trigger] result@[b]).id@ by {
                    if b == last {
                        assert(result@[a] == before[a]);
                    } else {
                        assert(result@[a] == before[a] && result@[b] == before[b]);
                    }
                }
                assert forall|g: int| 0 <= g < f + 1 implies exists|u: int| 0 <= u < result@.len() && (#[trigger] result@[u]).id@ == (#[trigger] flows@[g]).process@ by {
                    if g < f {
                        let u = choose|u: int| 0 <= u < before.len() && (#[trigger] before[u]).id@ == flows@[g].process@;
                        assert(result@[u] == before[u]);
                    } else {
                        assert(result@[last].id@ == flows@[g].process@);
                    }
                }
            }
        } else {
            proof {
                assert(result@[earlier as int].id@ == flows@[f as int].process@);
            }
        }
        f += 1;
    }
    proof {
        assert forall|id: Seq<char>| has_flow_process(flows@, id) implies #[trigger] declared_rationing(result@, id) == Rationing::Ration by {
            let g = choose|g: int| 0 <= g < flows@.len() && (#[trigger] flows@[g]).process@ == id;
            let u = choose|u: int| 0 <= u < result@.len() && (#[trigger] result@[u]).id@ == (#[trigger] flows@[g]).process@;
            assert(result@[u].id@ == id);
        }
    }
    result
}

/// Whether an initial amount respects its kind's floor.
pub open spec fn spec_within_floor<K: Kind>(spec: StockSpec<K>) -> bool {
    spec.kind.floor_value() matches Some(floor) ==> spec.initial@ >= floor
}

/// Whether the first `count` stock specifications name distinct stocks.
pub open spec fn distinct_spec_prefix<K>(specs: Seq<StockSpec<K>>, count: int) -> bool {
    forall|i: int, j: int| 0 <= i < j < count ==> (#[trigger] specs[i]).id@ != (#[trigger] specs[j]).id@
}

/// Whether the stock specifications before `count` passed their checks: each
/// within its floor and naming a new stock.
pub open spec fn specs_accepted_before<K: Kind>(specs: Seq<StockSpec<K>>, count: int) -> bool {
    &&& forall|i: int| 0 <= i < count ==> spec_within_floor(#[trigger] specs[i])
    &&& distinct_spec_prefix(specs, count)
}

/// Whether `error` is what building a system from the declarations reports.
pub open spec fn system_error<K: Kind>(
    specs: Seq<StockSpec<K>>,
    error: StockFlowError<K>,
) -> bool {
    match error {
        StockFlowError::NoStocks => specs.len() == 0,
        StockFlowError::InitialBelowFloor { stock, floor, amount } => exists|i: int|
            0 <= i < specs.len() && specs_accepted_before(specs, i) && (#[trigger] specs[i]).kind.floor_value()
                == Some((*floor)@) && specs[i].initial@ < (*floor)@ && (*amount)@ == specs[i].initial@ && stock
                == specs[i].id,
        StockFlowError::DuplicateStock(id) => exists|i: int, j: int|
            0 <= j < i < specs.len() && specs_accepted_before(specs, i) && spec_within_floor(#[trigger] specs[i])
                && (#[trigger] specs[j]).id@ == specs[i].id@ && id == specs[i].id,
        _ => false,
    }
}

/// Whether an applied flow reports a proposal settled at `applied`.
pub open spec fn reports_proposal<K: Kind>(flow: AppliedFlow<K>, proposal: ProposedFlow<K>, applied: real) -> bool {
    &&& flow.process == proposal.process
    &&& flow.kind.identity() == proposal.kind.identity()
    &&& flow.source == proposal.source
    &&& flow.target == proposal.target
    &&& flow.requested@ == proposal.amount@
    &&& flow.applied@ == applied
    &&& flow.role == proposal_role(proposal)
}

/// Whether two applied flows agree field by field.
pub open spec fn same_applied(a: AppliedFlow<KindId>, b: AppliedFlow<KindId>) -> bool {
    &&& a.process == b.process
    &&& a.kind@ == b.kind@
    &&& a.source == b.source
    &&& a.target == b.target
    &&& a.requested@ == b.requested@
    &&& a.applied@ == b.applied@
    &&& a.role == b.role
}

/// A data-oriented stock state with exact boundary accounts and event history.
#[derive(Debug, PartialEq, Eq)]
pub struct FlooredSystem<K: Kind> {
    stocks: Vec<StockDefinition<K>>,
    ids: Vec<StockId>,
    stock_kinds: Vec<usize>,
    kinds: Vec<K>,
    state: ExactState<K>,
    history: Vec<AppliedFlow<K>>,
}

impl<K: Kind> FlooredSystem<K> {
    /// The declared stocks.
    pub closed spec fn stock_definitions(&self) -> Seq<StockDefinition<K>> {
        self.stocks@
    }

    /// Stock identifiers in declaration order.
    pub closed spec fn stock_ids(&self) -> Seq<StockId> {
        self.ids@
    }

    /// The kind index of each stock.
    pub closed spec fn stock_kind_seq(&self) -> Seq<usize> {
        self.stock_kinds@
    }

    /// The distinct conserved kinds in first-declaration order.
    pub closed spec fn kind_seq(&self) -> Seq<K> {
        self.kinds@
    }

    /// The exact state of the stocks and boundary accounts.
    pub closed spec fn state_spec(&self) -> ExactState<K> {
        self.state
    }

    /// All accepted flows across batches.
    pub closed spec fn history_seq(&self) -> Seq<AppliedFlow<K>> {
        self.history@
    }

    /// The stocks, kinds and declarations are consistent, and the exact state
    /// is kept over the same stock tables.
    #[verifier::type_invariant]
    closed spec fn coherent(&self) -> bool {
        let topology = self.state.topology_spec();
        &&& self.stocks@.len() > 0
        &&& distinct_stock_definitions(self.stocks@)
        &&& stocks_compiled(self.stocks@, self.stocks@.len() as int, self.ids@, self.stock_kinds@, self.kinds@)
        &&& topology.stock_ids() == self.ids@
        &&& topology.stock_kind_seq() == self.stock_kinds@
        &&& topology.kind_seq().len() == self.kinds@.len()
        &&& forall|k: int| 0 <= k < self.kinds@.len() ==> (#[trigger] topology.kind_seq()[k]).floor_value()
            == self.kinds@[k].floor_value() && topology.kind_seq()[k].identity() == self.kinds@[k].identity()
    }

    /// Constructs a system from typed stock declarations within their floors.
    pub fn new(specs: Vec<StockSpec<K>>) -> (result: Result<Self, StockFlowError<K>>)
        ensures
            result is Ok <==> (specs@.len() > 0 && specs_accepted_before(specs@, specs@.len() as int)
),
            match result {
                Ok(system) => {
                    &&& system.stock_definitions().len() == specs@.len()
                    &&& forall|i: int| 0 <= i < specs@.len() ==> (#[trigger] system.stock_definitions()[i]).id
                        == specs@[i].id && system.stock_definitions()[i].kind.identity() == specs@[i].kind.identity()
                    &&& system.history_seq().len() == 0
                    &&& system.state_spec().amount_values() == specs@.map_values(|spec: StockSpec<K>| spec.initial@)
                    &&& system.state_spec().input_values() == Seq::new(system.kind_seq().len(), |k: int| 0real)
                    &&& system.state_spec().output_values() == Seq::new(system.kind_seq().len(), |k: int| 0real)
                },
                Err(error) => system_error(specs@, error),
            },
    {
        if specs.len() == 0 {
            return Err(StockFlowError::NoStocks);
        }
        let mut stocks: Vec<StockDefinition<K>> = Vec::new();
        let mut seen: Vec<StockId> = Vec::new();
        let mut amounts: Vec<Rational> = Vec::new();
        let mut i: usize = 0;
        while i < specs.len()
            invariant
                i <= specs@.len(),
                specs_accepted_before(specs@, i as int),
                stocks@.len() == i,
                seen@.len() == i,
                amounts@.len() == i,
                forall|j: int| 0 <= j < i ==> (#[trigger] seen@[j]) == specs@[j].id,
                forall|j: int| 0 <= j < i ==> (#[trigger] stocks@[j]).id == specs@[j].id && stocks@[j].kind.identity()
                    == specs@[j].kind.identity() && stocks@[j].kind.floor_value() == specs@[j].kind.floor_value()
                    && stocks@[j].kind.difference_identity() == specs@[j].kind.difference_identity(),
                forall|j: int| 0 <= j < i ==> (#[trigger] amounts@[j])@ == specs@[j].initial@,
            decreases specs.len() - i,
        {
            let spec = &specs[i];
            match spec.kind.floor() {
                Some(floor) => {
                    if spec.initial.lt(&floor) {
                        return Err(StockFlowError::InitialBelowFloor {
                            stock: spec.id.clone(),
                            floor: Box::new(floor),
                            amount: Box::new(spec.initial.clone()),
                        });
                    }
                },
                None => {},
            }
            let earlier = position_of_stock(&seen, &spec.id);
            if earlier < i {
                proof {
                    assert(specs@[earlier as int].id@ == specs@[i as int].id@);
                }
                return Err(StockFlowError::DuplicateStock(spec.id.clone()));
            }
            let ghost before_seen = seen@;
            let ghost before_stocks = stocks@;
            let ghost before_amounts = amounts@;
            seen.push(spec.id.clone());
            stocks.push(StockDefinition { id: spec.id.clone(), kind: spec.kind.duplicate() });
            amounts.push(spec.initial.clone());
            proof {
                assert forall|a: int, b: int| 0 <= a < b < i + 1 implies (#[trigger] specs@[a]).id@ != (#[trigger] specs@[b]).id@ by {
                    if b == i {
                        assert(seen@[a] == specs@[a].id);
                    }
                }
            }
            i += 1;
        }
        proof {
            assert forall|a: int, b: int| 0 <= a < b < stocks@.len() implies (#[trigger] stocks@[a]).id@ != (#[trigger] stocks@[b]).id@ by {
                assert(specs@[a].id@ != specs@[b].id@);
            }
            assert(distinct_stock_prefix(stocks@, stocks@.len() as int));
        }
        let (ids, stock_kinds, kinds) = match compile_stocks(&stocks) {
            Ok(tables) => tables,
            Err(error) => {
                return Err(error);
            },
        };
        let (id_copies, kind_index_copies, kind_copies) = copy_tables(&ids, &stock_kinds, &kinds);
        proof {
            assert forall|j: int| 0 <= j < stocks@.len() implies {
                let kind = #[trigger] kind_copies@[kind_index_copies@[j] as int];
                &&& kind.identity() == stocks@[j].kind.identity()
                &&& kind.floor_value() == stocks@[j].kind.floor_value()
                &&& kind.difference_identity() == stocks@[j].kind.difference_identity()
            } by {
                assert(stock_kinds@[j] < kinds@.len());
            }
            assert(distinct_kinds(kind_copies@)) by {
                assert forall|a: int, b: int| 0 <= a < b < kind_copies@.len() implies (#[trigger] kind_copies@[a]).identity()
                    != (#[trigger] kind_copies@[b]).identity() by {
                    assert(kinds@[a].identity() != kinds@[b].identity());
                }
            }
        }
        let no_flows: Vec<FlowSpec<K>> = Vec::new();
        let no_processes: Vec<ProcessDefinition> = Vec::new();
        let topology = match FlowTopology::compile_flows(&stocks, id_copies, kind_index_copies, kind_copies, &no_flows, &no_processes) {
            Ok(topology) => topology,
            Err(error) => {
                return Err(error);
            },
        };
        proof {
            assert forall|s: int| 0 <= s < amounts@.len() implies (#[trigger] topology.stock_floor(s) matches Some(floor)
                ==> reals(amounts@)[s] >= floor) by {
                assert(reals(amounts@)[s] == amounts@[s]@);
                assert(spec_within_floor(specs@[s]));
                assert(stock_kinds@[s] < kinds@.len());
            }
        }
        let state = match ExactState::new(Arc::new(topology), amounts) {
            Ok(state) => state,
            Err(error) => {
                return Err(error);
            },
        };
        proof {
            assert(state.amount_values() =~= specs@.map_values(|spec: StockSpec<K>| spec.initial@)) by {
                assert forall|j: int| 0 <= j < specs@.len() implies #[trigger] state.amount_values()[j]
                    == specs@.map_values(|spec: StockSpec<K>| spec.initial@)[j] by {
                    assert(state.amount_values()[j] == amounts@[j]@);
                }
            }
            assert forall|k: int| 0 <= k < kinds@.len() implies (#[trigger] state.topology_spec().kind_seq()[k]).floor_value()
                == kinds@[k].floor_value() && state.topology_spec().kind_seq()[k].identity() == kinds@[k].identity() by {
            }
        }
        Ok(FlooredSystem { stocks, ids, stock_kinds, kinds, state, history: Vec::new() })
    }
}


impl<K: Kind> FlooredSystem<K> {
    /// The stock tables and the exact state agree: each stock's floor is its
    /// kind's floor, and the state is within the floors.
    pub fn check_state(&self)
        ensures
            self.state_spec().fits(),
            self.state_spec().topology_spec().stock_ids().len() == self.stock_ids().len(),
            self.stock_definitions().len() == self.stock_ids().len(),
            distinct_stock_definitions(self.stock_definitions()),
            forall|s: int| 0 <= s < self.stock_ids().len() ==> (#[trigger] self.stock_definitions()[s]).id@ == self.stock_ids()[s]@,
            forall|s: int|
                0 <= s < self.stock_ids().len() ==> #[trigger] self.state_spec().topology_spec().stock_floor(s) == self.stock_definitions()[s].kind.floor_value(),
    {
        proof {
            use_type_invariant(self);
        }
        self.state.check_balanced();
        proof {
            let topology = self.state.topology_spec();
            assert forall|s: int| 0 <= s < self.ids@.len() implies (#[trigger] self.stocks@[s]).id@ == self.ids@[s]@ && topology.stock_floor(s)
                == self.stocks@[s].kind.floor_value() by {
                assert(self.stock_kinds@[s] < self.kinds@.len());
            }
        }
    }

    /// Validates and atomically settles one simultaneous batch.
    ///
    /// Proposals are checked in order: a negative amount, then the flow's
    /// endpoints. A valid batch is settled over its compiled layout, with every
    /// process rationing: the withdrawals from a stock that would take it below
    /// its floor share the proportional scale that takes it exactly to the
    /// floor. On any error the system is unchanged.
    pub fn settle(&mut self, proposals: &[ProposedFlow<K>]) -> (result: Result<SettlementReport<K>, StockFlowError<K>>)
        ensures
            final(self).stock_definitions() == old(self).stock_definitions(),
            final(self).stock_ids() == old(self).stock_ids(),
            final(self).stock_kind_seq() == old(self).stock_kind_seq(),
            final(self).kind_seq() == old(self).kind_seq(),
            proposals_valid(old(self).stock_definitions(), proposals@) ==> exists|topology: FlowTopology<K>|
                batch_layout(
                    topology,
                    old(self).stock_ids(),
                    old(self).stock_kind_seq(),
                    old(self).kind_seq(),
                    proposals@,
                ),
            result is Ok <==> (proposals_valid(old(self).stock_definitions(), proposals@) && forall|topology: FlowTopology<K>|
                batch_layout(
                    topology,
                    old(self).stock_ids(),
                    old(self).stock_kind_seq(),
                    old(self).kind_seq(),
                    proposals@,
                ) ==> batch_accepted(topology, old(self).state_spec().amount_values(), proposal_amounts(proposals@))),
            match result {
                Ok(report) => {
                    let amounts = old(self).state_spec().amount_values();
                    let requested = proposal_amounts(proposals@);
                    &&& report.flow_seq().len() == proposals@.len()
                    &&& final(self).history_seq().len() == old(self).history_seq().len() + proposals@.len()
                    &&& forall|i: int| 0 <= i < old(self).history_seq().len() ==> #[trigger] final(self).history_seq()[i]
                        == old(self).history_seq()[i]
                    &&& final(self).state_spec().initial_values() == old(self).state_spec().initial_values()
                    &&& forall|topology: FlowTopology<K>| #[trigger] batch_layout(
                        topology,
                        old(self).stock_ids(),
                        old(self).stock_kind_seq(),
                        old(self).kind_seq(),
                        proposals@,
                    ) ==> {
                        &&& forall|i: int| 0 <= i < proposals@.len() ==> reports_proposal(
                            #[trigger] report.flow_seq()[i],
                            proposals@[i],
                            applied_amounts(topology, amounts, requested)[i],
                        )
                        &&& forall|i: int| 0 <= i < proposals@.len() ==> reports_proposal(
                            #[trigger] final(self).history_seq()[old(self).history_seq().len() + i],
                            proposals@[i],
                            applied_amounts(topology, amounts, requested)[i],
                        )
                        &&& final(self).state_spec().amount_values() == settled_amounts(topology, amounts, requested)
                        &&& final(self).state_spec().input_values() == Seq::new(
                            old(self).kind_seq().len(),
                            |k: int| old(self).state_spec().input_values()[k] + batch_inputs(topology, amounts, requested)[k],
                        )
                        &&& final(self).state_spec().output_values() == Seq::new(
                            old(self).kind_seq().len(),
                            |k: int| old(self).state_spec().output_values()[k] + batch_outputs(topology, amounts, requested)[k],
                        )
                    }
                },
                Err(error) => {
                    &&& *final(self) == *old(self)
                    &&& proposal_error(old(self).stock_definitions(), proposals@, error) || (proposals_valid(
                        old(self).stock_definitions(),
                        proposals@,
                    ) && forall|topology: FlowTopology<K>| #[trigger] batch_layout(
                        topology,
                        old(self).stock_ids(),
                        old(self).stock_kind_seq(),
                        old(self).kind_seq(),
                        proposals@,
                    ) ==> batch_error(
                        topology,
                        old(self).state_spec().amount_values(),
                        proposal_amounts(proposals@),
                        error,
                    ))
                },
            },
    {
        proof {
            use_type_invariant(&*self);
        }
        self.state.check_balanced();
        let ghost stocks = self.stocks@;
        let ghost requested_spec = proposal_amounts(proposals@);
        let ghost old_amounts = self.state.amount_values();
        let mut flows: Vec<FlowSpec<K>> = Vec::new();
        let mut requested: Vec<Rational> = Vec::new();
        let mut i: usize = 0;
        while i < proposals.len()
            invariant
                stocks == self.stocks@,
                stocks.len() > 0,
                distinct_stock_definitions(stocks),
                stocks_compiled(stocks, stocks.len() as int, self.ids@, self.stock_kinds@, self.kinds@),
                requested_spec == proposal_amounts(proposals@),
                i <= proposals@.len(),
                flows@.len() == i,
                requested@.len() == i,
                forall|j: int| 0 <= j < i ==> proposal_valid(stocks, #[trigger] proposals@[j]),
                forall|j: int| 0 <= j < i ==> {
                    let flow = #[trigger] flows@[j];
                    &&& flow.process == proposals@[j].process
                    &&& flow.kind.identity() == proposals@[j].kind.identity()
                    &&& flow.source == proposals@[j].source
                    &&& flow.target == proposals@[j].target
                },
                forall|j: int| 0 <= j < i ==> (#[trigger] requested@[j])@ == requested_spec[j],
            decreases proposals.len() - i,
        {
            let proposal = &proposals[i];
            if proposal.amount.is_negative() {
                proof {
                    assert(proposals@[i as int].amount@ < 0real);
                }
                return Err(StockFlowError::NegativeAmount);
            }
            let flow = FlowSpec {
                process: proposal.process.clone(),
                kind: proposal.kind.duplicate(),
                source: copy_endpoint(&proposal.source),
                target: copy_endpoint(&proposal.target),
            };
            match compile_endpoints(&flow, &self.stocks, &self.ids, &self.stock_kinds, &self.kinds) {
                Ok(_) => {},
                Err(error) => {
                    proof {
                        assert(flow_error(stocks, proposal_flow(proposals@[i as int]), error));
                    }
                    return Err(error);
                },
            }
            proof {
                assert(flow_spec_valid(stocks, proposal_flow(proposals@[i as int])));
                assert(requested_spec[i as int] == proposal.amount@);
            }
            flows.push(flow);
            requested.push(proposal.amount.clone());
            i += 1;
        }
        let used = rationed_declarations(&flows);
        proof {
            assert forall|f: int| 0 <= f < flows@.len() implies flow_spec_valid(stocks, #[trigger] flows@[f]) by {
                assert(proposal_valid(stocks, proposals@[f]));
            }
        }
        let (id_copies, kind_index_copies, kind_copies) = copy_tables(&self.ids, &self.stock_kinds, &self.kinds);
        proof {
            assert forall|j: int| 0 <= j < stocks.len() implies {
                let kind = #[trigger] kind_copies@[kind_index_copies@[j] as int];
                &&& kind.identity() == stocks[j].kind.identity()
                &&& kind.floor_value() == stocks[j].kind.floor_value()
                &&& kind.difference_identity() == stocks[j].kind.difference_identity()
            } by {
                assert(self.stock_kinds@[j] < self.kinds@.len());
            }
            assert(distinct_kinds(kind_copies@)) by {
                assert forall|a: int, b: int| 0 <= a < b < kind_copies@.len() implies (#[trigger] kind_copies@[a]).identity()
                    != (#[trigger] kind_copies@[b]).identity() by {
                    assert(self.kinds@[a].identity() != self.kinds@[b].identity());
                }
            }
        }
        let topology = match FlowTopology::compile_flows(&self.stocks, id_copies, kind_index_copies, kind_copies, &flows, &used) {
            Ok(topology) => topology,
            Err(error) => {
                return Err(error);
            },
        };
        let ghost layout = |t: FlowTopology<K>| batch_layout(t, self.ids@, self.stock_kinds@, self.kinds@, proposals@);
        proof {
            assert(distinct_ids(self.ids@)) by {
                assert forall|a: int, b: int| 0 <= a < b < self.ids@.len() implies (#[trigger] self.ids@[a])@ != (#[trigger] self.ids@[b])@ by {
                    assert(stocks[a].id@ != stocks[b].id@);
                }
            }
            assert forall|f: int| 0 <= f < proposals@.len() implies {
                let flow = #[trigger] topology.flow_seq()[f];
                &&& endpoint_compiled(topology.stock_ids(), flow.source_spec(), proposals@[f].source)
                &&& endpoint_compiled(topology.stock_ids(), flow.target_spec(), proposals@[f].target)
                &&& flow_process(topology, f) == proposals@[f].process@
                &&& topology.rationing_seq()[flow.process_spec() as int] == Rationing::Ration
            } by {
                let flow = topology.flow_seq()[f];
                assert(flow_well_formed(flow, topology.stock_kind_seq(), topology.kind_seq().len() as int, topology.process_ids().len() as int));
                assert(has_flow_process(flows@, flows@[f].process@));
                assert(topology.rationing_seq()[flow.process_spec() as int] == declared_rationing(used@, topology.process_ids()[flow.process_spec() as int]@));
            }
            assert(batch_layout(topology, self.ids@, self.stock_kinds@, self.kinds@, proposals@));
            assert(reals(requested@) =~= requested_spec);
        }
        let mut state = self.state.clone();
        std::mem::swap(&mut state, &mut self.state);
        let settled = state.settle_with(&topology, requested.as_slice());
        self.state = state;
        let applied = match settled {
            Ok(applied) => applied,
            Err(error) => {
                proof {
                    assert forall|other: FlowTopology<K>| #[trigger] batch_layout(
                        other,
                        self.ids@,
                        self.stock_kinds@,
                        self.kinds@,
                        proposals@,
                    ) implies batch_error(other, self.state.amount_values(), requested_spec, error) by {
                        lemma_layouts_alike(topology, other, self.ids@, self.stock_kinds@, self.kinds@, proposals@);
                        lemma_settles_alike(topology, other, old_amounts, requested_spec);
                    }
                    assert(batch_layout(topology, self.ids@, self.stock_kinds@, self.kinds@, proposals@));
                    assert(!batch_accepted(topology, old_amounts, requested_spec));
                    assert(old_amounts == old(self).state_spec().amount_values());
                    assert(self.ids@ == old(self).stock_ids());
                    assert(proposals_valid(old(self).stock_definitions(), proposals@));
                }
                return Err(error);
            },
        };
        // report entries and history
        let mut report: Vec<AppliedFlow<K>> = Vec::new();
        let mut history: Vec<AppliedFlow<K>> = Vec::new();
        std::mem::swap(&mut history, &mut self.history);
        let ghost old_history = history@;
        let ghost applied_spec = applied_amounts(topology, old_amounts, requested_spec);
        proof {
            assert(applied@.len() == reals(applied@).len());
        }
        let mut i: usize = 0;
        while i < proposals.len()
            invariant
                i <= proposals@.len(),
                applied@.len() == proposals@.len(),
                reals(applied@) == applied_spec,
                report@.len() == i,
                history@.len() == old_history.len() + i,
                forall|j: int| 0 <= j < old_history.len() ==> #[trigger] history@[j] == old_history[j],
                forall|j: int| 0 <= j < i ==> reports_proposal(#[trigger] report@[j], proposals@[j], applied_spec[j]),
                forall|j: int| 0 <= j < i ==> reports_proposal(#[trigger] history@[old_history.len() + j], proposals@[j], applied_spec[j]),
            decreases proposals.len() - i,
        {
            let proposal = &proposals[i];
            proof {
                assert(reals(applied@)[i as int] == applied@[i as int]@);
            }
            let role = match (&proposal.source, &proposal.target) {
                (None, _) => FlowRole::Input,
                (Some(_), None) => FlowRole::Output,
                (Some(_), Some(_)) => FlowRole::Transfer,
            };
            report.push(AppliedFlow {
                process: proposal.process.clone(),
                kind: proposal.kind.duplicate(),
                source: copy_endpoint(&proposal.source),
                target: copy_endpoint(&proposal.target),
                requested: proposal.amount.clone(),
                applied: applied[i].clone(),
                role,
            });
            history.push(AppliedFlow {
                process: proposal.process.clone(),
                kind: proposal.kind.duplicate(),
                source: copy_endpoint(&proposal.source),
                target: copy_endpoint(&proposal.target),
                requested: proposal.amount.clone(),
                applied: applied[i].clone(),
                role,
            });
            i += 1;
        }
        self.history = history;
        proof {
            assert forall|other: FlowTopology<K>| #[trigger] batch_layout(
                other,
                old(self).stock_ids(),
                old(self).stock_kind_seq(),
                old(self).kind_seq(),
                proposals@,
            ) implies {
                &&& batch_accepted(other, old_amounts, requested_spec)
                &&& applied_amounts(other, old_amounts, requested_spec) == applied_spec
                &&& settled_amounts(other, old_amounts, requested_spec) == settled_amounts(topology, old_amounts, requested_spec)
                &&& batch_inputs(other, old_amounts, requested_spec) == batch_inputs(topology, old_amounts, requested_spec)
                &&& batch_outputs(other, old_amounts, requested_spec) == batch_outputs(topology, old_amounts, requested_spec)
            } by {
                lemma_layouts_alike(topology, other, self.ids@, self.stock_kinds@, self.kinds@, proposals@);
                lemma_settles_alike(topology, other, old_amounts, requested_spec);
            }
        }
        Ok(SettlementReport { applied: report })
    }
}


impl<K: Kind> FlooredSystem<K> {
    /// Returns the exact amount in a declared stock.
    pub fn amount(&self, stock: &StockId) -> (result: Option<&Rational>)
        ensures
            match result {
                Some(amount) => exists|i: int|
                    0 <= i < self.stock_ids().len() && (#[trigger] self.stock_ids()[i])@ == stock@ && amount@
                        == self.state_spec().amount_values()[i],
                None => forall|i: int| 0 <= i < self.stock_ids().len() ==> (#[trigger] self.stock_ids()[i])@ != stock@,
            },
    {
        proof {
            use_type_invariant(self);
        }
        let result = self.state.amount(stock);
        proof {
            if let Some(amount) = result {
                let i = choose|i: int|
                    0 <= i < self.state.topology_spec().stock_ids().len() && (#[trigger] self.state.topology_spec().stock_ids()[i])@
                        == stock@ && amount@ == self.state.amount_values()[i];
                assert(self.stock_ids()[i]@ == stock@);
            }
        }
        result
    }

    /// Returns the current total of a conserved kind.
    pub fn total(&self, kind: K) -> (result: Rational)
        ensures
            result@ == in_kind(
                self.state_spec().topology_spec(),
                Seq::new(
                    self.kind_seq().len(),
                    |k: int| total_of(self.state_spec().topology_spec(), self.state_spec().amount_values(), k),
                ),
                kind,
            ),
    {
        proof {
            use_type_invariant(self);
        }
        self.state.total(kind)
    }

    /// Returns cumulative boundary input for a kind.
    pub fn inputs(&self, kind: K) -> (result: Rational)
        ensures
            result@ == in_kind(self.state_spec().topology_spec(), self.state_spec().input_values(), kind),
    {
        self.state.inputs(kind)
    }

    /// Returns cumulative boundary output for a kind.
    pub fn outputs(&self, kind: K) -> (result: Rational)
        ensures
            result@ == in_kind(self.state_spec().topology_spec(), self.state_spec().output_values(), kind),
    {
        self.state.outputs(kind)
    }

    /// Returns `initial + inputs - outputs - current` exactly: always zero.
    pub fn balance_residual(&self, kind: K) -> (result: Rational)
        ensures
            result@ == 0real,
    {
        self.state.balance_residual(kind)
    }

    /// Returns all accepted flows across batches.
    pub fn history(&self) -> (result: &[AppliedFlow<K>])
        ensures
            result@ == self.history_seq(),
    {
        self.history.as_slice()
    }
}

/// A copy of an applied flow.
fn copy_applied<K: Kind>(flow: &AppliedFlow<K>) -> (result: AppliedFlow<K>)
    ensures
        result.process == flow.process,
        result.kind.identity() == flow.kind.identity(),
        result.source == flow.source,
        result.target == flow.target,
        result.requested@ == flow.requested@,
        result.applied@ == flow.applied@,
        result.role == flow.role,
{
    AppliedFlow {
        process: flow.process.clone(),
        kind: flow.kind.duplicate(),
        source: copy_endpoint(&flow.source),
        target: copy_endpoint(&flow.target),
        requested: flow.requested.clone(),
        applied: flow.applied.clone(),
        role: flow.role,
    }
}

impl<K: Kind> Clone for FlooredSystem<K> {
    fn clone(&self) -> (result: Self)
        ensures
            result.stock_ids() == self.stock_ids(),
            result.stock_definitions().len() == self.stock_definitions().len(),
            forall|j: int| 0 <= j < self.stock_definitions().len() ==> (#[trigger] result.stock_definitions()[j]).id
                == self.stock_definitions()[j].id && result.stock_definitions()[j].kind.identity()
                == self.stock_definitions()[j].kind.identity(),
            result.stock_kind_seq() == self.stock_kind_seq(),
            result.state_spec().topology_spec() == self.state_spec().topology_spec(),
            result.state_spec().amount_values() == self.state_spec().amount_values(),
            result.state_spec().initial_values() == self.state_spec().initial_values(),
            result.state_spec().input_values() == self.state_spec().input_values(),
            result.state_spec().output_values() == self.state_spec().output_values(),
            result.history_seq().len() == self.history_seq().len(),
    {
        proof {
            use_type_invariant(self);
        }
        let mut stocks: Vec<StockDefinition<K>> = Vec::new();
        let mut i: usize = 0;
        while i < self.stocks.len()
            invariant
                i <= self.stocks@.len(),
                stocks@.len() == i,
                forall|j: int| 0 <= j < i ==> (#[trigger] stocks@[j]).id == self.stocks@[j].id
                    && stocks@[j].kind.identity() == self.stocks@[j].kind.identity()
                    && stocks@[j].kind.floor_value() == self.stocks@[j].kind.floor_value()
                    && stocks@[j].kind.difference_identity() == self.stocks@[j].kind.difference_identity(),
            decreases self.stocks.len() - i,
        {
            stocks.push(StockDefinition { id: self.stocks[i].id.clone(), kind: self.stocks[i].kind.duplicate() });
            i += 1;
        }
        let (ids, stock_kinds, kinds) = copy_tables(&self.ids, &self.stock_kinds, &self.kinds);
        let mut history: Vec<AppliedFlow<K>> = Vec::new();
        let mut i: usize = 0;
        while i < self.history.len()
            invariant
                i <= self.history@.len(),
                history@.len() == i,
            decreases self.history.len() - i,
        {
            history.push(copy_applied(&self.history[i]));
            i += 1;
        }
        proof {
            assert forall|a: int, b: int| 0 <= a < b < stocks@.len() implies (#[trigger] stocks@[a]).id@ != (#[trigger] stocks@[b]).id@ by {
                assert(self.stocks@[a].id@ != self.stocks@[b].id@);
            }
            assert(distinct_stock_prefix(stocks@, stocks@.len() as int));
            assert(distinct_kinds(kinds@)) by {
                assert forall|a: int, b: int| 0 <= a < b < kinds@.len() implies (#[trigger] kinds@[a]).identity()
                    != (#[trigger] kinds@[b]).identity() by {
                    assert(self.kinds@[a].identity() != self.kinds@[b].identity());
                }
            }
            assert forall|j: int| 0 <= j < stocks@.len() implies {
                let kind = #[trigger] kinds@[stock_kinds@[j] as int];
                &&& kind.identity() == stocks@[j].kind.identity()
                &&& kind.floor_value() == stocks@[j].kind.floor_value()
                &&& kind.difference_identity() == stocks@[j].kind.difference_identity()
            } by {
                assert(self.stock_kinds@[j] < self.kinds@.len());
            }
            assert forall|j: int| 0 <= j < stocks@.len() implies (#[trigger] ids@[j])@ == stocks@[j].id@ by {
                assert(self.ids@[j]@ == self.stocks@[j].id@);
            }
            assert forall|j: int| 0 <= j < stocks@.len() implies #[trigger] stock_kinds@[j] < kinds@.len() by {
                assert(self.stock_kinds@[j] < self.kinds@.len());
            }
        }
        let state = self.state.clone();
        FlooredSystem { stocks, ids, stock_kinds, kinds, state, history }
    }
}

/// A named kind whose stocks never hold less than zero: the kind in which a
/// [`StockFlowSystem`] settles the stocks of a named kind.
#[derive(Debug, PartialEq, Eq)]
pub struct Held {
    /// The named kind.
    pub kind: KindId,
}

impl Kind for Held {
    open spec fn identity(&self) -> Seq<char> {
        self.kind@
    }

    open spec fn floor_value(&self) -> Option<real> {
        Some(0real)
    }

    open spec fn difference_identity(&self) -> Seq<char> {
        self.kind@
    }

    fn floor(&self) -> (result: Option<Rational>) {
        Some(Rational::zero())
    }

    proof fn lemma_identity_determines(a: Self, b: Self) {
    }

    fn difference(&self) -> (result: Self) {
        Held { kind: self.kind.clone() }
    }

    fn same(&self, other: &Self) -> (result: bool) {
        self.kind.same(&other.kind)
    }

    fn label(&self) -> (result: &str) {
        self.kind.as_str()
    }

    fn duplicate(&self) -> (result: Self) {
        Held { kind: self.kind.clone() }
    }
}

/// The stock specification of a named kind, held at zero.
pub open spec fn held_spec(spec: StockSpec<KindId>) -> StockSpec<Held> {
    StockSpec { id: spec.id, kind: Held { kind: spec.kind }, initial: spec.initial }
}

/// The proposals of named kinds, held at zero.
pub open spec fn held_proposals(proposals: Seq<ProposedFlow<KindId>>) -> Seq<ProposedFlow<Held>> {
    proposals.map_values(
        |p: ProposedFlow<KindId>|
            ProposedFlow { process: p.process, kind: Held { kind: p.kind }, source: p.source, target: p.target, amount: p.amount },
    )
}

/// Whether held stock declarations declare the same stocks and kinds.
pub open spec fn held_stocks(stocks: Seq<StockDefinition<KindId>>, held: Seq<StockDefinition<Held>>) -> bool {
    &&& stocks.len() == held.len()
    &&& forall|i: int| 0 <= i < stocks.len() ==> (#[trigger] held[i]).id@ == stocks[i].id@ && held[i].kind.kind@ == stocks[i].kind@
}

/// Whether the specifications before `count` have nonnegative initial
/// amounts and distinct identifiers.
pub open spec fn named_accepted_before(specs: Seq<StockSpec<KindId>>, count: int) -> bool {
    &&& forall|i: int| 0 <= i < count ==> (#[trigger] specs[i]).initial@ >= 0real
    &&& distinct_spec_prefix(specs, count)
}

/// Whether `error` is what building a named system from the specifications
/// reports: no stock, then, in declaration order, a negative initial amount or
/// a repeated identifier.
pub open spec fn named_system_error(specs: Seq<StockSpec<KindId>>, error: StockFlowError<KindId>) -> bool {
    match error {
        StockFlowError::NoStocks => specs.len() == 0,
        StockFlowError::NegativeAmount => exists|i: int|
            0 <= i < specs.len() && named_accepted_before(specs, i) && (#[trigger] specs[i]).initial@ < 0real,
        StockFlowError::DuplicateStock(id) => exists|i: int, j: int|
            0 <= j < i < specs.len() && named_accepted_before(specs, i) && (#[trigger] specs[i]).initial@ >= 0real
                && (#[trigger] specs[j]).id@ == specs[i].id@ && id == specs[i].id,
        _ => false,
    }
}

/// A stock state over named kinds with exact boundary accounts and event
/// history, whose withdrawals never take a stock below zero.
#[derive(Debug, PartialEq, Eq)]
pub struct StockFlowSystem {
    stocks: Vec<StockDefinition<KindId>>,
    ids: Vec<StockId>,
    stock_kinds: Vec<usize>,
    kinds: Vec<KindId>,
    engine: FlooredSystem<Held>,
    history: Vec<AppliedFlow<KindId>>,
}

impl StockFlowSystem {
    /// The declared stocks.
    pub closed spec fn stock_definitions(&self) -> Seq<StockDefinition<KindId>> {
        self.stocks@
    }

    /// The settlement engine, over the held kinds.
    pub closed spec fn engine(&self) -> FlooredSystem<Held> {
        self.engine
    }

    /// All accepted flows across batches.
    pub closed spec fn history_seq(&self) -> Seq<AppliedFlow<KindId>> {
        self.history@
    }

    /// The exact amounts of the stocks, in declaration order.
    pub open spec fn amount_values(&self) -> Seq<real> {
        self.engine().state_spec().amount_values()
    }

    #[verifier::type_invariant]
    closed spec fn matched(&self) -> bool {
        &&& self.stocks@.len() > 0
        &&& distinct_stock_definitions(self.stocks@)
        &&& stocks_compiled(self.stocks@, self.stocks@.len() as int, self.ids@, self.stock_kinds@, self.kinds@)
        &&& held_stocks(self.stocks@, self.engine.stock_definitions())
    }
}

/// A proposal valid over named stocks is valid over the same stocks held at
/// zero.
proof fn lemma_held_valid(stocks: Seq<StockDefinition<KindId>>, held: Seq<StockDefinition<Held>>, proposal: ProposedFlow<KindId>)
    requires
        held_stocks(stocks, held),
        distinct_stock_definitions(stocks),
        proposal_valid(stocks, proposal),
    ensures
        proposal_valid(
            held,
            ProposedFlow {
                process: proposal.process,
                kind: Held { kind: proposal.kind },
                source: proposal.source,
                target: proposal.target,
                amount: proposal.amount,
            },
        ),
{
    let hp = ProposedFlow {
        process: proposal.process,
        kind: Held { kind: proposal.kind },
        source: proposal.source,
        target: proposal.target,
        amount: proposal.amount,
    };
    let flow = proposal_flow(proposal);
    let hflow = proposal_flow(hp);
    if let Some(id) = flow.source {
        let i = choose|i: int| 0 <= i < stocks.len() && (#[trigger] stocks[i]).id@ == id@ && stocks[i].kind.difference_identity() == flow.kind.identity();
        assert(held[i].id@ == id@);
    }
    if let Some(id) = flow.target {
        let i = choose|i: int| 0 <= i < stocks.len() && (#[trigger] stocks[i]).id@ == id@ && stocks[i].kind.difference_identity() == flow.kind.identity();
        assert(held[i].id@ == id@);
    }
    if flow.source is Some && flow.target is Some {
        let a = flow.source->0@;
        let b = flow.target->0@;
        let i = choose|i: int| 0 <= i < stocks.len() && (#[trigger] stocks[i]).id@ == a;
        let j = choose|j: int| 0 <= j < stocks.len() && (#[trigger] stocks[j]).id@ == b;
        let hi = choose|i: int| 0 <= i < held.len() && (#[trigger] held[i]).id@ == a;
        let hj = choose|j: int| 0 <= j < held.len() && (#[trigger] held[j]).id@ == b;
        assert(held[i].id@ == a);
        assert(held[j].id@ == b);
        assert(stocks[hi].id@ == a);
        assert(stocks[hj].id@ == b);
        if hi != i {
            if hi < i {
                assert(stocks[hi].id@ != stocks[i].id@);
            } else {
                assert(stocks[i].id@ != stocks[hi].id@);
            }
        }
        if hj != j {
            if hj < j {
                assert(stocks[hj].id@ != stocks[j].id@);
            } else {
                assert(stocks[j].id@ != stocks[hj].id@);
            }
        }
        assert(crate::dynamics::declared_kind(held, a) == held[i].kind.identity());
        assert(crate::dynamics::declared_kind(held, b) == held[j].kind.identity());
    }
}

impl StockFlowSystem {
    /// Constructs a system from named, nonnegative stock declarations.
    pub fn new(specs: Vec<StockSpec<KindId>>) -> (result: Result<Self, StockFlowError<KindId>>)
        ensures
            result is Ok <==> (specs@.len() > 0 && named_accepted_before(specs@, specs@.len() as int)),
            match result {
                Ok(system) => {
                    &&& system.stock_definitions().len() == specs@.len()
                    &&& forall|i: int| 0 <= i < specs@.len() ==> (#[trigger] system.stock_definitions()[i]).id == specs@[i].id
                        && system.stock_definitions()[i].kind@ == specs@[i].kind@
                    &&& system.history_seq().len() == 0
                    &&& system.amount_values() == specs@.map_values(|spec: StockSpec<KindId>| spec.initial@)
                    &&& system.engine().state_spec().input_values() == Seq::new(system.engine().kind_seq().len(), |k: int| 0real)
                    &&& system.engine().state_spec().output_values() == Seq::new(system.engine().kind_seq().len(), |k: int| 0real)
                },
                Err(error) => named_system_error(specs@, error),
            },
    {
        let mut held: Vec<StockSpec<Held>> = Vec::new();
        let mut stocks: Vec<StockDefinition<KindId>> = Vec::new();
        let mut i: usize = 0;
        while i < specs.len()
            invariant
                i <= specs@.len(),
                held@.len() == i,
                stocks@.len() == i,
                forall|j: int| 0 <= j < i ==> (#[trigger] held@[j]).id == specs@[j].id && held@[j].kind.kind == specs@[j].kind
                    && held@[j].initial@ == specs@[j].initial@,
                forall|j: int| 0 <= j < i ==> (#[trigger] stocks@[j]).id == specs@[j].id && stocks@[j].kind == specs@[j].kind,
            decreases specs.len() - i,
        {
            held.push(StockSpec { id: specs[i].id.clone(), kind: Held { kind: specs[i].kind.clone() }, initial: specs[i].initial.clone() });
            stocks.push(StockDefinition { id: specs[i].id.clone(), kind: specs[i].kind.clone() });
            i += 1;
        }
        proof {
            assert forall|n: int| 0 <= n <= specs@.len() implies specs_accepted_before(held@, n) == named_accepted_before(specs@, n) by {
                if distinct_spec_prefix(specs@, n) {
                    assert forall|a: int, b: int| 0 <= a < b < n implies (#[trigger] held@[a]).id@ != (#[trigger] held@[b]).id@ by {
                        assert(specs@[a].id@ != specs@[b].id@);
                    }
                }
                if distinct_spec_prefix(held@, n) {
                    assert forall|a: int, b: int| 0 <= a < b < n implies (#[trigger] specs@[a]).id@ != (#[trigger] specs@[b]).id@ by {
                        assert(held@[a].id@ != held@[b].id@);
                    }
                }
                assert forall|j: int| 0 <= j < n implies spec_within_floor(#[trigger] held@[j]) == (specs@[j].initial@ >= 0real) by {}
                if named_accepted_before(specs@, n) {
                    assert forall|j: int| 0 <= j < n implies spec_within_floor(#[trigger] held@[j]) by {
                        assert(specs@[j].initial@ >= 0real);
                    }
                }
                if specs_accepted_before(held@, n) {
                    assert forall|j: int| 0 <= j < n implies (#[trigger] specs@[j]).initial@ >= 0real by {
                        assert(spec_within_floor(held@[j]));
                    }
                }
            }
        }
        let engine = match FlooredSystem::new(held) {
            Ok(engine) => engine,
            Err(error) => {
                match error {
                    StockFlowError::NoStocks => {
                        return Err(StockFlowError::NoStocks);
                    },
                    StockFlowError::InitialBelowFloor { .. } => {
                        proof {
                            let i = choose|i: int| 0 <= i < held@.len() && specs_accepted_before(held@, i) && (#[trigger] held@[i]).kind.floor_value()
                                == Some(0real) && held@[i].initial@ < 0real;
                            assert(named_accepted_before(specs@, i));
                            assert(specs@[i].initial@ < 0real);
                        }
                        return Err(StockFlowError::NegativeAmount);
                    },
                    StockFlowError::DuplicateStock(id) => {
                        proof {
                            let (i, j) = choose|i: int, j: int|
                                0 <= j < i < held@.len() && specs_accepted_before(held@, i) && spec_within_floor(#[trigger] held@[i])
                                    && (#[trigger] held@[j]).id@ == held@[i].id@ && id == held@[i].id;
                            assert(named_accepted_before(specs@, i));
                            assert(specs@[i].initial@ >= 0real);
                            assert(specs@[j].id@ == specs@[i].id@);
                        }
                        return Err(StockFlowError::DuplicateStock(id));
                    },
                    _ => {
                        proof {
                            assert(false);
                        }
                        return Err(StockFlowError::NoStocks);
                    },
                }
            },
        };
        engine.check_state();
        proof {
            assert forall|a: int, b: int| 0 <= a < b < stocks@.len() implies (#[trigger] stocks@[a]).id@ != (#[trigger] stocks@[b]).id@ by {
                assert(specs@[a].id@ != specs@[b].id@);
            }
            assert(crate::dynamics::distinct_stock_prefix(stocks@, stocks@.len() as int));
        }
        let (ids, stock_kinds, kinds) = match compile_stocks(&stocks) {
            Ok(tables) => tables,
            Err(error) => {
                proof {
                    assert(false);
                }
                return Err(StockFlowError::NoStocks);
            },
        };
        proof {
            assert forall|j: int| 0 <= j < stocks@.len() implies (#[trigger] engine.stock_definitions()[j]).id@ == stocks@[j].id@
                && engine.stock_definitions()[j].kind.kind@ == stocks@[j].kind@ by {
                assert(engine.stock_definitions()[j].kind.identity() == held@[j].kind.identity());
            }
            assert(engine.state_spec().amount_values() =~= specs@.map_values(|spec: StockSpec<KindId>| spec.initial@));
        }
        Ok(StockFlowSystem { stocks, ids, stock_kinds, kinds, engine, history: Vec::new() })
    }
}

/// Layouts agree on proposals with the same endpoints and processes.
proof fn lemma_same_layout<P, Q>(
    topology: FlowTopology<Held>,
    ids: Seq<StockId>,
    stock_kinds: Seq<usize>,
    kinds: Seq<Held>,
    first: Seq<ProposedFlow<P>>,
    second: Seq<ProposedFlow<Q>>,
)
    requires
        first.len() == second.len(),
        forall|f: int| 0 <= f < first.len() ==> (#[trigger] first[f]).source == second[f].source && first[f].target
            == second[f].target && first[f].process == second[f].process,
    ensures
        batch_layout(topology, ids, stock_kinds, kinds, first) == batch_layout(topology, ids, stock_kinds, kinds, second),
{
    assert forall|f: int| 0 <= f < first.len() implies (#[trigger] first[f]).source == second[f].source by {}
}

impl StockFlowSystem {
    /// Validates and atomically settles one simultaneous batch.
    ///
    /// Proposals are checked in order: a negative amount, then the flow's
    /// endpoints. All withdrawals from a stock share one scale: one when they
    /// fit in what it holds, else what it holds over their total, so no stock
    /// goes below zero. Inputs count only after the batch. On any error the
    /// system is unchanged.
    pub fn settle(&mut self, proposals: &[ProposedFlow<KindId>]) -> (result: Result<SettlementReport<KindId>, StockFlowError<KindId>>)
        ensures
            final(self).stock_definitions() == old(self).stock_definitions(),
            result is Ok <==> proposals_valid(old(self).stock_definitions(), proposals@),
            match result {
                Ok(report) => {
                    let engine = old(self).engine();
                    let amounts = engine.state_spec().amount_values();
                    let requested = proposal_amounts(proposals@);
                    &&& report.flow_seq().len() == proposals@.len()
                    &&& final(self).history_seq().len() == old(self).history_seq().len() + proposals@.len()
                    &&& forall|i: int| 0 <= i < old(self).history_seq().len() ==> #[trigger] final(self).history_seq()[i]
                        == old(self).history_seq()[i]
                    &&& forall|s: int| 0 <= s < final(self).amount_values().len() ==> #[trigger] final(self).amount_values()[s] >= 0real
                    &&& forall|i: int| 0 <= i < proposals@.len() ==> same_applied(
                        #[trigger] final(self).history_seq()[old(self).history_seq().len() + i],
                        report.flow_seq()[i],
                    )
                    &&& exists|topology: FlowTopology<Held>| #[trigger] batch_layout(
                        topology,
                        engine.stock_ids(),
                        engine.stock_kind_seq(),
                        engine.kind_seq(),
                        proposals@,
                    )
                    &&& forall|topology: FlowTopology<Held>| #[trigger] batch_layout(
                        topology,
                        engine.stock_ids(),
                        engine.stock_kind_seq(),
                        engine.kind_seq(),
                        proposals@,
                    ) ==> {
                        &&& forall|i: int| 0 <= i < proposals@.len() ==> reports_proposal(
                            #[trigger] report.flow_seq()[i],
                            proposals@[i],
                            applied_amounts(topology, amounts, requested)[i],
                        )
                        &&& forall|i: int| 0 <= i < proposals@.len() ==> reports_proposal(
                            #[trigger] final(self).history_seq()[old(self).history_seq().len() + i],
                            proposals@[i],
                            applied_amounts(topology, amounts, requested)[i],
                        )
                        &&& final(self).amount_values() == settled_amounts(topology, amounts, requested)
                        &&& final(self).engine().state_spec().input_values() == Seq::new(
                            engine.kind_seq().len(),
                            |k: int| engine.state_spec().input_values()[k] + batch_inputs(topology, amounts, requested)[k],
                        )
                        &&& final(self).engine().state_spec().output_values() == Seq::new(
                            engine.kind_seq().len(),
                            |k: int| engine.state_spec().output_values()[k] + batch_outputs(topology, amounts, requested)[k],
                        )
                    }
                },
                Err(error) => *final(self) == *old(self) && proposal_error(old(self).stock_definitions(), proposals@, error),
            },
    {
        proof {
            use_type_invariant(&*self);
        }
        let ghost stocks = self.stocks@;
        let ghost held_stocks_seq = self.engine.stock_definitions();
        let mut held: Vec<ProposedFlow<Held>> = Vec::new();
        let mut i: usize = 0;
        while i < proposals.len()
            invariant
                stocks == self.stocks@,
                held_stocks_seq == self.engine.stock_definitions(),
                stocks.len() > 0,
                distinct_stock_definitions(stocks),
                stocks_compiled(stocks, stocks.len() as int, self.ids@, self.stock_kinds@, self.kinds@),
                held_stocks(stocks, held_stocks_seq),
                i <= proposals@.len(),
                held@.len() == i,
                forall|j: int| 0 <= j < i ==> proposal_valid(stocks, #[trigger] proposals@[j]),
                forall|j: int| 0 <= j < i ==> proposal_valid(held_stocks_seq, #[trigger] held@[j]),
                forall|j: int| 0 <= j < i ==> {
                    let h = #[trigger] held@[j];
                    &&& h.process == proposals@[j].process
                    &&& h.kind.kind == proposals@[j].kind
                    &&& h.source == proposals@[j].source
                    &&& h.target == proposals@[j].target
                    &&& h.amount@ == proposals@[j].amount@
                },
            decreases proposals.len() - i,
        {
            let proposal = &proposals[i];
            if proposal.amount.is_negative() {
                proof {
                    assert(proposals@[i as int].amount@ < 0real);
                }
                return Err(StockFlowError::NegativeAmount);
            }
            let flow = FlowSpec {
                process: proposal.process.clone(),
                kind: proposal.kind.clone(),
                source: copy_endpoint(&proposal.source),
                target: copy_endpoint(&proposal.target),
            };
            match compile_endpoints(&flow, &self.stocks, &self.ids, &self.stock_kinds, &self.kinds) {
                Ok(_) => {},
                Err(error) => {
                    proof {
                        assert(flow_error(stocks, proposal_flow(proposals@[i as int]), error));
                    }
                    return Err(error);
                },
            }
            let next = ProposedFlow {
                process: proposal.process.clone(),
                kind: Held { kind: proposal.kind.clone() },
                source: copy_endpoint(&proposal.source),
                target: copy_endpoint(&proposal.target),
                amount: proposal.amount.clone(),
            };
            proof {
                assert(flow_spec_valid(stocks, proposal_flow(proposals@[i as int])));
                lemma_held_valid(stocks, held_stocks_seq, proposals@[i as int]);
                assert(proposal_flow(next) == proposal_flow(ProposedFlow {
                    process: proposals@[i as int].process,
                    kind: Held { kind: proposals@[i as int].kind },
                    source: proposals@[i as int].source,
                    target: proposals@[i as int].target,
                    amount: proposals@[i as int].amount,
                }));
            }
            held.push(next);
            i += 1;
        }
        let ghost engine_before = self.engine;
        let ghost amounts = self.engine.state_spec().amount_values();
        let ghost requested = proposal_amounts(proposals@);
        proof {
            assert(proposal_amounts(held@) =~= requested);
            assert forall|topology: FlowTopology<Held>| #[trigger] batch_layout(
                topology,
                engine_before.stock_ids(),
                engine_before.stock_kind_seq(),
                engine_before.kind_seq(),
                held@,
            ) implies batch_accepted(topology, amounts, proposal_amounts(held@)) by {
                assert forall|s: int| 0 <= s < amounts.len() implies !#[trigger] crate::exact::refused_at(
                    topology,
                    amounts,
                    proposal_amounts(held@),
                    s,
                ) by {
                    if crate::exact::refused_at(topology, amounts, proposal_amounts(held@), s) {
                        let f = choose|f: int| crate::exact::refusing_flow(topology, proposal_amounts(held@), s, f);
                        assert(topology.flow_seq()[f] == topology.flow_seq()[f]);
                    }
                }
                assert forall|f: int| 0 <= f < proposal_amounts(held@).len() implies #[trigger] proposal_amounts(held@)[f] >= 0real by {
                    assert(proposal_valid(held_stocks_seq, held@[f]));
                }
            }
            assert forall|topology: FlowTopology<Held>| #[trigger] batch_layout(
                topology,
                engine_before.stock_ids(),
                engine_before.stock_kind_seq(),
                engine_before.kind_seq(),
                held@,
            ) == batch_layout(topology, engine_before.stock_ids(), engine_before.stock_kind_seq(), engine_before.kind_seq(), proposals@) by {
                lemma_same_layout(topology, engine_before.stock_ids(), engine_before.stock_kind_seq(), engine_before.kind_seq(), held@, proposals@);
            }
        }
        let mut engine = self.engine.clone();
        std::mem::swap(&mut engine, &mut self.engine);
        let settled = engine.settle(held.as_slice());
        self.engine = engine;
        let report = match settled {
            Ok(report) => report,
            Err(error) => {
                proof {
                    assert(false);
                }
                return Err(StockFlowError::NegativeAmount);
            },
        };
        self.engine.check_state();
        let ghost engine_report = report.flow_seq();
        let mut history: Vec<AppliedFlow<KindId>> = Vec::new();
        std::mem::swap(&mut history, &mut self.history);
        let ghost old_history = history@;
        let flows = report.flows();
        let mut named: Vec<AppliedFlow<KindId>> = Vec::new();
        let mut i: usize = 0;
        while i < flows.len()
            invariant
                flows@ == engine_report,
                i <= flows@.len(),
                named@.len() == i,
                history@.len() == old_history.len() + i,
                forall|j: int| 0 <= j < old_history.len() ==> #[trigger] history@[j] == old_history[j],
                forall|j: int| 0 <= j < i ==> {
                    let n = #[trigger] named@[j];
                    &&& n.process == flows@[j].process
                    &&& n.kind@ == flows@[j].kind.kind@
                    &&& n.source == flows@[j].source
                    &&& n.target == flows@[j].target
                    &&& n.requested@ == flows@[j].requested@
                    &&& n.applied@ == flows@[j].applied@
                    &&& n.role == flows@[j].role
                },
                forall|j: int| 0 <= j < i ==> {
                    let n = #[trigger] history@[old_history.len() + j];
                    &&& n.process == flows@[j].process
                    &&& n.kind@ == flows@[j].kind.kind@
                    &&& n.source == flows@[j].source
                    &&& n.target == flows@[j].target
                    &&& n.requested@ == flows@[j].requested@
                    &&& n.applied@ == flows@[j].applied@
                    &&& n.role == flows@[j].role
                },
            decreases flows.len() - i,
        {
            let flow = &flows[i];
            named.push(AppliedFlow {
                process: flow.process.clone(),
                kind: flow.kind.kind.clone(),
                source: copy_endpoint(&flow.source),
                target: copy_endpoint(&flow.target),
                requested: flow.requested.clone(),
                applied: flow.applied.clone(),
                role: flow.role,
            });
            history.push(AppliedFlow {
                process: flow.process.clone(),
                kind: flow.kind.kind.clone(),
                source: copy_endpoint(&flow.source),
                target: copy_endpoint(&flow.target),
                requested: flow.requested.clone(),
                applied: flow.applied.clone(),
                role: flow.role,
            });
            i += 1;
        }
        self.history = history;
        proof {
            let engine = self.engine;
            assert forall|topology: FlowTopology<Held>| #[trigger] batch_layout(
                topology,
                engine_before.stock_ids(),
                engine_before.stock_kind_seq(),
                engine_before.kind_seq(),
                proposals@,
            ) implies {
                &&& forall|i: int| 0 <= i < proposals@.len() ==> reports_proposal(
                    #[trigger] named@[i],
                    proposals@[i],
                    applied_amounts(topology, amounts, requested)[i],
                )
                &&& forall|i: int| 0 <= i < proposals@.len() ==> reports_proposal(
                    #[trigger] self.history@[old_history.len() + i],
                    proposals@[i],
                    applied_amounts(topology, amounts, requested)[i],
                )
                &&& self.engine.state_spec().amount_values() == settled_amounts(topology, amounts, requested)
                &&& self.engine.state_spec().input_values() == Seq::new(
                    engine_before.kind_seq().len(),
                    |k: int| engine_before.state_spec().input_values()[k] + batch_inputs(topology, amounts, requested)[k],
                )
                &&& self.engine.state_spec().output_values() == Seq::new(
                    engine_before.kind_seq().len(),
                    |k: int| engine_before.state_spec().output_values()[k] + batch_outputs(topology, amounts, requested)[k],
                )
            } by {
                lemma_same_layout(topology, engine_before.stock_ids(), engine_before.stock_kind_seq(), engine_before.kind_seq(), held@, proposals@);
                assert(batch_layout(topology, engine_before.stock_ids(), engine_before.stock_kind_seq(), engine_before.kind_seq(), held@));
                assert(proposal_amounts(held@) == requested);
                assert forall|i: int| 0 <= i < proposals@.len() implies reports_proposal(
                    #[trigger] named@[i],
                    proposals@[i],
                    applied_amounts(topology, amounts, requested)[i],
                ) by {
                    assert(reports_proposal(engine_report[i], held@[i], applied_amounts(topology, amounts, proposal_amounts(held@))[i]));
                }
                assert forall|i: int| 0 <= i < proposals@.len() implies reports_proposal(
                    #[trigger] self.history@[old_history.len() + i],
                    proposals@[i],
                    applied_amounts(topology, amounts, requested)[i],
                ) by {
                    assert(reports_proposal(engine_report[i], held@[i], applied_amounts(topology, amounts, proposal_amounts(held@))[i]));
                }
            }
            assert forall|s: int| 0 <= s < self.amount_values().len() implies #[trigger] self.amount_values()[s] >= 0real by {
                assert(engine.state_spec().topology_spec().stock_floor(s) == engine.stock_definitions()[s].kind.floor_value());
            }
            assert(proposals_valid(held_stocks_seq, held@));
            let topology = choose|topology: FlowTopology<Held>| batch_layout(
                topology,
                engine_before.stock_ids(),
                engine_before.stock_kind_seq(),
                engine_before.kind_seq(),
                held@,
            );
            lemma_same_layout(topology, engine_before.stock_ids(), engine_before.stock_kind_seq(), engine_before.kind_seq(), held@, proposals@);
            assert(batch_layout(topology, engine_before.stock_ids(), engine_before.stock_kind_seq(), engine_before.kind_seq(), proposals@));
            assert(named@.len() == proposals@.len());
            assert forall|i: int| 0 <= i < proposals@.len() implies same_applied(
                #[trigger] self.history@[old_history.len() + i],
                named@[i],
            ) by {
                assert(named@[i].process == flows@[i].process);
                assert(self.history@[old_history.len() + i].process == flows@[i].process);
            }
        }
        Ok(SettlementReport::from_flows(named))
    }

    /// Returns the exact amount in a declared stock.
    pub fn amount(&self, stock: &StockId) -> (result: Option<&Rational>)
        ensures
            match result {
                Some(amount) => exists|i: int|
                    0 <= i < self.engine().stock_ids().len() && (#[trigger] self.engine().stock_ids()[i])@ == stock@ && amount@
                        == self.amount_values()[i],
                None => forall|i: int| 0 <= i < self.engine().stock_ids().len() ==> (#[trigger] self.engine().stock_ids()[i])@ != stock@,
            },
    {
        let result = self.engine.amount(stock);
        proof {
            if let Some(amount) = result {
                let i = choose|i: int|
                    0 <= i < self.engine.stock_ids().len() && (#[trigger] self.engine.stock_ids()[i])@ == stock@ && amount@
                        == self.engine.state_spec().amount_values()[i];
                assert(self.engine().stock_ids()[i]@ == stock@);
            }
        }
        result
    }

    /// Returns the current total of a conserved kind.
    pub fn total(&self, kind: &KindId) -> (result: Rational)
        ensures
            result@ == in_kind(
                self.engine().state_spec().topology_spec(),
                Seq::new(
                    self.engine().kind_seq().len(),
                    |k: int| total_of(self.engine().state_spec().topology_spec(), self.amount_values(), k),
                ),
                Held { kind: *kind },
            ),
    {
        self.engine.total(Held { kind: kind.clone() })
    }

    /// Returns cumulative boundary input for a kind.
    pub fn inputs(&self, kind: &KindId) -> (result: Rational)
        ensures
            result@ == in_kind(self.engine().state_spec().topology_spec(), self.engine().state_spec().input_values(), Held { kind: *kind }),
    {
        self.engine.inputs(Held { kind: kind.clone() })
    }

    /// Returns cumulative boundary output for a kind.
    pub fn outputs(&self, kind: &KindId) -> (result: Rational)
        ensures
            result@ == in_kind(self.engine().state_spec().topology_spec(), self.engine().state_spec().output_values(), Held { kind: *kind }),
    {
        self.engine.outputs(Held { kind: kind.clone() })
    }

    /// Returns `initial + inputs - outputs - current` exactly: always zero.
    pub fn balance_residual(&self, kind: &KindId) -> (result: Rational)
        ensures
            result@ == 0real,
    {
        self.engine.balance_residual(Held { kind: kind.clone() })
    }

    /// Returns all accepted flows across batches.
    pub fn history(&self) -> (result: &[AppliedFlow<KindId>])
        ensures
            result@ == self.history_seq(),
    {
        self.history.as_slice()
    }
}

impl Clone for StockFlowSystem {
    fn clone(&self) -> (result: Self)
        ensures
            result.stock_definitions() == self.stock_definitions(),
            result.amount_values() == self.amount_values(),
            result.history_seq().len() == self.history_seq().len(),
    {
        proof {
            use_type_invariant(self);
        }
        let mut stocks: Vec<StockDefinition<KindId>> = Vec::new();
        let mut i: usize = 0;
        while i < self.stocks.len()
            invariant
                i <= self.stocks@.len(),
                stocks@ == self.stocks@.take(i as int),
            decreases self.stocks.len() - i,
        {
            stocks.push(StockDefinition { id: self.stocks[i].id.clone(), kind: self.stocks[i].kind.clone() });
            proof {
                assert(stocks@ =~= self.stocks@.take(i + 1));
            }
            i += 1;
        }
        proof {
            assert(stocks@ =~= self.stocks@);
        }
        let (ids, stock_kinds, kinds) = copy_tables(&self.ids, &self.stock_kinds, &self.kinds);
        proof {
            assert(crate::dynamics::distinct_kinds(kinds@)) by {
                assert forall|a: int, b: int| 0 <= a < b < kinds@.len() implies (#[trigger] kinds@[a]).identity()
                    != (#[trigger] kinds@[b]).identity() by {
                    assert(self.kinds@[a].identity() != self.kinds@[b].identity());
                }
            }
            assert forall|j: int| 0 <= j < stocks@.len() implies {
                let kind = #[trigger] kinds@[stock_kinds@[j] as int];
                &&& kind.identity() == stocks@[j].kind.identity()
                &&& kind.floor_value() == stocks@[j].kind.floor_value()
                &&& kind.difference_identity() == stocks@[j].kind.difference_identity()
            } by {
                assert(self.stock_kinds@[j] < self.kinds@.len());
            }
        }
        let engine = self.engine.clone();
        let mut history: Vec<AppliedFlow<KindId>> = Vec::new();
        let mut i: usize = 0;
        while i < self.history.len()
            invariant
                i <= self.history@.len(),
                history@.len() == i,
            decreases self.history.len() - i,
        {
            history.push(copy_applied(&self.history[i]));
            i += 1;
        }
        StockFlowSystem { stocks, ids, stock_kinds, kinds, engine, history }
    }
}

} // verus!
