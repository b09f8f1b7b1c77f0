//! Exact-rational settlement over a compiled topology.
//!
//! A batch requests one amount per flow slot. Every request is evaluated
//! against the same pre-settlement amounts: withdrawals from a floored stock
//! that would take it below its floor share one proportional scale when every
//! process drawing on it rations, and the batch is refused otherwise. Inputs
//! arrive after the batch, so they never fund a withdrawal in the same batch.
use crate::dynamics::{flow_well_formed, same_layout, CompiledFlow, FlowTopology, Rationing, StockFlowError};
use crate::system::{AppliedFlow, SettlementReport};
use crate::ident::{ProcessId, StockId};
use crate::kind::Kind;
use crate::rational::Rational;
use std::sync::Arc;
use crate::text::{lemma_text_lt_transitive, text_lt};
use vstd::prelude::*;

verus! {

/// The exact values of a sequence of rationals.
pub open spec fn reals(values: Seq<Rational>) -> Seq<real> {
    values.map_values(|value: Rational| value@)
}

/// The sum of `values[f]` over the first `count` flows that `selects` picks.
pub open spec fn flow_sum(
    flows: Seq<CompiledFlow>,
    values: Seq<real>,
    selects: spec_fn(CompiledFlow) -> bool,
    count: int,
) -> real
    decreases count,
{
    if count <= 0 {
        0real
    } else {
        flow_sum(flows, values, selects, count - 1) + if selects(flows[count - 1]) {
            values[count - 1]
        } else {
            0real
        }
    }
}

/// Selects the flows that withdraw from stock `stock`.
pub open spec fn draws_on(stock: int) -> spec_fn(CompiledFlow) -> bool {
    |flow: CompiledFlow| flow.source_spec() matches Some(source) && source == stock
}

/// Selects the flows that deliver to stock `stock`.
pub open spec fn feeds(stock: int) -> spec_fn(CompiledFlow) -> bool {
    |flow: CompiledFlow| flow.target_spec() matches Some(target) && target == stock
}

/// Selects the boundary inputs into balances of kind index `kind`.
pub open spec fn enters(kind: int) -> spec_fn(CompiledFlow) -> bool {
    |flow: CompiledFlow| flow.source_spec() is None && flow.kind_spec() == kind
}

/// Selects the boundary outputs from balances of kind index `kind`.
pub open spec fn leaves(kind: int) -> spec_fn(CompiledFlow) -> bool {
    |flow: CompiledFlow| flow.target_spec() is None && flow.kind_spec() == kind
}

/// The sum of the first `count` amounts whose stock has kind index `kind`.
pub open spec fn kind_total(stock_kinds: Seq<usize>, amounts: Seq<real>, kind: int, count: int) -> real
    decreases count,
{
    if count <= 0 {
        0real
    } else {
        kind_total(stock_kinds, amounts, kind, count - 1) + if stock_kinds[count - 1] == kind {
            amounts[count - 1]
        } else {
            0real
        }
    }
}

/// The current total of kind index `kind` over all stocks of a topology.
pub open spec fn total_of<K: Kind>(topology: FlowTopology<K>, amounts: Seq<real>, kind: int) -> real {
    kind_total(topology.stock_kind_seq(), amounts, kind, topology.stock_ids().len() as int)
}

/// Total amount requested from stock `stock`.
pub open spec fn withdrawal<K: Kind>(topology: FlowTopology<K>, requested: Seq<real>, stock: int) -> real {
    flow_sum(topology.flow_seq(), requested, draws_on(stock), topology.flow_seq().len() as int)
}

/// The common scale of the withdrawals from `stock`, when the batch is not refused:
/// one unless the withdrawals would take a floored stock below its floor, and
/// then the share `(available - floor) / withdrawal` that takes it exactly to the floor.
pub open spec fn source_scale<K: Kind>(
    topology: FlowTopology<K>,
    amounts: Seq<real>,
    requested: Seq<real>,
    stock: int,
) -> real {
    let w = withdrawal(topology, requested, stock);
    match topology.stock_floor(stock) {
        None => 1real,
        Some(floor) => if w == 0real || w <= amounts[stock] - floor {
            1real
        } else {
            (amounts[stock] - floor) / w
        },
    }
}

/// Whether flow `f` is a positive withdrawal from `stock` by a refusing process.
pub open spec fn refusing_flow<K: Kind>(
    topology: FlowTopology<K>,
    requested: Seq<real>,
    stock: int,
    f: int,
) -> bool {
    let flow = topology.flow_seq()[f];
    &&& 0 <= f < topology.flow_seq().len()
    &&& flow.source_spec() matches Some(source) && source == stock
    &&& requested[f] > 0real
    &&& topology.rationing_seq()[flow.process_spec() as int] == Rationing::Refuse
}

/// Whether the withdrawals from `stock` would take it below its floor.
pub open spec fn breaches_floor<K: Kind>(
    topology: FlowTopology<K>,
    amounts: Seq<real>,
    requested: Seq<real>,
    stock: int,
) -> bool {
    let w = withdrawal(topology, requested, stock);
    topology.stock_floor(stock) matches Some(floor) && w != 0real && w > amounts[stock] - floor
}

/// Whether the batch is refused at `stock`: its floor would be breached and a
/// refusing process draws on it.
pub open spec fn refused_at<K: Kind>(
    topology: FlowTopology<K>,
    amounts: Seq<real>,
    requested: Seq<real>,
    stock: int,
) -> bool {
    &&& breaches_floor(topology, amounts, requested, stock)
    &&& exists|f: int| refusing_flow(topology, requested, stock, f)
}

/// The identifier of the process of flow `f`.
pub open spec fn flow_process<K: Kind>(topology: FlowTopology<K>, f: int) -> Seq<char> {
    topology.process_ids()[topology.flow_seq()[f].process_spec() as int]@
}

/// Whether `id` is the least process, in identifier order, with a refusing
/// withdrawal from `stock`.
pub open spec fn least_refusing_process<K: Kind>(
    topology: FlowTopology<K>,
    requested: Seq<real>,
    stock: int,
    id: Seq<char>,
) -> bool {
    &&& exists|f: int| refusing_flow(topology, requested, stock, f) && flow_process(topology, f) == id
    &&& forall|f: int| refusing_flow(topology, requested, stock, f) ==> !text_lt(
        #[trigger] flow_process(topology, f),
        id,
    )
}

/// The amount settled for flow `f`.
pub open spec fn applied_amount<K: Kind>(
    topology: FlowTopology<K>,
    amounts: Seq<real>,
    requested: Seq<real>,
    f: int,
) -> real {
    match topology.flow_seq()[f].source_spec() {
        Some(source) => requested[f] * source_scale(topology, amounts, requested, source as int),
        None => requested[f],
    }
}

/// The amounts settled for every flow slot.
pub open spec fn applied_amounts<K: Kind>(
    topology: FlowTopology<K>,
    amounts: Seq<real>,
    requested: Seq<real>,
) -> Seq<real> {
    Seq::new(topology.flow_seq().len(), |f: int| applied_amount(topology, amounts, requested, f))
}

/// The amount in `stock` after the batch: what was available, less what it
/// released, plus what it received.
pub open spec fn settled_amount<K: Kind>(
    topology: FlowTopology<K>,
    amounts: Seq<real>,
    requested: Seq<real>,
    stock: int,
) -> real {
    let applied = applied_amounts(topology, amounts, requested);
    let count = topology.flow_seq().len() as int;
    amounts[stock] - flow_sum(topology.flow_seq(), applied, draws_on(stock), count) + flow_sum(
        topology.flow_seq(),
        applied,
        feeds(stock),
        count,
    )
}

/// The amounts of every stock after the batch.
pub open spec fn settled_amounts<K: Kind>(
    topology: FlowTopology<K>,
    amounts: Seq<real>,
    requested: Seq<real>,
) -> Seq<real> {
    Seq::new(amounts.len(), |stock: int| settled_amount(topology, amounts, requested, stock))
}

/// The boundary input the batch brings into each kind.
pub open spec fn batch_inputs<K: Kind>(
    topology: FlowTopology<K>,
    amounts: Seq<real>,
    requested: Seq<real>,
) -> Seq<real> {
    let applied = applied_amounts(topology, amounts, requested);
    Seq::new(
        topology.kind_seq().len(),
        |kind: int| flow_sum(topology.flow_seq(), applied, enters(kind), topology.flow_seq().len() as int),
    )
}

/// The boundary output the batch takes from each kind.
pub open spec fn batch_outputs<K: Kind>(
    topology: FlowTopology<K>,
    amounts: Seq<real>,
    requested: Seq<real>,
) -> Seq<real> {
    let applied = applied_amounts(topology, amounts, requested);
    Seq::new(
        topology.kind_seq().len(),
        |kind: int| flow_sum(topology.flow_seq(), applied, leaves(kind), topology.flow_seq().len() as int),
    )
}

/// Whether every amount is at or above its stock's floor.
pub open spec fn within_floors<K: Kind>(topology: FlowTopology<K>, amounts: Seq<real>) -> bool {
    forall|stock: int|
        0 <= stock < amounts.len() ==> (#[trigger] topology.stock_floor(stock) matches Some(floor)
            ==> amounts[stock] >= floor)
}

/// A sum of nonnegative selected values is nonnegative.
pub proof fn lemma_flow_sum_nonnegative(
    flows: Seq<CompiledFlow>,
    values: Seq<real>,
    selects: spec_fn(CompiledFlow) -> bool,
    count: int,
)
    requires
        forall|f: int| 0 <= f < count ==> #[trigger] values[f] >= 0real,
    ensures
        flow_sum(flows, values, selects, count) >= 0real,
    decreases count,
{
    if count > 0 {
        lemma_flow_sum_nonnegative(flows, values, selects, count - 1);
        assert(values[count - 1] >= 0real);
    }
}

/// Scaling every selected value by `factor` scales their sum by `factor`.
pub proof fn lemma_flow_sum_scaled(
    flows: Seq<CompiledFlow>,
    values: Seq<real>,
    scaled: Seq<real>,
    selects: spec_fn(CompiledFlow) -> bool,
    factor: real,
    count: int,
)
    requires
        forall|f: int| 0 <= f < count && selects(flows[f]) ==> #[trigger] scaled[f] == values[f] * factor,
    ensures
        flow_sum(flows, scaled, selects, count) == flow_sum(flows, values, selects, count) * factor,
    decreases count,
{
    if count > 0 {
        lemma_flow_sum_scaled(flows, values, scaled, selects, factor, count - 1);
        let before = flow_sum(flows, values, selects, count - 1);
        let term = if selects(flows[count - 1]) {
            values[count - 1]
        } else {
            0real
        };
        if selects(flows[count - 1]) {
            assert(scaled[count - 1] == values[count - 1] * factor);
        }
        assert((before + term) * factor == before * factor + term * factor) by (nonlinear_arith);
    }
}

/// Changing one amount changes the total of its kind by the difference.
pub proof fn lemma_kind_total_update(
    stock_kinds: Seq<usize>,
    amounts: Seq<real>,
    stock: int,
    value: real,
    kind: int,
    count: int,
)
    requires
        0 <= stock < amounts.len(),
        count <= amounts.len(),
    ensures
        kind_total(stock_kinds, amounts.update(stock, value), kind, count) == kind_total(
            stock_kinds,
            amounts,
            kind,
            count,
        ) + if stock < count && stock_kinds[stock] == kind {
            value - amounts[stock]
        } else {
            0real
        },
    decreases count,
{
    if count > 0 {
        lemma_kind_total_update(stock_kinds, amounts, stock, value, kind, count - 1);
    }
}


/// The least process, in identifier order, with a positive withdrawal from
/// `stock` that refuses to be rationed.
fn refusing_process<K: Kind>(
    topology: &FlowTopology<K>,
    stock: usize,
    requested: &[Rational],
) -> (result: Option<ProcessId>)
    requires
        requested@.len() == topology.flow_seq().len(),
    ensures
        match result {
            Some(process) => least_refusing_process(*topology, reals(requested@), stock as int, process@),
            None => !exists|f: int| refusing_flow(*topology, reals(requested@), stock as int, f),
        },
{
    topology.check_well_formed();
    let ghost values = reals(requested@);
    let flows = topology.flows();
    let processes = topology.processes();
    let mut best: Option<ProcessId> = None;
    let mut f: usize = 0;
    while f < flows.len()
        invariant
            topology.well_formed(),
            flows@ == topology.flow_seq(),
            processes@ == topology.process_ids(),
            values == reals(requested@),
            requested@.len() == flows@.len(),
            f <= flows@.len(),
            match best {
                Some(process) => {
                    &&& exists|g: int| 0 <= g < f && refusing_flow(*topology, values, stock as int, g) && flow_process(*topology, g) == process@
                    &&& forall|g: int| 0 <= g < f && refusing_flow(*topology, values, stock as int, g) ==> !text_lt(
                        #[trigger] flow_process(*topology, g),
                        process@,
                    )
                },
                None => forall|g: int| 0 <= g < f ==> !refusing_flow(*topology, values, stock as int, g),
            },
        decreases flows.len() - f,
    {
        let flow = flows[f];
        assert(flow_well_formed(flow, topology.stock_kind_seq(), topology.kind_seq().len() as int, topology.process_ids().len() as int));
        let draws = match flow.source() {
            Some(source) => source == stock,
            None => false,
        };
        if draws && requested[f].is_positive() && topology.process_rationing(flow.process()) == Rationing::Refuse {
            proof {
                assert(refusing_flow(*topology, values, stock as int, f as int));
            }
            let candidate = &processes[flow.process()];
            let replace = match &best {
                Some(process) => candidate.precedes(process),
                None => true,
            };
            if replace {
                proof {
                    if let Some(process) = best {
                        assert forall|g: int| 0 <= g < f + 1 && refusing_flow(*topology, values, stock as int, g) implies !text_lt(
                            #[trigger] flow_process(*topology, g),
                            candidate@,
                        ) by {
                            if g < f && text_lt(flow_process(*topology, g), candidate@) {
                                lemma_text_lt_transitive(flow_process(*topology, g), candidate@, process@);
                            }
                            if g == f {
                                crate::text::lemma_text_lt_irreflexive(candidate@);
                            }
                        }
                    } else {
                        assert forall|g: int| 0 <= g < f + 1 && refusing_flow(*topology, values, stock as int, g) implies !text_lt(
                            #[trigger] flow_process(*topology, g),
                            candidate@,
                        ) by {
                            crate::text::lemma_text_lt_irreflexive(candidate@);
                        }
                    }
                }
                let chosen = candidate.clone();
                proof {
                    assert(flow_process(*topology, f as int) == chosen@);
                    assert(refusing_flow(*topology, values, stock as int, f as int) && flow_process(*topology, f as int) == chosen@);
                }
                best = Some(chosen);
            } else {
                proof {
                    let process = best->0;
                    let g0 = choose|g: int| 0 <= g < f && refusing_flow(*topology, values, stock as int, g) && flow_process(*topology, g) == process@;
                    assert(0 <= g0 < f + 1 && refusing_flow(*topology, values, stock as int, g0) && flow_process(*topology, g0) == process@);
                    assert forall|g: int| 0 <= g < f + 1 && refusing_flow(*topology, values, stock as int, g) implies !text_lt(
                        #[trigger] flow_process(*topology, g),
                        process@,
                    ) by {
                    }
                }
            }
        } else {
            proof {
                assert(!refusing_flow(*topology, values, stock as int, f as int));
            }
        }
        f += 1;
    }
    best
}


/// Whether `error` reports the first stock, in index order, at which the batch
/// is refused: its floor, the amount available before the batch, the total
/// withdrawal, and the least refusing process drawing on it.
pub open spec fn floor_refusal<K: Kind>(
    topology: FlowTopology<K>,
    amounts: Seq<real>,
    requested: Seq<real>,
    error: StockFlowError<K>,
) -> bool {
    match error {
        StockFlowError::BelowFloor { stock, floor, process, available, withdrawal: total } => exists|s: int|
            0 <= s < topology.stock_ids().len() && (forall|earlier: int|
                0 <= earlier < s ==> !#[trigger] refused_at(topology, amounts, requested, earlier))
                && refused_at(topology, amounts, requested, s) && stock@ == topology.stock_ids()[s]@
                && topology.stock_floor(s) == Some((*floor)@) && (*available)@ == amounts[s] && (*total)@
                == withdrawal(topology, requested, s) && least_refusing_process(
                topology,
                requested,
                s,
                process@,
            ),
        _ => false,
    }
}

/// The scale of a stock that starts within its floor is nonnegative.
proof fn lemma_source_scale_nonnegative<K: Kind>(
    topology: FlowTopology<K>,
    amounts: Seq<real>,
    requested: Seq<real>,
    stock: int,
)
    requires
        0 <= stock < amounts.len(),
        within_floors(topology, amounts),
    ensures
        source_scale(topology, amounts, requested, stock) >= 0real,
{
    let w = withdrawal(topology, requested, stock);
    if let Some(floor) = topology.stock_floor(stock) {
        assert(amounts[stock] >= floor);
        if !(w == 0real || w <= amounts[stock] - floor) {
            let headroom = amounts[stock] - floor;
            assert(headroom / w >= 0real) by (nonlinear_arith)
                requires
                    headroom >= 0real,
                    w > headroom,
            ;
        }
    }
}

/// Every applied amount of a batch of nonnegative requests is nonnegative.
proof fn lemma_applied_nonnegative<K: Kind>(topology: FlowTopology<K>, amounts: Seq<real>, requested: Seq<real>)
    requires
        topology.well_formed(),
        amounts.len() == topology.stock_ids().len(),
        requested.len() == topology.flow_seq().len(),
        within_floors(topology, amounts),
        forall|f: int| 0 <= f < requested.len() ==> #[trigger] requested[f] >= 0real,
    ensures
        forall|f: int| 0 <= f < requested.len() ==> #[trigger] applied_amounts(topology, amounts, requested)[f]
            >= 0real,
{
    assert forall|f: int| 0 <= f < requested.len() implies #[trigger] applied_amounts(topology, amounts, requested)[f]
        >= 0real by {
        let flow = topology.flow_seq()[f];
        assert(flow_well_formed(flow, topology.stock_kind_seq(), topology.kind_seq().len() as int, topology.process_ids().len() as int));
        assert(requested[f] >= 0real);
        if let Some(source) = flow.source_spec() {
            lemma_source_scale_nonnegative(topology, amounts, requested, source as int);
            let scale = source_scale(topology, amounts, requested, source as int);
            let request = requested[f];
            assert(request * scale >= 0real) by (nonlinear_arith)
                requires
                    request >= 0real,
                    scale >= 0real,
            ;
        }
    }
}

/// A batch of nonnegative requests that is not refused keeps every floored
/// stock at or above its floor.
pub proof fn lemma_settled_within_floors<K: Kind>(
    topology: FlowTopology<K>,
    amounts: Seq<real>,
    requested: Seq<real>,
)
    requires
        topology.well_formed(),
        amounts.len() == topology.stock_ids().len(),
        requested.len() == topology.flow_seq().len(),
        within_floors(topology, amounts),
        forall|f: int| 0 <= f < requested.len() ==> #[trigger] requested[f] >= 0real,
        forall|s: int| 0 <= s < amounts.len() ==> !#[trigger] refused_at(topology, amounts, requested, s),
    ensures
        within_floors(topology, settled_amounts(topology, amounts, requested)),
{
    let applied = applied_amounts(topology, amounts, requested);
    let flows = topology.flow_seq();
    let count = flows.len() as int;
    let settled = settled_amounts(topology, amounts, requested);
    lemma_applied_nonnegative(topology, amounts, requested);
    assert forall|s: int| 0 <= s < settled.len() implies (#[trigger] topology.stock_floor(s) matches Some(floor)
        ==> settled[s] >= floor) by {
        if let Some(floor) = topology.stock_floor(s) {
            let scale = source_scale(topology, amounts, requested, s);
            assert forall|f: int| 0 <= f < count && draws_on(s)(flows[f]) implies #[trigger] applied[f] == requested[f]
                * scale by {
            }
            lemma_flow_sum_scaled(flows, requested, applied, draws_on(s), scale, count);
            lemma_flow_sum_nonnegative(flows, applied, feeds(s), count);
            let w = withdrawal(topology, requested, s);
            let headroom = amounts[s] - floor;
            assert(amounts[s] >= floor);
            if !(w == 0real || w <= headroom) {
                assert(w * (headroom / w) == headroom) by (nonlinear_arith)
                    requires
                        w != 0real,
                ;
            }
        }
    }
}

/// Whether two topologies agree on everything settlement reads: the stocks
/// and their floors and kinds, and for each flow slot its endpoints, kind,
/// role, process identifier, and that process's rationing.
pub open spec fn settles_alike<K: Kind>(a: FlowTopology<K>, b: FlowTopology<K>) -> bool {
    &&& a.stock_ids().len() == b.stock_ids().len()
    &&& forall|s: int| 0 <= s < a.stock_ids().len() ==> (#[trigger] a.stock_ids()[s])@ == b.stock_ids()[s]@
    &&& a.stock_kind_seq() == b.stock_kind_seq()
    &&& forall|s: int| 0 <= s < a.stock_ids().len() ==> #[trigger] a.stock_floor(s) == b.stock_floor(s)
    &&& a.kind_seq().len() == b.kind_seq().len()
    &&& a.flow_seq().len() == b.flow_seq().len()
    &&& forall|f: int| 0 <= f < a.flow_seq().len() ==> {
        let x = #[trigger] a.flow_seq()[f];
        let y = b.flow_seq()[f];
        &&& x.source_spec() == y.source_spec()
        &&& x.target_spec() == y.target_spec()
        &&& x.kind_spec() == y.kind_spec()
        &&& x.role_spec() == y.role_spec()
        &&& a.rationing_seq()[x.process_spec() as int] == b.rationing_seq()[y.process_spec() as int]
    }
    &&& forall|f: int| 0 <= f < a.flow_seq().len() ==> #[trigger] flow_process(a, f) == flow_process(b, f)
}

/// Sums over flows that select alike are equal.
proof fn lemma_flow_sum_agree(
    first: Seq<CompiledFlow>,
    second: Seq<CompiledFlow>,
    values: Seq<real>,
    selects: spec_fn(CompiledFlow) -> bool,
    count: int,
)
    requires
        forall|f: int| 0 <= f < count ==> selects(#[trigger] first[f]) == selects(second[f]),
    ensures
        flow_sum(first, values, selects, count) == flow_sum(second, values, selects, count),
    decreases count,
{
    if count > 0 {
        lemma_flow_sum_agree(first, second, values, selects, count - 1);
        assert(selects(first[count - 1]) == selects(second[count - 1]));
    }
}

/// Topologies that settle alike settle every batch alike.
pub proof fn lemma_settles_alike<K: Kind>(
    a: FlowTopology<K>,
    b: FlowTopology<K>,
    amounts: Seq<real>,
    requested: Seq<real>,
)
    requires
        a.well_formed(),
        b.well_formed(),
        settles_alike(a, b),
        amounts.len() == a.stock_ids().len(),
    ensures
        forall|s: int| #[trigger] withdrawal(a, requested, s) == withdrawal(b, requested, s),
        applied_amounts(a, amounts, requested) == applied_amounts(b, amounts, requested),
        settled_amounts(a, amounts, requested) == settled_amounts(b, amounts, requested),
        batch_inputs(a, amounts, requested) == batch_inputs(b, amounts, requested),
        batch_outputs(a, amounts, requested) == batch_outputs(b, amounts, requested),
        forall|s: int| 0 <= s < amounts.len() ==> #[trigger] refused_at(a, amounts, requested, s) == refused_at(
            b,
            amounts,
            requested,
            s,
        ),
        batch_accepted(a, amounts, requested) == batch_accepted(b, amounts, requested),
        forall|error: StockFlowError<K>| #[trigger] batch_error(a, amounts, requested, error) == batch_error(
            b,
            amounts,
            requested,
            error,
        ),
{
    let count = a.flow_seq().len() as int;
    assert forall|s: int| #[trigger] withdrawal(a, requested, s) == withdrawal(b, requested, s) by {
        assert forall|f: int| 0 <= f < count implies draws_on(s)(#[trigger] a.flow_seq()[f]) == draws_on(s)(b.flow_seq()[f]) by {
        }
        lemma_flow_sum_agree(a.flow_seq(), b.flow_seq(), requested, draws_on(s), count);
    }
    assert forall|f: int| 0 <= f < count implies #[trigger] applied_amounts(a, amounts, requested)[f] == applied_amounts(
        b,
        amounts,
        requested,
    )[f] by {
        let flow = a.flow_seq()[f];
        assert(flow_well_formed(flow, a.stock_kind_seq(), a.kind_seq().len() as int, a.process_ids().len() as int));
        if let Some(source) = flow.source_spec() {
            assert(a.stock_floor(source as int) == b.stock_floor(source as int));
            assert(withdrawal(a, requested, source as int) == withdrawal(b, requested, source as int));
        }
    }
    let applied = applied_amounts(a, amounts, requested);
    assert(applied =~= applied_amounts(b, amounts, requested));
    assert forall|s: int| 0 <= s < amounts.len() implies #[trigger] settled_amounts(a, amounts, requested)[s]
        == settled_amounts(b, amounts, requested)[s] by {
        assert forall|f: int| 0 <= f < count implies draws_on(s)(#[trigger] a.flow_seq()[f]) == draws_on(s)(b.flow_seq()[f]) by {
        }
        assert forall|f: int| 0 <= f < count implies feeds(s)(#[trigger] a.flow_seq()[f]) == feeds(s)(b.flow_seq()[f]) by {
        }
        lemma_flow_sum_agree(a.flow_seq(), b.flow_seq(), applied, draws_on(s), count);
        lemma_flow_sum_agree(a.flow_seq(), b.flow_seq(), applied, feeds(s), count);
    }
    assert(settled_amounts(a, amounts, requested) =~= settled_amounts(b, amounts, requested));
    assert forall|k: int| 0 <= k < a.kind_seq().len() implies #[trigger] batch_inputs(a, amounts, requested)[k]
        == batch_inputs(b, amounts, requested)[k] by {
        assert forall|f: int| 0 <= f < count implies enters(k)(#[trigger] a.flow_seq()[f]) == enters(k)(b.flow_seq()[f]) by {
        }
        lemma_flow_sum_agree(a.flow_seq(), b.flow_seq(), applied, enters(k), count);
    }
    assert forall|k: int| 0 <= k < a.kind_seq().len() implies #[trigger] batch_outputs(a, amounts, requested)[k]
        == batch_outputs(b, amounts, requested)[k] by {
        assert forall|f: int| 0 <= f < count implies leaves(k)(#[trigger] a.flow_seq()[f]) == leaves(k)(b.flow_seq()[f]) by {
        }
        lemma_flow_sum_agree(a.flow_seq(), b.flow_seq(), applied, leaves(k), count);
    }
    assert(batch_inputs(a, amounts, requested) =~= batch_inputs(b, amounts, requested));
    assert(batch_outputs(a, amounts, requested) =~= batch_outputs(b, amounts, requested));
    assert forall|s: int, f: int| #[trigger] refusing_flow(a, requested, s, f) == refusing_flow(b, requested, s, f) by {
        if 0 <= f < count {
            assert(a.flow_seq()[f].source_spec() == b.flow_seq()[f].source_spec());
        }
    }
    assert forall|s: int| 0 <= s < amounts.len() implies #[trigger] refused_at(a, amounts, requested, s) == refused_at(
        b,
        amounts,
        requested,
        s,
    ) by {
        assert(a.stock_floor(s) == b.stock_floor(s));
        if exists|f: int| refusing_flow(a, requested, s, f) {
            let f = choose|f: int| refusing_flow(a, requested, s, f);
            assert(refusing_flow(b, requested, s, f));
        }
        if exists|f: int| refusing_flow(b, requested, s, f) {
            let f = choose|f: int| refusing_flow(b, requested, s, f);
            assert(refusing_flow(a, requested, s, f));
        }
    }
    if batch_accepted(a, amounts, requested) {
        assert forall|s: int| 0 <= s < amounts.len() implies !#[trigger] refused_at(b, amounts, requested, s) by {
            assert(!refused_at(a, amounts, requested, s));
        }
    }
    if batch_accepted(b, amounts, requested) {
        assert forall|s: int| 0 <= s < amounts.len() implies !#[trigger] refused_at(a, amounts, requested, s) by {
            assert(!refused_at(b, amounts, requested, s));
        }
    }
    assert forall|s: int, id: Seq<char>| #[trigger] least_refusing_process(a, requested, s, id) == least_refusing_process(
        b,
        requested,
        s,
        id,
    ) by {
        if least_refusing_process(a, requested, s, id) {
            let f = choose|f: int| refusing_flow(a, requested, s, f) && flow_process(a, f) == id;
            assert(refusing_flow(b, requested, s, f) && flow_process(b, f) == id);
            assert forall|g: int| refusing_flow(b, requested, s, g) implies !text_lt(#[trigger] flow_process(b, g), id) by {
                assert(refusing_flow(a, requested, s, g));
                assert(!text_lt(flow_process(a, g), id));
            }
        }
        if least_refusing_process(b, requested, s, id) {
            let f = choose|f: int| refusing_flow(b, requested, s, f) && flow_process(b, f) == id;
            assert(refusing_flow(a, requested, s, f) && flow_process(a, f) == id);
            assert forall|g: int| refusing_flow(a, requested, s, g) implies !text_lt(#[trigger] flow_process(a, g), id) by {
                assert(refusing_flow(b, requested, s, g));
                assert(!text_lt(flow_process(b, g), id));
            }
        }
    }
    assert forall|error: StockFlowError<K>| #[trigger] batch_error(a, amounts, requested, error) == batch_error(
        b,
        amounts,
        requested,
        error,
    ) by {
        if let StockFlowError::BelowFloor { stock, floor, process, available, withdrawal: total } = error {
            if floor_refusal(a, amounts, requested, error) {
                let s = choose|s: int|
                    0 <= s < a.stock_ids().len() && (forall|earlier: int|
                        0 <= earlier < s ==> !#[trigger] refused_at(a, amounts, requested, earlier))
                        && refused_at(a, amounts, requested, s) && stock@ == a.stock_ids()[s]@
                        && a.stock_floor(s) == Some((*floor)@) && (*available)@ == amounts[s] && (*total)@
                        == withdrawal(a, requested, s) && least_refusing_process(a, requested, s, process@);
                assert(least_refusing_process(b, requested, s, process@));
                assert forall|earlier: int| 0 <= earlier < s implies !#[trigger] refused_at(b, amounts, requested, earlier) by {
                    assert(!refused_at(a, amounts, requested, earlier));
                }
            }
            if floor_refusal(b, amounts, requested, error) {
                let s = choose|s: int|
                    0 <= s < b.stock_ids().len() && (forall|earlier: int|
                        0 <= earlier < s ==> !#[trigger] refused_at(b, amounts, requested, earlier))
                        && refused_at(b, amounts, requested, s) && stock@ == b.stock_ids()[s]@
                        && b.stock_floor(s) == Some((*floor)@) && (*available)@ == amounts[s] && (*total)@
                        == withdrawal(b, requested, s) && least_refusing_process(b, requested, s, process@);
                assert(least_refusing_process(a, requested, s, process@));
                assert(a.stock_floor(s) == b.stock_floor(s));
                assert forall|earlier: int| 0 <= earlier < s implies !#[trigger] refused_at(a, amounts, requested, earlier) by {
                    assert(!refused_at(b, amounts, requested, earlier));
                }
            }
        }
    }
}

/// `count` exact zeros.
fn zeros(count: usize) -> (result: Vec<Rational>)
    ensures
        result@.len() == count,
        forall|i: int| 0 <= i < count ==> (#[trigger] result@[i])@ == 0real,
{
    let mut result: Vec<Rational> = Vec::new();
    while result.len() < count
        invariant
            result@.len() <= count,
            forall|i: int| 0 <= i < result@.len() ==> (#[trigger] result@[i])@ == 0real,
        decreases count - result.len(),
    {
        result.push(Rational::zero());
    }
    result
}

/// The total requested from each stock.
fn withdrawals<K: Kind>(topology: &FlowTopology<K>, requested: &[Rational]) -> (result: Vec<Rational>)
    requires
        requested@.len() == topology.flow_seq().len(),
    ensures
        result@.len() == topology.stock_ids().len(),
        forall|s: int| 0 <= s < result@.len() ==> (#[trigger] result@[s])@ == withdrawal(*topology, reals(requested@), s),
{
    topology.check_well_formed();
    let ghost values = reals(requested@);
    let flows = topology.flows();
    let mut result = zeros(topology.stocks().len());
    let mut f: usize = 0;
    while f < flows.len()
        invariant
            topology.well_formed(),
            flows@ == topology.flow_seq(),
            values == reals(requested@),
            requested@.len() == flows@.len(),
            f <= flows@.len(),
            result@.len() == topology.stock_ids().len(),
            forall|s: int| 0 <= s < result@.len() ==> (#[trigger] result@[s])@ == flow_sum(flows@, values, draws_on(s), f as int),
        decreases flows.len() - f,
    {
        let flow = flows[f];
        assert(flow_well_formed(flow, topology.stock_kind_seq(), topology.kind_seq().len() as int, topology.process_ids().len() as int));
        let ghost before = result@;
        match flow.source() {
            Some(source) => {
                let next = result[source].add(&requested[f]);
                result.set(source, next);
            },
            None => {},
        }
        proof {
            assert forall|s: int| 0 <= s < result@.len() implies (#[trigger] result@[s])@ == flow_sum(flows@, values, draws_on(s), f + 1) by {
                assert(values[f as int] == requested@[f as int]@);
                if flow.source_spec() != Some(s as usize) {
                    assert(result@[s] == before[s]);
                }
            }
        }
        f += 1;
    }
    result
}

/// The common withdrawal scale of every stock, or the refusal of the first
/// stock whose floor a refusing process would breach.
fn scales<K: Kind>(
    topology: &FlowTopology<K>,
    amounts: &Vec<Rational>,
    requested: &[Rational],
) -> (result: Result<Vec<Rational>, StockFlowError<K>>)
    requires
        amounts@.len() == topology.stock_ids().len(),
        requested@.len() == topology.flow_seq().len(),
        within_floors(*topology, reals(amounts@)),
    ensures
        match result {
            Ok(scales) => {
                &&& scales@.len() == amounts@.len()
                &&& forall|s: int| 0 <= s < scales@.len() ==> (#[trigger] scales@[s])@ == source_scale(
                    *topology,
                    reals(amounts@),
                    reals(requested@),
                    s,
                )
                &&& forall|s: int| 0 <= s < scales@.len() ==> !#[trigger] refused_at(*topology, reals(amounts@), reals(requested@), s)
            },
            Err(error) => floor_refusal(*topology, reals(amounts@), reals(requested@), error),
        },
{
    topology.check_well_formed();
    let ghost a = reals(amounts@);
    let ghost r = reals(requested@);
    let totals = withdrawals(topology, requested);
    let mut result: Vec<Rational> = Vec::new();
    let mut s: usize = 0;
    while s < amounts.len()
        invariant
            topology.well_formed(),
            a == reals(amounts@),
            r == reals(requested@),
            amounts@.len() == topology.stock_ids().len(),
            requested@.len() == topology.flow_seq().len(),
            totals@.len() == amounts@.len(),
            forall|i: int| 0 <= i < totals@.len() ==> (#[trigger] totals@[i])@ == withdrawal(*topology, r, i),
            s <= amounts@.len(),
            result@.len() == s,
            forall|i: int| 0 <= i < s ==> (#[trigger] result@[i])@ == source_scale(*topology, a, r, i),
            forall|i: int| 0 <= i < s ==> !#[trigger] refused_at(*topology, a, r, i),
        decreases amounts.len() - s,
    {
        let kind = topology.stock_kind(s);
        let floor = topology.kinds()[kind].floor();
        let total = &totals[s];
        proof {
            assert(topology.stock_floor(s as int) == topology.kind_seq()[kind as int].floor_value());
            assert(a[s as int] == amounts@[s as int]@);
            assert(total@ == withdrawal(*topology, r, s as int));
        }
        let scale = match floor {
            None => Rational::one(),
            Some(floor) => {
                let headroom = amounts[s].sub(&floor);
                if total.is_zero() || total.le(&headroom) {
                    Rational::one()
                } else {
                    match refusing_process(topology, s, requested) {
                        Some(process) => {
                            let error = StockFlowError::BelowFloor {
                                stock: topology.stocks()[s].clone(),
                                floor: Box::new(floor),
                                process,
                                available: Box::new(amounts[s].clone()),
                                withdrawal: Box::new(total.clone()),
                            };
                            proof {
                                assert(refused_at(*topology, a, r, s as int));
                                assert(0 <= s < topology.stock_ids().len() && (forall|earlier: int|
                                    0 <= earlier < s ==> !#[trigger] refused_at(*topology, a, r, earlier))
                                    && refused_at(*topology, a, r, s as int));
                                assert(topology.stock_floor(s as int) == Some(floor@));
                            }
                            return Err(error);
                        },
                        None => headroom.div(total),
                    }
                }
            },
        };
        proof {
            assert(scale@ == source_scale(*topology, a, r, s as int));
            assert(!refused_at(*topology, a, r, s as int));
        }
        result.push(scale);
        s += 1;
    }
    Ok(result)
}


/// Copies of the values.
pub(crate) fn copies(values: &Vec<Rational>) -> (result: Vec<Rational>)
    ensures
        reals(result@) == reals(values@),
        result@.len() == values@.len(),
{
    let mut result: Vec<Rational> = Vec::new();
    let mut i: usize = 0;
    while i < values.len()
        invariant
            i <= values@.len(),
            result@.len() == i,
            forall|j: int| 0 <= j < i ==> (#[trigger] result@[j])@ == values@[j]@,
        decreases values.len() - i,
    {
        result.push(values[i].clone());
        i += 1;
    }
    assert(reals(result@) =~= reals(values@));
    result
}

/// The outcome of one accepted batch.
struct Batch {
    amounts: Vec<Rational>,
    inputs: Vec<Rational>,
    outputs: Vec<Rational>,
    applied: Vec<Rational>,
}

/// Applies every flow at its stock's scale: the settled amounts, the boundary
/// inputs and outputs per kind, and the applied amount of each flow.
fn apply_flows<K: Kind>(
    topology: &FlowTopology<K>,
    amounts: &Vec<Rational>,
    requested: &[Rational],
    scales: &Vec<Rational>,
) -> (result: Batch)
    requires
        amounts@.len() == topology.stock_ids().len(),
        requested@.len() == topology.flow_seq().len(),
        scales@.len() == amounts@.len(),
        forall|s: int| 0 <= s < scales@.len() ==> (#[trigger] scales@[s])@ == source_scale(
            *topology,
            reals(amounts@),
            reals(requested@),
            s,
        ),
    ensures
        reals(result.applied@) == applied_amounts(*topology, reals(amounts@), reals(requested@)),
        reals(result.amounts@) == settled_amounts(*topology, reals(amounts@), reals(requested@)),
        reals(result.inputs@) == batch_inputs(*topology, reals(amounts@), reals(requested@)),
        reals(result.outputs@) == batch_outputs(*topology, reals(amounts@), reals(requested@)),
        forall|k: int| 0 <= k < topology.kind_seq().len() ==> #[trigger] total_of(*topology, reals(result.amounts@), k)
            == total_of(*topology, reals(amounts@), k) + batch_inputs(*topology, reals(amounts@), reals(requested@))[k]
            - batch_outputs(*topology, reals(amounts@), reals(requested@))[k],
{
    topology.check_well_formed();
    let ghost a = reals(amounts@);
    let ghost r = reals(requested@);
    let ghost applied_spec = applied_amounts(*topology, a, r);
    let ghost stock_kinds = topology.stock_kind_seq();
    let ghost stock_count = topology.stock_ids().len() as int;
    let flows = topology.flows();
    let kind_count = topology.kinds().len();
    let mut next = copies(amounts);
    let mut inputs = zeros(kind_count);
    let mut outputs = zeros(kind_count);
    let mut applied: Vec<Rational> = Vec::new();
    proof {
        assert forall|k: int| 0 <= k < kind_count implies kind_total(stock_kinds, reals(next@), k, stock_count)
            == kind_total(stock_kinds, a, k, stock_count) + (#[trigger] inputs@[k])@ - outputs@[k]@ by {
            assert(inputs@[k]@ == 0real);
            assert(outputs@[k]@ == 0real);
        }
    }
    let mut f: usize = 0;
    while f < flows.len()
        invariant
            topology.well_formed(),
            flows@ == topology.flow_seq(),
            a == reals(amounts@),
            r == reals(requested@),
            applied_spec == applied_amounts(*topology, a, r),
            stock_kinds == topology.stock_kind_seq(),
            stock_count == topology.stock_ids().len(),
            kind_count == topology.kind_seq().len(),
            amounts@.len() == stock_count,
            requested@.len() == flows@.len(),
            scales@.len() == stock_count,
            forall|s: int| 0 <= s < scales@.len() ==> (#[trigger] scales@[s])@ == source_scale(*topology, a, r, s),
            f <= flows@.len(),
            applied@.len() == f,
            forall|g: int| 0 <= g < f ==> (#[trigger] applied@[g])@ == applied_spec[g],
            next@.len() == stock_count,
            forall|s: int| 0 <= s < stock_count ==> (#[trigger] next@[s])@ == a[s] - flow_sum(
                flows@,
                applied_spec,
                draws_on(s),
                f as int,
            ) + flow_sum(flows@, applied_spec, feeds(s), f as int),
            inputs@.len() == kind_count,
            outputs@.len() == kind_count,
            forall|k: int| 0 <= k < kind_count ==> (#[trigger] inputs@[k])@ == flow_sum(flows@, applied_spec, enters(k), f as int),
            forall|k: int| 0 <= k < kind_count ==> (#[trigger] outputs@[k])@ == flow_sum(flows@, applied_spec, leaves(k), f as int),
            forall|k: int| 0 <= k < kind_count ==> kind_total(stock_kinds, reals(next@), k, stock_count)
                == kind_total(stock_kinds, a, k, stock_count) + (#[trigger] inputs@[k])@ - outputs@[k]@,
        decreases flows.len() - f,
    {
        let flow = flows[f];
        assert(flow_well_formed(flow, stock_kinds, kind_count as int, topology.process_ids().len() as int));
        let kind = flow.kind();
        let amount = match flow.source() {
            Some(source) => requested[f].mul(&scales[source]),
            None => requested[f].clone(),
        };
        proof {
            assert(r[f as int] == requested@[f as int]@);
            assert(applied_spec[f as int] == applied_amount(*topology, a, r, f as int));
            assert(amount@ == applied_spec[f as int]);
        }
        let ghost x = amount@;
        let ghost start = reals(next@);
        let ghost start_inputs = inputs@;
        let ghost start_outputs = outputs@;
        match flow.source() {
            Some(source) => {
                let value = next[source].sub(&amount);
                next.set(source, value);
                proof {
                    assert(reals(next@) =~= start.update(source as int, start[source as int] - x));
                }
            },
            None => {
                let value = inputs[kind].add(&amount);
                inputs.set(kind, value);
                proof {
                    assert(reals(next@) =~= start);
                }
            },
        }
        let ghost middle = reals(next@);
        let ghost middle_next = next@;
        match flow.target() {
            Some(target) => {
                let value = next[target].add(&amount);
                next.set(target, value);
                proof {
                    assert(reals(next@) =~= middle.update(target as int, middle[target as int] + x));
                }
            },
            None => {
                let value = outputs[kind].add(&amount);
                outputs.set(kind, value);
                proof {
                    assert(reals(next@) =~= middle);
                }
            },
        }
        applied.push(amount);
        proof {
            assert forall|g: int| 0 <= g < f + 1 implies (#[trigger] applied@[g])@ == applied_spec[g] by {
            }
            assert forall|s: int| 0 <= s < stock_count implies (#[trigger] next@[s])@ == a[s] - flow_sum(
                flows@,
                applied_spec,
                draws_on(s),
                f + 1,
            ) + flow_sum(flows@, applied_spec, feeds(s), f + 1) by {
                assert(start[s] == a[s] - flow_sum(flows@, applied_spec, draws_on(s), f as int)
                    + flow_sum(flows@, applied_spec, feeds(s), f as int));
                assert(next@[s]@ == reals(next@)[s]);
            }
            assert forall|k: int| 0 <= k < kind_count implies (#[trigger] inputs@[k])@ == flow_sum(flows@, applied_spec, enters(k), f + 1) by {
                assert(start_inputs[k]@ == flow_sum(flows@, applied_spec, enters(k), f as int));
            }
            assert forall|k: int| 0 <= k < kind_count implies (#[trigger] outputs@[k])@ == flow_sum(flows@, applied_spec, leaves(k), f + 1) by {
                assert(start_outputs[k]@ == flow_sum(flows@, applied_spec, leaves(k), f as int));
            }
            assert forall|k: int| 0 <= k < kind_count implies kind_total(stock_kinds, reals(next@), k, stock_count)
                == kind_total(stock_kinds, a, k, stock_count) + (#[trigger] inputs@[k])@ - outputs@[k]@ by {
                assert(kind_total(stock_kinds, start, k, stock_count) == kind_total(stock_kinds, a, k, stock_count)
                    + start_inputs[k]@ - start_outputs[k]@);
                if let Some(source) = flow.source_spec() {
                    lemma_kind_total_update(stock_kinds, start, source as int, start[source as int] - x, k, stock_count);
                }
                if let Some(target) = flow.target_spec() {
                    lemma_kind_total_update(stock_kinds, middle, target as int, middle[target as int] + x, k, stock_count);
                }
            }
        }
        f += 1;
    }
    proof {
        assert(reals(applied@) =~= applied_spec);
        assert(reals(next@) =~= settled_amounts(*topology, a, r));
        assert(reals(inputs@) =~= batch_inputs(*topology, a, r));
        assert(reals(outputs@) =~= batch_outputs(*topology, a, r));
    }
    Batch { amounts: next, inputs, outputs, applied }
}


/// Each kind's total over the given amounts.
fn totals<K: Kind>(topology: &FlowTopology<K>, amounts: &Vec<Rational>) -> (result: Vec<Rational>)
    requires
        amounts@.len() == topology.stock_ids().len(),
    ensures
        result@.len() == topology.kind_seq().len(),
        forall|k: int| 0 <= k < result@.len() ==> (#[trigger] result@[k])@ == total_of(*topology, reals(amounts@), k),
{
    topology.check_well_formed();
    let ghost a = reals(amounts@);
    let mut result = zeros(topology.kinds().len());
    let mut s: usize = 0;
    while s < amounts.len()
        invariant
            topology.well_formed(),
            a == reals(amounts@),
            amounts@.len() == topology.stock_ids().len(),
            s <= amounts@.len(),
            result@.len() == topology.kind_seq().len(),
            forall|k: int| 0 <= k < result@.len() ==> (#[trigger] result@[k])@ == kind_total(
                topology.stock_kind_seq(),
                a,
                k,
                s as int,
            ),
        decreases amounts.len() - s,
    {
        let kind = topology.stock_kind(s);
        let ghost before = result@;
        let value = result[kind].add(&amounts[s]);
        result.set(kind, value);
        proof {
            assert forall|k: int| 0 <= k < result@.len() implies (#[trigger] result@[k])@ == kind_total(
                topology.stock_kind_seq(),
                a,
                k,
                s + 1,
            ) by {
                assert(a[s as int] == amounts@[s as int]@);
                if k != kind {
                    assert(result@[k] == before[k]);
                }
            }
        }
        s += 1;
    }
    result
}

/// The sum of each account and its increment.
fn add_accounts(accounts: &Vec<Rational>, increments: &Vec<Rational>) -> (result: Vec<Rational>)
    requires
        accounts@.len() == increments@.len(),
    ensures
        result@.len() == accounts@.len(),
        forall|k: int| 0 <= k < result@.len() ==> (#[trigger] result@[k])@ == accounts@[k]@ + increments@[k]@,
{
    let mut result: Vec<Rational> = Vec::new();
    let mut k: usize = 0;
    while k < accounts.len()
        invariant
            accounts@.len() == increments@.len(),
            k <= accounts@.len(),
            result@.len() == k,
            forall|j: int| 0 <= j < k ==> (#[trigger] result@[j])@ == accounts@[j]@ + increments@[j]@,
        decreases accounts.len() - k,
    {
        result.push(accounts[k].add(&increments[k]));
        k += 1;
    }
    result
}

/// The entry of `values` at the index of `kind` in the topology, zero when the
/// topology has no such kind.
pub open spec fn in_kind<K: Kind>(topology: FlowTopology<K>, values: Seq<real>, kind: K) -> real {
    if exists|i: int| 0 <= i < topology.kind_seq().len() && (#[trigger] topology.kind_seq()[i]).identity() == kind.identity() {
        values[choose|i: int| 0 <= i < topology.kind_seq().len() && (#[trigger] topology.kind_seq()[i]).identity()
            == kind.identity()]
    } else {
        0real
    }
}

/// A kind found at index `index` is the one `in_kind` reads.
proof fn lemma_in_kind_at<K: Kind>(topology: FlowTopology<K>, values: Seq<real>, kind: K, index: int)
    requires
        topology.well_formed(),
        0 <= index < topology.kind_seq().len(),
        topology.kind_seq()[index].identity() == kind.identity(),
    ensures
        in_kind(topology, values, kind) == values[index],
{
    let kinds = topology.kind_seq();
    let chosen = choose|i: int| 0 <= i < kinds.len() && (#[trigger] kinds[i]).identity() == kind.identity();
    assert(0 <= chosen < kinds.len() && kinds[chosen].identity() == kind.identity());
    if chosen < index {
        assert(kinds[chosen].identity() != kinds[index].identity());
    } else if index < chosen {
        assert(kinds[index].identity() != kinds[chosen].identity());
    }
}

/// Whether `error` reports the first stock, in index order, whose initial
/// amount lies below its floor.
pub open spec fn initial_refusal<K: Kind>(topology: FlowTopology<K>, amounts: Seq<real>, error: StockFlowError<K>) -> bool {
    match error {
        StockFlowError::InitialBelowFloor { stock, floor, amount } => exists|s: int|
            0 <= s < amounts.len() && (forall|earlier: int|
                0 <= earlier < s ==> (#[trigger] topology.stock_floor(earlier) matches Some(f) ==> amounts[earlier] >= f))
                && topology.stock_floor(s) == Some((*floor)@) && amounts[s] < (*floor)@ && (*amount)@ == amounts[s]
                && stock@ == topology.stock_ids()[s]@,
        _ => false,
    }
}

/// Whether a batch of requests is accepted: one nonnegative request per flow
/// slot, and no stock at which it is refused.
pub open spec fn batch_accepted<K: Kind>(topology: FlowTopology<K>, amounts: Seq<real>, requested: Seq<real>) -> bool {
    &&& requested.len() == topology.flow_seq().len()
    &&& forall|f: int| 0 <= f < requested.len() ==> #[trigger] requested[f] >= 0real
    &&& forall|s: int| 0 <= s < amounts.len() ==> !#[trigger] refused_at(topology, amounts, requested, s)
}

/// Whether `error` is what settling the requests reports: a wrong count, then
/// the first negative request, then the first refused stock.
pub open spec fn batch_error<K: Kind>(
    topology: FlowTopology<K>,
    amounts: Seq<real>,
    requested: Seq<real>,
    error: StockFlowError<K>,
) -> bool {
    match error {
        StockFlowError::AmountCount { expected, actual } => expected == topology.flow_seq().len() && actual
            == requested.len() && expected != actual,
        StockFlowError::NegativeFlow { index, process, amount } => {
            &&& requested.len() == topology.flow_seq().len()
            &&& index < requested.len()
            &&& requested[index as int] < 0real
            &&& forall|f: int| 0 <= f < index ==> #[trigger] requested[f] >= 0real
            &&& process@ == flow_process(topology, index as int)
            &&& (*amount)@ == requested[index as int]
        },
        _ => {
            &&& requested.len() == topology.flow_seq().len()
            &&& forall|f: int| 0 <= f < requested.len() ==> #[trigger] requested[f] >= 0real
            &&& floor_refusal(topology, amounts, requested, error)
        },
    }
}

/// Applied amounts from one compiled settlement, indexed like the topology's flows.
#[derive(Clone, Debug, PartialEq, Eq)]
pub struct CompiledSettlementReport<K: Kind> {
    topology: Arc<FlowTopology<K>>,
    requested: Vec<Rational>,
    applied: Vec<Rational>,
}

impl<K: Kind> CompiledSettlementReport<K> {
    /// The topology the report was settled on.
    pub closed spec fn topology_spec(&self) -> FlowTopology<K> {
        *self.topology
    }

    /// The requested amounts.
    pub closed spec fn requested_values(&self) -> Seq<real> {
        reals(self.requested@)
    }

    /// The applied amounts.
    pub closed spec fn applied_values(&self) -> Seq<real> {
        reals(self.applied@)
    }

    /// Requested amounts in stable flow-slot order.
    pub fn requested(&self) -> (result: &[Rational])
        ensures
            reals(result@) == self.requested_values(),
    {
        self.requested.as_slice()
    }

    /// Applied amounts in stable flow-slot order.
    pub fn applied(&self) -> (result: &[Rational])
        ensures
            reals(result@) == self.applied_values(),
    {
        self.applied.as_slice()
    }
}

/// Exact mutable amounts and boundary accounts over an immutable topology.
#[derive(Debug, PartialEq, Eq)]
pub struct ExactState<K: Kind> {
    topology: Arc<FlowTopology<K>>,
    amounts: Vec<Rational>,
    initial: Vec<Rational>,
    inputs: Vec<Rational>,
    outputs: Vec<Rational>,
}

impl<K: Kind> ExactState<K> {
    /// The shared topology.
    pub closed spec fn topology_spec(&self) -> FlowTopology<K> {
        *self.topology
    }

    /// The exact stock amounts in stock-index order.
    pub closed spec fn amount_values(&self) -> Seq<real> {
        reals(self.amounts@)
    }

    /// Each kind's total when the state was created.
    pub closed spec fn initial_values(&self) -> Seq<real> {
        reals(self.initial@)
    }

    /// Each kind's cumulative boundary input.
    pub closed spec fn input_values(&self) -> Seq<real> {
        reals(self.inputs@)
    }

    /// Each kind's cumulative boundary output.
    pub closed spec fn output_values(&self) -> Seq<real> {
        reals(self.outputs@)
    }

    /// Amounts fit the topology, stay within floors, and every kind balances:
    /// its initial total plus inputs less outputs is its current total.
    #[verifier::type_invariant]
    closed spec fn consistent(&self) -> bool {
        let topology = *self.topology;
        &&& topology.well_formed()
        &&& self.amounts@.len() == topology.stock_ids().len()
        &&& self.initial@.len() == topology.kind_seq().len()
        &&& self.inputs@.len() == topology.kind_seq().len()
        &&& self.outputs@.len() == topology.kind_seq().len()
        &&& within_floors(topology, reals(self.amounts@))
        &&& forall|k: int| 0 <= k < topology.kind_seq().len() ==> #[trigger] reals(self.initial@)[k] + reals(self.inputs@)[k]
            - reals(self.outputs@)[k] == total_of(topology, reals(self.amounts@), k)
    }

    /// The state's sizes match its topology and its amounts respect every floor.
    pub open spec fn fits(&self) -> bool {
        &&& self.topology_spec().well_formed()
        &&& self.amount_values().len() == self.topology_spec().stock_ids().len()
        &&& self.initial_values().len() == self.topology_spec().kind_seq().len()
        &&& self.input_values().len() == self.topology_spec().kind_seq().len()
        &&& self.output_values().len() == self.topology_spec().kind_seq().len()
        &&& within_floors(self.topology_spec(), self.amount_values())
    }

    /// Every conserved kind balances: its initial total, plus cumulative
    /// boundary input, less cumulative boundary output, is its current total.
    pub fn check_balanced(&self)
        ensures
            self.fits(),
            forall|k: int| 0 <= k < self.topology_spec().kind_seq().len() ==> #[trigger] self.initial_values()[k]
                + self.input_values()[k] - self.output_values()[k] == total_of(self.topology_spec(), self.amount_values(), k),
    {
        proof {
            use_type_invariant(self);
        }
    }
}


impl<K: Kind> Clone for ExactState<K> {
    fn clone(&self) -> (result: Self)
        ensures
            result.topology_spec() == self.topology_spec(),
            result.amount_values() == self.amount_values(),
            result.initial_values() == self.initial_values(),
            result.input_values() == self.input_values(),
            result.output_values() == self.output_values(),
    {
        proof {
            use_type_invariant(self);
        }
        let topology = self.topology.clone();
        assert(*topology == *self.topology);
        ExactState {
            topology,
            amounts: copies(&self.amounts),
            initial: copies(&self.initial),
            inputs: copies(&self.inputs),
            outputs: copies(&self.outputs),
        }
    }
}


impl<K: Kind> ExactState<K> {
    /// Creates exact state from amounts in stable stock-index order.
    pub fn new(topology: Arc<FlowTopology<K>>, amounts: Vec<Rational>) -> (result: Result<Self, StockFlowError<K>>)
        ensures
            result is Ok <==> (amounts@.len() == topology.stock_ids().len() && within_floors(*topology, reals(amounts@))),
            match result {
                Ok(state) => {
                    &&& state.topology_spec() == *topology
                    &&& state.amount_values() == reals(amounts@)
                    &&& state.initial_values() == Seq::new(
                        topology.kind_seq().len(),
                        |k: int| total_of(*topology, reals(amounts@), k),
                    )
                    &&& state.input_values() == Seq::new(topology.kind_seq().len(), |k: int| 0real)
                    &&& state.output_values() == Seq::new(topology.kind_seq().len(), |k: int| 0real)
                },
                Err(StockFlowError::AmountCount { expected, actual }) => expected == topology.stock_ids().len()
                    && actual == amounts@.len() && expected != actual,
                Err(error) => amounts@.len() == topology.stock_ids().len() && initial_refusal(
                    *topology,
                    reals(amounts@),
                    error,
                ),
            },
    {
        topology.check_well_formed();
        let ghost a = reals(amounts@);
        if topology.stocks().len() != amounts.len() {
            return Err(StockFlowError::AmountCount { expected: topology.stocks().len(), actual: amounts.len() });
        }
        let mut s: usize = 0;
        while s < amounts.len()
            invariant
                topology.well_formed(),
                a == reals(amounts@),
                amounts@.len() == topology.stock_ids().len(),
                s <= amounts@.len(),
                forall|i: int| 0 <= i < s ==> (#[trigger] topology.stock_floor(i) matches Some(floor) ==> a[i] >= floor),
            decreases amounts.len() - s,
        {
            let kind = topology.stock_kind(s);
            proof {
                assert(topology.stock_floor(s as int) == topology.kind_seq()[kind as int].floor_value());
                assert(a[s as int] == amounts@[s as int]@);
            }
            match topology.kinds()[kind].floor() {
                Some(floor) => {
                    if amounts[s].lt(&floor) {
                        let error = StockFlowError::InitialBelowFloor {
                            stock: topology.stocks()[s].clone(),
                            floor: Box::new(floor),
                            amount: Box::new(amounts[s].clone()),
                        };
                        proof {
                            assert(0 <= s < a.len() && (forall|earlier: int|
                                0 <= earlier < s ==> (#[trigger] topology.stock_floor(earlier) matches Some(f) ==> a[earlier] >= f)));
                        }
                        return Err(error);
                    }
                },
                None => {},
            }
            s += 1;
        }
        let initial = totals(&topology, &amounts);
        let kind_count = topology.kinds().len();
        let inputs = zeros(kind_count);
        let outputs = zeros(kind_count);
        proof {
            assert forall|k: int| 0 <= k < kind_count implies #[trigger] reals(initial@)[k] + reals(inputs@)[k]
                - reals(outputs@)[k] == total_of(*topology, reals(amounts@), k) by {
                assert(reals(initial@)[k] == initial@[k]@);
                assert(reals(inputs@)[k] == inputs@[k]@);
                assert(reals(outputs@)[k] == outputs@[k]@);
            }
            assert(reals(initial@) =~= Seq::new(kind_count as nat, |k: int| total_of(*topology, a, k)));
            assert(reals(inputs@) =~= Seq::new(kind_count as nat, |k: int| 0real));
            assert(reals(outputs@) =~= Seq::new(kind_count as nat, |k: int| 0real));
        }
        Ok(ExactState { topology, amounts, initial, inputs, outputs })
    }

    /// Shared immutable topology.
    pub fn topology(&self) -> (result: &Arc<FlowTopology<K>>)
        ensures
            **result == self.topology_spec(),
    {
        &self.topology
    }

    /// Exact stock amounts in stable stock-index order.
    pub fn amounts(&self) -> (result: &[Rational])
        ensures
            reals(result@) == self.amount_values(),
    {
        self.amounts.as_slice()
    }

    /// Looks up one exact stock amount.
    pub fn amount(&self, stock: &StockId) -> (result: Option<&Rational>)
        ensures
            match result {
                Some(amount) => exists|i: int|
                    0 <= i < self.topology_spec().stock_ids().len() && (#[trigger] self.topology_spec().stock_ids()[i])@
                        == stock@ && amount@ == self.amount_values()[i],
                None => forall|i: int| 0 <= i < self.topology_spec().stock_ids().len()
                    ==> (#[trigger] self.topology_spec().stock_ids()[i])@ != stock@,
            },
    {
        proof {
            use_type_invariant(self);
        }
        match self.topology.stock_index(stock) {
            Some(index) => {
                proof {
                    assert(reals(self.amounts@)[index as int] == self.amounts@[index as int]@);
                    assert(self.topology_spec().stock_ids()[index as int]@ == stock@);
                }
                Some(&self.amounts[index])
            },
            None => None,
        }
    }

    /// The entry of per-kind accounts for `kind`, zero when the topology has no such kind.
    fn account(&self, kind: &K, accounts: &Vec<Rational>) -> (result: Rational)
        requires
            accounts@.len() == self.topology_spec().kind_seq().len(),
        ensures
            result@ == in_kind(self.topology_spec(), reals(accounts@), *kind),
    {
        proof {
            use_type_invariant(self);
        }
        match self.topology.kind_index(kind.duplicate()) {
            Some(index) => {
                proof {
                    lemma_in_kind_at(self.topology_spec(), reals(accounts@), *kind, index as int);
                }
                accounts[index].clone()
            },
            None => Rational::zero(),
        }
    }

    /// Current total of a conserved kind.
    pub fn total(&self, kind: K) -> (result: Rational)
        ensures
            result@ == in_kind(
                self.topology_spec(),
                Seq::new(
                    self.topology_spec().kind_seq().len(),
                    |k: int| total_of(self.topology_spec(), self.amount_values(), k),
                ),
                kind,
            ),
    {
        proof {
            use_type_invariant(self);
        }
        let current = totals(&self.topology, &self.amounts);
        proof {
            assert(reals(current@) =~= Seq::new(
                self.topology_spec().kind_seq().len(),
                |k: int| total_of(self.topology_spec(), self.amount_values(), k),
            ));
        }
        self.account(&kind, &current)
    }

    /// Cumulative boundary input of a conserved kind.
    pub fn inputs(&self, kind: K) -> (result: Rational)
        ensures
            result@ == in_kind(self.topology_spec(), self.input_values(), kind),
    {
        proof {
            use_type_invariant(self);
        }
        self.account(&kind, &self.inputs)
    }

    /// Cumulative boundary output of a conserved kind.
    pub fn outputs(&self, kind: K) -> (result: Rational)
        ensures
            result@ == in_kind(self.topology_spec(), self.output_values(), kind),
    {
        proof {
            use_type_invariant(self);
        }
        self.account(&kind, &self.outputs)
    }

    /// `initial + inputs - outputs - current`, exactly: always zero.
    pub fn balance_residual(&self, kind: K) -> (result: Rational)
        ensures
            result@ == in_kind(self.topology_spec(), self.initial_values(), kind) + in_kind(
                self.topology_spec(),
                self.input_values(),
                kind,
            ) - in_kind(self.topology_spec(), self.output_values(), kind) - in_kind(
                self.topology_spec(),
                Seq::new(
                    self.topology_spec().kind_seq().len(),
                    |k: int| total_of(self.topology_spec(), self.amount_values(), k),
                ),
                kind,
            ),
            result@ == 0real,
    {
        proof {
            use_type_invariant(self);
        }
        match self.topology.kind_index(kind.duplicate()) {
            Some(index) => {
                let current = totals(&self.topology, &self.amounts);
                let ghost current_values = Seq::new(
                    self.topology_spec().kind_seq().len(),
                    |k: int| total_of(self.topology_spec(), self.amount_values(), k),
                );
                proof {
                    lemma_in_kind_at(self.topology_spec(), reals(self.initial@), kind, index as int);
                    lemma_in_kind_at(self.topology_spec(), reals(self.inputs@), kind, index as int);
                    lemma_in_kind_at(self.topology_spec(), reals(self.outputs@), kind, index as int);
                    lemma_in_kind_at(self.topology_spec(), current_values, kind, index as int);
                    assert(reals(self.initial@)[index as int] == self.initial@[index as int]@);
                    assert(reals(self.inputs@)[index as int] == self.inputs@[index as int]@);
                    assert(reals(self.outputs@)[index as int] == self.outputs@[index as int]@);
                }
                self.initial[index].add(&self.inputs[index]).sub(&self.outputs[index]).sub(&current[index])
            },
            None => Rational::zero(),
        }
    }
}


/// Whether two topologies share their stock tables: the same stocks, the same
/// kind index for each, and kinds with the same floors.
pub open spec fn same_stocks<K: Kind>(a: FlowTopology<K>, b: FlowTopology<K>) -> bool {
    &&& a.stock_ids().len() == b.stock_ids().len()
    &&& a.stock_kind_seq() == b.stock_kind_seq()
    &&& a.kind_seq().len() == b.kind_seq().len()
    &&& forall|k: int| 0 <= k < a.kind_seq().len() ==> (#[trigger] a.kind_seq()[k]).floor_value() == b.kind_seq()[k].floor_value()
}

/// Topologies that share their stock tables agree on floors and kind totals.
proof fn lemma_same_stocks<K: Kind>(a: FlowTopology<K>, b: FlowTopology<K>, amounts: Seq<real>)
    requires
        a.well_formed(),
        same_stocks(a, b),
        amounts.len() == a.stock_ids().len(),
    ensures
        within_floors(a, amounts) == within_floors(b, amounts),
        forall|k: int| #[trigger] total_of(a, amounts, k) == total_of(b, amounts, k),
        forall|s: int| 0 <= s < a.stock_ids().len() ==> #[trigger] a.stock_floor(s) == b.stock_floor(s),
{
    assert forall|s: int| 0 <= s < a.stock_ids().len() implies #[trigger] a.stock_floor(s) == b.stock_floor(s) by {
        assert(a.stock_kind_seq()[s] < a.kind_seq().len());
    }
    if within_floors(a, amounts) {
        assert forall|s: int| 0 <= s < amounts.len() implies (#[trigger] b.stock_floor(s) matches Some(floor)
            ==> amounts[s] >= floor) by {
            assert(a.stock_floor(s) matches Some(floor) ==> amounts[s] >= floor);
        }
    }
    if within_floors(b, amounts) {
        assert forall|s: int| 0 <= s < amounts.len() implies (#[trigger] a.stock_floor(s) matches Some(floor)
            ==> amounts[s] >= floor) by {
            assert(b.stock_floor(s) matches Some(floor) ==> amounts[s] >= floor);
        }
    }
}

impl<K: Kind> ExactState<K> {
    /// Atomically settles requested amounts over a topology that shares this
    /// state's stock tables, returning the applied amounts.
    ///
    /// On any error the state is unchanged.
    pub(crate) fn settle_with(&mut self, topology: &FlowTopology<K>, requested: &[Rational]) -> (result: Result<
        Vec<Rational>,
        StockFlowError<K>,
    >)
        requires
            topology.well_formed(),
            same_stocks(*topology, old(self).topology_spec()),
        ensures
            final(self).topology_spec() == old(self).topology_spec(),
            result is Ok <==> batch_accepted(*topology, old(self).amount_values(), reals(requested@)),
            match result {
                Ok(applied) => {
                    let amounts = old(self).amount_values();
                    let r = reals(requested@);
                    &&& reals(applied@) == applied_amounts(*topology, amounts, r)
                    &&& final(self).amount_values() == settled_amounts(*topology, amounts, r)
                    &&& final(self).initial_values() == old(self).initial_values()
                    &&& final(self).input_values() == Seq::new(
                        topology.kind_seq().len(),
                        |k: int| old(self).input_values()[k] + batch_inputs(*topology, amounts, r)[k],
                    )
                    &&& final(self).output_values() == Seq::new(
                        topology.kind_seq().len(),
                        |k: int| old(self).output_values()[k] + batch_outputs(*topology, amounts, r)[k],
                    )
                },
                Err(error) => {
                    &&& *final(self) == *old(self)
                    &&& batch_error(*topology, old(self).amount_values(), reals(requested@), error)
                },
            },
    {
        proof {
            use_type_invariant(&*self);
        }
        let ghost own = self.topology_spec();
        let ghost a = self.amount_values();
        let ghost r = reals(requested@);
        proof {
            lemma_same_stocks(*topology, own, a);
        }
        if topology.flows().len() != requested.len() {
            return Err(StockFlowError::AmountCount { expected: topology.flows().len(), actual: requested.len() });
        }
        let mut f: usize = 0;
        while f < requested.len()
            invariant
                r == reals(requested@),
                topology.well_formed(),
                requested@.len() == topology.flow_seq().len(),
                f <= requested@.len(),
                forall|g: int| 0 <= g < f ==> #[trigger] r[g] >= 0real,
            decreases requested.len() - f,
        {
            proof {
                assert(r[f as int] == requested@[f as int]@);
            }
            if requested[f].is_negative() {
                let flow = topology.flows()[f];
                proof {
                    assert(flow_well_formed(flow, topology.stock_kind_seq(), topology.kind_seq().len() as int, topology.process_ids().len() as int));
                }
                let process = topology.processes()[flow.process()].clone();
                return Err(StockFlowError::NegativeFlow { index: f, process, amount: Box::new(requested[f].clone()) });
            }
            f += 1;
        }
        let scales = match scales(topology, &self.amounts, requested) {
            Ok(scales) => scales,
            Err(error) => {
                return Err(error);
            },
        };
        let batch = apply_flows(topology, &self.amounts, requested, &scales);
        proof {
            lemma_settled_within_floors(*topology, a, r);
            lemma_same_stocks(*topology, own, reals(batch.amounts@));
            assert(batch.inputs@.len() == reals(batch.inputs@).len());
            assert(batch.outputs@.len() == reals(batch.outputs@).len());
        }
        let inputs = add_accounts(&self.inputs, &batch.inputs);
        let outputs = add_accounts(&self.outputs, &batch.outputs);
        let ghost bi = batch_inputs(*topology, a, r);
        let ghost bo = batch_outputs(*topology, a, r);
        proof {
            assert(reals(inputs@) =~= Seq::new(
                topology.kind_seq().len(),
                |k: int| reals(self.inputs@)[k] + bi[k],
            )) by {
                assert forall|k: int| 0 <= k < topology.kind_seq().len() implies #[trigger] reals(inputs@)[k]
                    == reals(self.inputs@)[k] + bi[k] by {
                    assert(reals(inputs@)[k] == inputs@[k]@);
                    assert(reals(self.inputs@)[k] == self.inputs@[k]@);
                    assert(bi[k] == reals(batch.inputs@)[k]);
                    assert(reals(batch.inputs@)[k] == batch.inputs@[k]@);
                }
            }
            assert(reals(outputs@) =~= Seq::new(
                topology.kind_seq().len(),
                |k: int| reals(self.outputs@)[k] + bo[k],
            )) by {
                assert forall|k: int| 0 <= k < topology.kind_seq().len() implies #[trigger] reals(outputs@)[k]
                    == reals(self.outputs@)[k] + bo[k] by {
                    assert(reals(outputs@)[k] == outputs@[k]@);
                    assert(reals(self.outputs@)[k] == self.outputs@[k]@);
                    assert(bo[k] == reals(batch.outputs@)[k]);
                    assert(reals(batch.outputs@)[k] == batch.outputs@[k]@);
                }
            }
        }
        let initial = copies(&self.initial);
        proof {
            assert(batch.amounts@.len() == reals(batch.amounts@).len());
            assert forall|k: int| 0 <= k < own.kind_seq().len() implies #[trigger] reals(initial@)[k]
                + reals(inputs@)[k] - reals(outputs@)[k] == total_of(own, reals(batch.amounts@), k) by {
                assert(reals(initial@)[k] == reals(self.initial@)[k]);
                assert(total_of(*topology, reals(batch.amounts@), k) == total_of(*topology, a, k) + bi[k] - bo[k]);
                assert(total_of(*topology, a, k) == total_of(own, a, k));
            }
        }
        *self = ExactState { topology: self.topology.clone(), amounts: batch.amounts, initial, inputs, outputs };
        Ok(batch.applied)
    }

    /// Atomically settles requested amounts in stable flow-slot order.
    ///
    /// On any error the state is unchanged.
    pub fn settle(&mut self, requested: &[Rational]) -> (result: Result<CompiledSettlementReport<K>, StockFlowError<K>>)
        ensures
            final(self).topology_spec() == old(self).topology_spec(),
            result is Ok <==> batch_accepted(old(self).topology_spec(), old(self).amount_values(), reals(requested@)),
            match result {
                Ok(report) => {
                    let topology = old(self).topology_spec();
                    let amounts = old(self).amount_values();
                    let r = reals(requested@);
                    &&& report.topology_spec() == topology
                    &&& report.requested_values() == r
                    &&& report.applied_values() == applied_amounts(topology, amounts, r)
                    &&& final(self).amount_values() == settled_amounts(topology, amounts, r)
                    &&& final(self).initial_values() == old(self).initial_values()
                    &&& final(self).input_values() == Seq::new(
                        topology.kind_seq().len(),
                        |k: int| old(self).input_values()[k] + batch_inputs(topology, amounts, r)[k],
                    )
                    &&& final(self).output_values() == Seq::new(
                        topology.kind_seq().len(),
                        |k: int| old(self).output_values()[k] + batch_outputs(topology, amounts, r)[k],
                    )
                },
                Err(error) => {
                    &&& *final(self) == *old(self)
                    &&& batch_error(old(self).topology_spec(), old(self).amount_values(), reals(requested@), error)
                },
            },
    {
        proof {
            use_type_invariant(&*self);
        }
        let topology = self.topology.clone();
        match self.settle_with(&topology, requested) {
            Ok(applied) => Ok(CompiledSettlementReport { topology, requested: copies_of(requested), applied }),
            Err(error) => Err(error),
        }
    }
}

/// Copies of the values of a slice.
fn copies_of(values: &[Rational]) -> (result: Vec<Rational>)
    ensures
        reals(result@) == reals(values@),
        result@.len() == values@.len(),
{
    let mut result: Vec<Rational> = Vec::new();
    let mut i: usize = 0;
    while i < values.len()
        invariant
            i <= values@.len(),
            result@.len() == i,
            forall|j: int| 0 <= j < i ==> (#[trigger] result@[j])@ == values@[j]@,
        decreases values.len() - i,
    {
        result.push(values[i].clone());
        i += 1;
    }
    assert(reals(result@) =~= reals(values@));
    result
}


/// Whether a restored flow names the stock at a compiled endpoint.
pub open spec fn endpoint_named<K: Kind>(
    topology: FlowTopology<K>,
    compiled: Option<usize>,
    named: Option<StockId>,
) -> bool {
    match (compiled, named) {
        (None, None) => true,
        (Some(index), Some(id)) => id@ == topology.stock_ids()[index as int]@,
        _ => false,
    }
}

/// Whether `flow` restores compiled flow `f` of a topology with the given
/// requested and applied amounts.
pub open spec fn restores<K: Kind>(
    topology: FlowTopology<K>,
    f: int,
    requested: real,
    applied: real,
    flow: AppliedFlow<K>,
) -> bool {
    let compiled = topology.flow_seq()[f];
    &&& flow.process@ == flow_process(topology, f)
    &&& flow.kind.identity() == topology.kind_seq()[compiled.kind_spec() as int].difference_identity()
    &&& endpoint_named(topology, compiled.source_spec(), flow.source)
    &&& endpoint_named(topology, compiled.target_spec(), flow.target)
    &&& flow.requested@ == requested
    &&& flow.applied@ == applied
    &&& flow.role == compiled.role_spec()
}

/// Every topology has its own layout: a report settled on a topology, with
/// an amount for each of its flows, restores on that topology.
pub proof fn law_report_restores_on_its_topology<K: Kind>(topology: FlowTopology<K>)
    ensures
        same_layout(topology, topology),
{
}

impl<K: Kind> FlowTopology<K> {
    /// Restores identifier-rich exact flows from a compiled settlement report.
    ///
    /// The report must originate from a topology with the same layout; equal
    /// vector lengths alone are not sufficient compatibility evidence.
    pub fn materialize_exact_report(&self, report: &CompiledSettlementReport<K>) -> (result: Result<
        SettlementReport<K>,
        StockFlowError<K>,
    >)
        ensures
            result is Ok <==> (same_layout(*self, report.topology_spec()) && report.requested_values().len()
                == self.flow_seq().len() && report.applied_values().len() == self.flow_seq().len()),
            match result {
                Ok(restored) => {
                    &&& restored.flow_seq().len() == self.flow_seq().len()
                    &&& forall|f: int| 0 <= f < self.flow_seq().len() ==> restores(
                        *self,
                        f,
                        report.requested_values()[f],
                        report.applied_values()[f],
                        #[trigger] restored.flow_seq()[f],
                    )
                },
                Err(error) => error == StockFlowError::<K>::TopologyMismatch,
            },
    {
        self.check_well_formed();
        if !self.same_layout(&report.topology) || self.flows().len() != report.requested.len()
            || report.requested.len() != report.applied.len() {
            return Err(StockFlowError::TopologyMismatch);
        }
        let flows = self.flows();
        let mut restored: Vec<AppliedFlow<K>> = Vec::new();
        let mut f: usize = 0;
        while f < flows.len()
            invariant
                self.well_formed(),
                flows@ == self.flow_seq(),
                report.requested@.len() == flows@.len(),
                report.applied@.len() == flows@.len(),
                f <= flows@.len(),
                restored@.len() == f,
                forall|g: int| 0 <= g < f ==> restores(
                    *self,
                    g,
                    report.requested_values()[g],
                    report.applied_values()[g],
                    #[trigger] restored@[g],
                ),
            decreases flows.len() - f,
        {
            let flow = flows[f];
            assert(flow_well_formed(flow, self.stock_kind_seq(), self.kind_seq().len() as int, self.process_ids().len() as int));
            let source = match flow.source() {
                Some(index) => Some(self.stocks()[index].clone()),
                None => None,
            };
            let target = match flow.target() {
                Some(index) => Some(self.stocks()[index].clone()),
                None => None,
            };
            let entry = AppliedFlow {
                process: self.processes()[flow.process()].clone(),
                kind: self.kinds()[flow.kind()].difference(),
                source,
                target,
                requested: report.requested[f].clone(),
                applied: report.applied[f].clone(),
                role: flow.role(),
            };
            proof {
                assert(report.requested_values()[f as int] == report.requested@[f as int]@);
                assert(report.applied_values()[f as int] == report.applied@[f as int]@);
            }
            restored.push(entry);
            f += 1;
        }
        Ok(SettlementReport::from_flows(restored))
    }
}

} // verus!
