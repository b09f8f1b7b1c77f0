//! Transition records assembled from exact settlement reports.
use crate::carrier::{
    covers_stocks, distinct_triples, first_repeat, holds_entries, identity_equivalent, slot_kind, ChannelId, ExactAmounts,
    StockFlowCarrier, StockFlowError, Symbol, SymbolId,
};
use crate::dynamics::{flow_well_formed, same_layout, FlowTopology, StockFlowError as DynamicsError};
use crate::exact::{reals, CompiledSettlementReport};
use crate::ident::{AxisId, BoundaryId, FlowId, KindId, LedgerId};
use crate::rational::Rational;
use crate::record::{record_refusal, TransitionRecord, TransitionRecordData};
use crate::table::{find_key, holds, keys_sorted, lemma_position, value_of};
use vstd::prelude::*;

verus! {

/// The identifier text, kind text and exact amount of each entry.
pub open spec fn triple_views<I: Symbol>(values: Seq<(I, KindId, Rational)>) -> Seq<(Seq<char>, Seq<char>, real)> {
    values.map_values(|v: (I, KindId, Rational)| (v.0@, v.1@, v.2@))
}

/// Whether `amounts` holds exactly the entries described by `views`.
pub open spec fn holds_views<I: Symbol>(amounts: ExactAmounts<I>, views: Seq<(Seq<char>, Seq<char>, real)>) -> bool {
    &&& amounts.table().len() == views.len()
    &&& forall|i: int| 0 <= i < views.len() ==> {
        &&& #[trigger] amounts.names(views[i].0)
        &&& amounts.kind_of(views[i].0) == views[i].1
        &&& amounts.amount_of(views[i].0) == views[i].2
    }
    &&& forall|key: Seq<char>| #[trigger] amounts.names(key) ==> exists|i: int| 0 <= i < views.len() && #[trigger] views[i].0 == key
}

/// Whether no two entries name the same identifier.
pub open spec fn distinct_views(views: Seq<(Seq<char>, Seq<char>, real)>) -> bool {
    forall|i: int, j: int| 0 <= i < j < views.len() ==> (#[trigger] views[i]).0 != (#[trigger] views[j]).0
}

/// Whether entry `j` is the first to repeat an earlier identifier.
pub open spec fn view_repeat(views: Seq<(Seq<char>, Seq<char>, real)>, j: int) -> bool {
    &&& 0 <= j < views.len()
    &&& forall|a: int, b: int| 0 <= a < b < j ==> (#[trigger] views[a]).0 != (#[trigger] views[b]).0
    &&& exists|i: int| 0 <= i < j && (#[trigger] views[i]).0 == views[j].0
}

/// Each topology stock's axis and kind with its amount, in stock order.
pub open spec fn stock_views(carrier: StockFlowCarrier, values: Seq<Rational>) -> Seq<(Seq<char>, Seq<char>, real)> {
    let topology = carrier.topology_spec();
    Seq::new(
        topology.stock_ids().len(),
        |s: int|
            (
                value_of(carrier.stock_axis_table(), topology.stock_ids()[s]@)@,
                topology.kind_seq()[topology.stock_kind_seq()[s] as int]@,
                values[s]@,
            ),
    )
}

/// The internal-flow slots among the first `count`, each with its flow, its
/// kind and its amount, in slot order.
pub open spec fn internal_views(carrier: StockFlowCarrier, values: Seq<real>, count: int) -> Seq<(Seq<char>, Seq<char>, real)>
    decreases count,
{
    if count <= 0 {
        Seq::empty()
    } else {
        let earlier = internal_views(carrier, values, count - 1);
        match carrier.channel_seq()[count - 1] {
            ChannelId::Internal(flow) => earlier.push((flow@, slot_kind(carrier.topology_spec(), count - 1)@, values[count - 1])),
            ChannelId::Boundary(_) => earlier,
        }
    }
}

/// The boundary-flow slots among the first `count`, each with its port, its
/// kind and its amount, in slot order.
pub open spec fn boundary_views(carrier: StockFlowCarrier, values: Seq<real>, count: int) -> Seq<(Seq<char>, Seq<char>, real)>
    decreases count,
{
    if count <= 0 {
        Seq::empty()
    } else {
        let earlier = boundary_views(carrier, values, count - 1);
        match carrier.channel_seq()[count - 1] {
            ChannelId::Internal(_) => earlier,
            ChannelId::Boundary(port) => earlier.push((port@, slot_kind(carrier.topology_spec(), count - 1)@, values[count - 1])),
        }
    }
}

/// Whether `error` reports the first repeated axis of `views`.
pub open spec fn axis_repeat(views: Seq<(Seq<char>, Seq<char>, real)>, error: StockFlowError) -> bool {
    exists|j: int| #[trigger] view_repeat(views, j) && (error matches StockFlowError::DuplicateValue(SymbolId::Axis(a)) && a@ == views[j].0)
}

/// Whether `error` reports the first repeated flow of `views`.
pub open spec fn flow_repeat(views: Seq<(Seq<char>, Seq<char>, real)>, error: StockFlowError) -> bool {
    exists|j: int| #[trigger] view_repeat(views, j) && (error matches StockFlowError::DuplicateValue(SymbolId::Flow(f)) && f@ == views[j].0)
}

/// Whether `error` reports the first repeated boundary of `views`.
pub open spec fn port_repeat(views: Seq<(Seq<char>, Seq<char>, real)>, error: StockFlowError) -> bool {
    exists|j: int| #[trigger] view_repeat(views, j) && (error matches StockFlowError::DuplicateValue(SymbolId::Boundary(b)) && b@ == views[j].0)
}

/// The views of a vector's entries carry over what [`ExactAmounts::new`] states.
proof fn lemma_views<I: Symbol>(values: Seq<(I, KindId, Rational)>)
    ensures
        distinct_triples(values) <==> distinct_views(triple_views(values)),
        forall|j: int| #[trigger] first_repeat(values, j) <==> view_repeat(triple_views(values), j),
        forall|amounts: ExactAmounts<I>| #[trigger] holds_entries(amounts, values) ==> holds_views(amounts, triple_views(values)),
{
    let views = triple_views(values);
    assert forall|i: int| 0 <= i < values.len() implies (#[trigger] views[i]).0 == values[i].0@ && views[i].1 == values[i].1@
        && views[i].2 == values[i].2@ by {}
    assert(views.len() == values.len());
    if distinct_triples(values) {
        assert forall|i: int, j: int| 0 <= i < j < views.len() implies (#[trigger] views[i]).0 != (#[trigger] views[j]).0 by {
            assert(values[i].0@ != values[j].0@);
        }
    }
    if distinct_views(views) {
        assert forall|i: int, j: int| 0 <= i < j < values.len() implies (#[trigger] values[i]).0@ != (#[trigger] values[j]).0@ by {
            assert(views[i].0 != views[j].0);
        }
    }
    assert forall|j: int| #[trigger] first_repeat(values, j) <==> view_repeat(views, j) by {
        if 0 <= j < values.len() {
            assert((forall|a: int, b: int| 0 <= a < b < j ==> (#[trigger] values[a]).0@ != (#[trigger] values[b]).0@) <==> (forall|a: int, b: int|
                0 <= a < b < j ==> (#[trigger] views[a]).0 != (#[trigger] views[b]).0)) by {
                if forall|a: int, b: int| 0 <= a < b < j ==> (#[trigger] values[a]).0@ != (#[trigger] values[b]).0@ {
                    assert forall|a: int, b: int| 0 <= a < b < j implies (#[trigger] views[a]).0 != (#[trigger] views[b]).0 by {
                        assert(values[a].0@ != values[b].0@);
                    }
                }
                if forall|a: int, b: int| 0 <= a < b < j ==> (#[trigger] views[a]).0 != (#[trigger] views[b]).0 {
                    assert forall|a: int, b: int| 0 <= a < b < j implies (#[trigger] values[a]).0@ != (#[trigger] values[b]).0@ by {
                        assert(views[a].0 != views[b].0);
                    }
                }
            }
        }
        if first_repeat(values, j) {
            let i = choose|i: int| 0 <= i < j && (#[trigger] values[i]).0@ == values[j].0@;
            assert(views[i].0 == views[j].0);
        }
        if view_repeat(views, j) {
            let i = choose|i: int| 0 <= i < j && (#[trigger] views[i]).0 == views[j].0;
            assert(values[i].0@ == values[j].0@);
        }
    }
    assert forall|amounts: ExactAmounts<I>| #[trigger] holds_entries(amounts, values) implies holds_views(amounts, views) by {
        assert forall|key: Seq<char>| #[trigger] amounts.names(key) implies exists|i: int| 0 <= i < views.len() && #[trigger] views[i].0 == key by {
            let i = choose|i: int| 0 <= i < values.len() && #[trigger] values[i].0@ == key;
            assert(views[i].0 == key);
        }
    }
}

/// Each topology stock's axis and kind with the amount at its position.
fn stock_values(carrier: &StockFlowCarrier, topology: &FlowTopology<KindId>, values: &[Rational]) -> (result: Vec<
    (AxisId, KindId, Rational),
>)
    requires
        *topology == carrier.topology_spec(),
        values@.len() == topology.stock_ids().len(),
        keys_sorted(carrier.stock_axis_table()),
        covers_stocks(carrier.topology_spec(), carrier.stock_axis_table()),
    ensures
        triple_views(result@) == stock_views(*carrier, values@),
{
    topology.check_well_formed();
    let stocks = topology.stocks();
    let kinds = topology.kinds();
    let mut result: Vec<(AxisId, KindId, Rational)> = Vec::new();
    let mut s: usize = 0;
    while s < stocks.len()
        invariant
            *topology == carrier.topology_spec(),
            topology.well_formed(),
            stocks@ == topology.stock_ids(),
            kinds@ == topology.kind_seq(),
            values@.len() == stocks@.len(),
            keys_sorted(carrier.stock_axis_table()),
            covers_stocks(carrier.topology_spec(), carrier.stock_axis_table()),
            s <= stocks@.len(),
            triple_views(result@) == stock_views(*carrier, values@).take(s as int),
        decreases stocks.len() - s,
    {
        proof {
            assert(holds(carrier.stock_axis_table(), stocks@[s as int]@));
        }
        let axis = match carrier.axis_for_stock(&stocks[s]) {
            Some(axis) => axis.clone(),
            None => {
                proof {
                    assert(false);
                }
                return result;
            },
        };
        let kind = kinds[topology.stock_kind(s)].clone();
        let ghost before = result@;
        result.push((axis, kind, values[s].clone()));
        proof {
            assert(triple_views(result@) =~= stock_views(*carrier, values@).take(s + 1)) by {
                assert(triple_views(result@).drop_last() =~= triple_views(before));
            }
        }
        s += 1;
    }
    proof {
        assert(stock_views(*carrier, values@).take(stocks@.len() as int) =~= stock_views(*carrier, values@));
    }
    result
}

impl StockFlowCarrier {
    /// Builds a validated record from one report of exact settlement.
    ///
    /// `before` and `after` follow the topology's stock order. Requested and
    /// settled channel amounts are taken directly from `report`, slot by slot.
    #[verifier::loop_isolation(false)]
    pub fn record_from_settlement(
        &self,
        before: &[Rational],
        after: &[Rational],
        report: &CompiledSettlementReport<KindId>,
        ledger_before: ExactAmounts<LedgerId>,
        ledger_after: ExactAmounts<LedgerId>,
    ) -> (result: Result<TransitionRecord, StockFlowError>)
        ensures
            ({
                let topology = self.topology_spec();
                let stocks = topology.stock_ids().len();
                let slots = topology.flow_seq().len() as int;
                let vb = stock_views(*self, before@);
                let va = stock_views(*self, after@);
                let ri = internal_views(*self, report.requested_values(), slots);
                let si = internal_views(*self, report.applied_values(), slots);
                let rb = boundary_views(*self, report.requested_values(), slots);
                let sb = boundary_views(*self, report.applied_values(), slots);
                if !(same_layout(topology, report.topology_spec()) && report.requested_values().len() == slots
                    && report.applied_values().len() == slots) {
                    result matches Err(StockFlowError::Settlement(e)) && e == DynamicsError::<KindId>::TopologyMismatch
                } else if before@.len() != stocks {
                    result matches Err(StockFlowError::AmountCount { expected, actual }) && expected == stocks && actual
                        == before@.len()
                } else if after@.len() != stocks {
                    result matches Err(StockFlowError::AmountCount { expected, actual }) && expected == stocks && actual
                        == after@.len()
                } else if !distinct_views(vb) {
                    result matches Err(e) && axis_repeat(vb, e)
                } else if !distinct_views(va) {
                    result matches Err(e) && axis_repeat(va, e)
                } else if !distinct_views(ri) {
                    result matches Err(e) && flow_repeat(ri, e)
                } else if !distinct_views(si) {
                    result matches Err(e) && flow_repeat(si, e)
                } else if !distinct_views(rb) {
                    result matches Err(e) && port_repeat(rb, e)
                } else if !distinct_views(sb) {
                    result matches Err(e) && port_repeat(sb, e)
                } else {
                    match result {
                        Ok(record) => {
                            let data = record.data_spec();
                            &&& identity_equivalent(record.identity_spec(), self.identity_spec())
                            &&& holds_views(data.before, vb)
                            &&& holds_views(data.after, va)
                            &&& holds_views(data.requested_internal, ri)
                            &&& holds_views(data.settled_internal, si)
                            &&& holds_views(data.requested_boundary, rb)
                            &&& holds_views(data.settled_boundary, sb)
                            &&& data.ledger_before == ledger_before
                            &&& data.ledger_after == ledger_after
                        },
                        Err(e) => exists|data: TransitionRecordData|
                            #![trigger record_refusal(self.identity_spec(), data, e)]
                            holds_views(data.before, vb) && holds_views(data.after, va) && holds_views(data.requested_internal, ri)
                                && holds_views(data.settled_internal, si) && holds_views(data.requested_boundary, rb)
                                && holds_views(data.settled_boundary, sb) && data.ledger_before == ledger_before
                                && data.ledger_after == ledger_after && record_refusal(self.identity_spec(), data, e),
                    }
                }
            }),
    {
        let topology: &FlowTopology<KindId> = &**self.topology();
        match topology.materialize_exact_report(report) {
            Ok(_) => {},
            Err(error) => {
                return Err(StockFlowError::Settlement(error));
            },
        }
        let stock_count = topology.stocks().len();
        if before.len() != stock_count {
            return Err(StockFlowError::AmountCount { expected: stock_count, actual: before.len() });
        }
        if after.len() != stock_count {
            return Err(StockFlowError::AmountCount { expected: stock_count, actual: after.len() });
        }
        self.check_slots();
        topology.check_well_formed();
        let before_values = stock_values(self, topology, before);
        let after_values = stock_values(self, topology, after);
        let channels = self.slot_channels();
        let flows = topology.flows();
        let kinds = topology.kinds();
        let requested = report.requested();
        let applied = report.applied();
        let ghost slots = flows@.len() as int;
        let mut requested_internal: Vec<(FlowId, KindId, Rational)> = Vec::new();
        let mut settled_internal: Vec<(FlowId, KindId, Rational)> = Vec::new();
        let mut requested_boundary: Vec<(BoundaryId, KindId, Rational)> = Vec::new();
        let mut settled_boundary: Vec<(BoundaryId, KindId, Rational)> = Vec::new();
        let mut t: usize = 0;
        while t < flows.len()
            invariant
                t <= flows@.len(),
                channels@ == self.channel_seq(),
                flows@ == topology.flow_seq(),
                kinds@ == topology.kind_seq(),
                channels@.len() == flows@.len(),
                reals(requested@) == report.requested_values(),
                reals(applied@) == report.applied_values(),
                requested@.len() == flows@.len(),
                applied@.len() == flows@.len(),
                triple_views(requested_internal@) == internal_views(*self, report.requested_values(), t as int),
                triple_views(settled_internal@) == internal_views(*self, report.applied_values(), t as int),
                triple_views(requested_boundary@) == boundary_views(*self, report.requested_values(), t as int),
                triple_views(settled_boundary@) == boundary_views(*self, report.applied_values(), t as int),
            decreases flows.len() - t,
        {
            proof {
                assert(flow_well_formed(
                    topology.flow_seq()[t as int],
                    topology.stock_kind_seq(),
                    topology.kind_seq().len() as int,
                    topology.process_ids().len() as int,
                ));
                assert(reals(requested@)[t as int] == requested@[t as int]@);
                assert(reals(applied@)[t as int] == applied@[t as int]@);
            }
            let kind = &kinds[flows[t].kind()];
            let ghost ri = requested_internal@;
            let ghost si = settled_internal@;
            let ghost rb = requested_boundary@;
            let ghost sb = settled_boundary@;
            match &channels[t] {
                ChannelId::Internal(flow) => {
                    requested_internal.push((flow.clone(), kind.clone(), requested[t].clone()));
                    settled_internal.push((flow.clone(), kind.clone(), applied[t].clone()));
                    proof {
                        assert(triple_views(requested_internal@).drop_last() =~= triple_views(ri));
                        assert(triple_views(settled_internal@).drop_last() =~= triple_views(si));
                        assert(triple_views(requested_internal@) =~= internal_views(*self, report.requested_values(), t + 1));
                        assert(triple_views(settled_internal@) =~= internal_views(*self, report.applied_values(), t + 1));
                    }
                },
                ChannelId::Boundary(port) => {
                    requested_boundary.push((port.clone(), kind.clone(), requested[t].clone()));
                    settled_boundary.push((port.clone(), kind.clone(), applied[t].clone()));
                    proof {
                        assert(triple_views(requested_boundary@).drop_last() =~= triple_views(rb));
                        assert(triple_views(settled_boundary@).drop_last() =~= triple_views(sb));
                        assert(triple_views(requested_boundary@) =~= boundary_views(*self, report.requested_values(), t + 1));
                        assert(triple_views(settled_boundary@) =~= boundary_views(*self, report.applied_values(), t + 1));
                    }
                },
            }
            t += 1;
        }
        proof {
            lemma_views(before_values@);
            lemma_views(after_values@);
            lemma_views(requested_internal@);
            lemma_views(settled_internal@);
            lemma_views(requested_boundary@);
            lemma_views(settled_boundary@);
        }
        let ghost vb = before_values@;
        let ghost va = after_values@;
        let ghost ri = requested_internal@;
        let ghost si = settled_internal@;
        let ghost rb = requested_boundary@;
        let ghost sb = settled_boundary@;
        let before_amounts = match ExactAmounts::new(before_values) {
            Ok(amounts) => amounts,
            Err(error) => {
                proof {
                    let j = choose|j: int| #[trigger] first_repeat(vb, j) && error == StockFlowError::DuplicateValue(vb[j].0.symbol_spec());
                    assert(view_repeat(triple_views(vb), j));
                }
                return Err(error);
            },
        };
        let after_amounts = match ExactAmounts::new(after_values) {
            Ok(amounts) => amounts,
            Err(error) => {
                proof {
                    let j = choose|j: int| #[trigger] first_repeat(va, j) && error == StockFlowError::DuplicateValue(va[j].0.symbol_spec());
                    assert(view_repeat(triple_views(va), j));
                }
                return Err(error);
            },
        };
        let requested_internal_amounts = match ExactAmounts::new(requested_internal) {
            Ok(amounts) => amounts,
            Err(error) => {
                proof {
                    let j = choose|j: int| #[trigger] first_repeat(ri, j) && error == StockFlowError::DuplicateValue(ri[j].0.symbol_spec());
                    assert(view_repeat(triple_views(ri), j));
                }
                return Err(error);
            },
        };
        let settled_internal_amounts = match ExactAmounts::new(settled_internal) {
            Ok(amounts) => amounts,
            Err(error) => {
                proof {
                    let j = choose|j: int| #[trigger] first_repeat(si, j) && error == StockFlowError::DuplicateValue(si[j].0.symbol_spec());
                    assert(view_repeat(triple_views(si), j));
                }
                return Err(error);
            },
        };
        let requested_boundary_amounts = match ExactAmounts::new(requested_boundary) {
            Ok(amounts) => amounts,
            Err(error) => {
                proof {
                    let j = choose|j: int| #[trigger] first_repeat(rb, j) && error == StockFlowError::DuplicateValue(rb[j].0.symbol_spec());
                    assert(view_repeat(triple_views(rb), j));
                }
                return Err(error);
            },
        };
        let settled_boundary_amounts = match ExactAmounts::new(settled_boundary) {
            Ok(amounts) => amounts,
            Err(error) => {
                proof {
                    let j = choose|j: int| #[trigger] first_repeat(sb, j) && error == StockFlowError::DuplicateValue(sb[j].0.symbol_spec());
                    assert(view_repeat(triple_views(sb), j));
                }
                return Err(error);
            },
        };
        let data = TransitionRecordData {
            before: before_amounts,
            after: after_amounts,
            requested_internal: requested_internal_amounts,
            settled_internal: settled_internal_amounts,
            requested_boundary: requested_boundary_amounts,
            settled_boundary: settled_boundary_amounts,
            ledger_before,
            ledger_after,
        };
        let ghost assembled = data;
        let result = TransitionRecord::new(self, data);
        proof {
            if result is Err {
                assert(record_refusal(self.identity_spec(), assembled, result->Err_0));
            }
        }
        result
    }
}

} // verus!
