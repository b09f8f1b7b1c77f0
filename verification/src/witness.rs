//! The record of an exact settlement satisfies the transition equation.
use crate::carrier::{
    axes_as_declared, compiled_from, identity_equivalent, boundary_compiled, boundary_effect, boundary_slot, carrier_valid, channels_valid, declared_axis,
    identity_sound, internal_compiled, internal_effect, internal_slot, names_boundary, names_internal, same_channel,
    stock_index_of, stock_known, ChannelId, ExactAmounts, ExactEffectMatrix, LedgerDefinition, StockAxisDefinition, StockFlowCarrier, Symbol,
};
use crate::dynamics::{flow_well_formed, role_of, FlowRole, FlowTopology};
use crate::evidence::{balanced_row, weighted_columns};
use crate::exact::{applied_amounts, draws_on, feeds, flow_sum, reals, settled_amounts};
use crate::ident::KindId;
use crate::certificate::{certified, open_balanced, CheckedNullspace};
use crate::laws::{column_total, columns_total, law_open_balance_from_transition, lemma_swap, row_total, rows_total};
use crate::rational::Rational;
use crate::record::TransitionRecordData;
use crate::settlement::{boundary_views, holds_views, internal_views, stock_views};
use crate::table::{holds, keys_sorted, lemma_unique_position};
use vstd::prelude::*;

verus! {

/// `value(slot(0)) + ... + value(slot(k - 1))`.
pub open spec fn mapped_total(slot: spec_fn(int) -> int, value: spec_fn(int) -> real, k: int) -> real
    decreases k,
{
    if k <= 0 {
        0real
    } else {
        mapped_total(slot, value, k - 1) + value(slot(k - 1))
    }
}

/// The total of `value(t)` over the first `n` positions that `picks` selects.
pub open spec fn picked_total(picks: spec_fn(int) -> bool, value: spec_fn(int) -> real, n: int) -> real
    decreases n,
{
    if n <= 0 {
        0real
    } else {
        picked_total(picks, value, n - 1) + if picks(n - 1) {
            value(n - 1)
        } else {
            0real
        }
    }
}

/// Whether some of the first `k` positions maps to `t`.
pub open spec fn hit(slot: spec_fn(int) -> int, t: int, k: int) -> bool {
    exists|c: int| 0 <= c < k && #[trigger] slot(c) == t
}

/// A row of the selection matrix holds the one value its position maps to.
proof fn lemma_row_single(g: spec_fn(int, int) -> real, slot: spec_fn(int) -> int, value: spec_fn(int) -> real, c: int, m: int)
    requires
        forall|t: int| #[trigger] g(c, t) == if slot(c) == t {
            value(t)
        } else {
            0real
        },
    ensures
        row_total(g, c, m) == if 0 <= slot(c) < m {
            value(slot(c))
        } else {
            0real
        },
    decreases m,
{
    if m > 0 {
        lemma_row_single(g, slot, value, c, m - 1);
        assert(g(c, m - 1) == if slot(c) == m - 1 {
            value(m - 1)
        } else {
            0real
        });
    }
}

/// A column of the selection matrix holds the value of the position mapped to it, if any.
proof fn lemma_column_single(
    g: spec_fn(int, int) -> real,
    slot: spec_fn(int) -> int,
    value: spec_fn(int) -> real,
    t: int,
    k: int,
)
    requires
        forall|c: int| #[trigger] g(c, t) == if slot(c) == t {
            value(t)
        } else {
            0real
        },
        forall|c: int, d: int| 0 <= c < d < k ==> #[trigger] slot(c) != #[trigger] slot(d),
    ensures
        column_total(g, t, k) == if hit(slot, t, k) {
            value(t)
        } else {
            0real
        },
    decreases k,
{
    if k > 0 {
        lemma_column_single(g, slot, value, t, k - 1);
        assert(g(k - 1, t) == if slot(k - 1) == t {
            value(t)
        } else {
            0real
        });
        if slot(k - 1) == t {
            assert(hit(slot, t, k));
            if hit(slot, t, k - 1) {
                let c = choose|c: int| 0 <= c < k - 1 && #[trigger] slot(c) == t;
                assert(slot(c) != slot(k - 1));
            }
        } else {
            if hit(slot, t, k) {
                let c = choose|c: int| 0 <= c < k && #[trigger] slot(c) == t;
                assert(hit(slot, t, k - 1));
            }
            if hit(slot, t, k - 1) {
                let c = choose|c: int| 0 <= c < k - 1 && #[trigger] slot(c) == t;
                assert(hit(slot, t, k));
            }
        }
    }
}

/// The rows of the selection matrix total the mapped values.
proof fn lemma_rows_mapped(g: spec_fn(int, int) -> real, slot: spec_fn(int) -> int, value: spec_fn(int) -> real, k: int, n: int)
    requires
        forall|c: int, t: int| #[trigger] g(c, t) == if slot(c) == t {
            value(t)
        } else {
            0real
        },
        forall|c: int| 0 <= c < k ==> 0 <= #[trigger] slot(c) < n,
    ensures
        rows_total(g, k, n) == mapped_total(slot, value, k),
    decreases k,
{
    if k > 0 {
        lemma_rows_mapped(g, slot, value, k - 1, n);
        lemma_row_single(g, slot, value, k - 1, n);
    }
}

/// The columns of the selection matrix total the selected values.
proof fn lemma_columns_picked(
    g: spec_fn(int, int) -> real,
    slot: spec_fn(int) -> int,
    value: spec_fn(int) -> real,
    picks: spec_fn(int) -> bool,
    k: int,
    m: int,
)
    requires
        forall|c: int, t: int| #[trigger] g(c, t) == if slot(c) == t {
            value(t)
        } else {
            0real
        },
        forall|c: int, d: int| 0 <= c < d < k ==> #[trigger] slot(c) != #[trigger] slot(d),
        forall|t: int| 0 <= t < m ==> (#[trigger] picks(t) <==> hit(slot, t, k)),
    ensures
        columns_total(g, k, m) == picked_total(picks, value, m),
    decreases m,
{
    if m > 0 {
        lemma_columns_picked(g, slot, value, picks, k, m - 1);
        lemma_column_single(g, slot, value, m - 1, k);
        assert(picks(m - 1) <==> hit(slot, m - 1, k));
    }
}

/// A sum over positions that map one-to-one onto the selected slots is the
/// sum over those slots.
pub(crate) proof fn lemma_reindex(slot: spec_fn(int) -> int, value: spec_fn(int) -> real, picks: spec_fn(int) -> bool, k: int, n: int)
    requires
        0 <= k,
        forall|c: int| 0 <= c < k ==> 0 <= #[trigger] slot(c) < n && picks(slot(c)),
        forall|c: int, d: int| 0 <= c < d < k ==> #[trigger] slot(c) != #[trigger] slot(d),
        forall|t: int| 0 <= t < n && #[trigger] picks(t) ==> hit(slot, t, k),
    ensures
        mapped_total(slot, value, k) == picked_total(picks, value, n),
{
    let g = |c: int, t: int| if slot(c) == t {
        value(t)
    } else {
        0real
    };
    lemma_rows_mapped(g, slot, value, k, n);
    lemma_swap(g, k, n);
    assert forall|t: int| 0 <= t < n implies (#[trigger] picks(t) <==> hit(slot, t, k)) by {
        if hit(slot, t, k) {
            let c = choose|c: int| 0 <= c < k && #[trigger] slot(c) == t;
            assert(picks(slot(c)));
        }
    }
    lemma_columns_picked(g, slot, value, picks, k, n);
}

/// A row's weighted columns, when each term is a value at a mapped slot.
proof fn lemma_weighted_mapped<C: Symbol>(
    m: ExactEffectMatrix<C>,
    r: int,
    amounts: ExactAmounts<C>,
    slot: spec_fn(int) -> int,
    value: spec_fn(int) -> real,
    k: int,
)
    requires
        forall|c: int| 0 <= c < k ==> #[trigger] m.entry(r, c) * amounts.amount_of(m.column_table()[c].0@) == value(slot(c)),
    ensures
        weighted_columns(m, r, amounts, k) == mapped_total(slot, value, k),
    decreases k,
{
    if k > 0 {
        lemma_weighted_mapped(m, r, amounts, slot, value, k - 1);
    }
}

/// The change a slot makes to stock `s`: plus its amount when it delivers
/// to `s`, minus its amount when it draws on `s`.
pub open spec fn stock_effect(topology: FlowTopology<KindId>, s: int, t: int) -> real {
    let flow = topology.flow_seq()[t];
    (if flow.target_spec() matches Some(target) && target == s {
        1real
    } else {
        0real
    }) - (if flow.source_spec() matches Some(source) && source == s {
        1real
    } else {
        0real
    })
}

/// The internal and boundary slots together give each flow's change to `s`.
proof fn lemma_slots_split(topology: FlowTopology<KindId>, channels: Seq<ChannelId>, applied: Seq<real>, s: int, n: int)
    requires
        0 <= n <= topology.flow_seq().len(),
    ensures
        ({
            let value = |t: int| stock_effect(topology, s, t) * applied[t];
            let internal = |t: int| channels[t] is Internal;
            let boundary = |t: int| channels[t] is Boundary;
            picked_total(internal, value, n) + picked_total(boundary, value, n) == flow_sum(
                topology.flow_seq(),
                applied,
                feeds(s),
                n,
            ) - flow_sum(topology.flow_seq(), applied, draws_on(s), n)
        }),
    decreases n,
{
    if n > 0 {
        lemma_slots_split(topology, channels, applied, s, n - 1);
        let flow = topology.flow_seq()[n - 1];
        let a = applied[n - 1];
        let fed = flow.target_spec() matches Some(target) && target == s;
        let drawn = flow.source_spec() matches Some(source) && source == s;
        assert(feeds(s)(flow) == fed);
        assert(draws_on(s)(flow) == drawn);
        if fed {
            if drawn {
                assert(stock_effect(topology, s, n - 1) * a == 0real * a);
                assert(0real * a == 0real) by (nonlinear_arith);
            } else {
                assert(stock_effect(topology, s, n - 1) * a == 1real * a);
                assert(1real * a == a) by (nonlinear_arith);
            }
        } else {
            if drawn {
                assert(stock_effect(topology, s, n - 1) * a == -1real * a);
                assert(-1real * a == -a) by (nonlinear_arith);
            } else {
                assert(stock_effect(topology, s, n - 1) * a == 0real * a);
                assert(0real * a == 0real) by (nonlinear_arith);
            }
        }
    }
}


/// A declared axis names exactly one topology stock: the one its
/// declaration names.
proof fn lemma_axis_stock(topology: FlowTopology<KindId>, defs: Seq<StockAxisDefinition>, i: int, z: int)
    requires
        topology.well_formed(),
        crate::carrier::stock_axes_valid(topology, defs, defs.len() as int),
        crate::carrier::declarations_cover(topology, defs),
        0 <= i < defs.len(),
        0 <= z < topology.stock_ids().len(),
    ensures
        (declared_axis(defs, topology.stock_ids()[z]@) == defs[i].axis@) <==> (topology.stock_ids()[z]@ == defs[i].stock@),
{
    let stock = topology.stock_ids()[z]@;
    assert(crate::carrier::names_stock(defs, stock));
    let j = choose|j: int| 0 <= j < defs.len() && (#[trigger] defs[j]).stock@ == stock;
    assert(declared_axis(defs, stock) == defs[j].axis@);
    if j != i {
        if i < j {
            assert(defs[i].stock@ != defs[j].stock@ && defs[i].axis@ != defs[j].axis@);
        } else {
            assert(defs[j].stock@ != defs[i].stock@ && defs[j].axis@ != defs[i].axis@);
        }
    }
}

/// Distinct positions of a well-formed topology hold distinct stocks.
proof fn lemma_stock_unique(topology: FlowTopology<KindId>, x: int, s: int)
    requires
        topology.well_formed(),
        0 <= x < topology.stock_ids().len(),
        0 <= s < topology.stock_ids().len(),
        topology.stock_ids()[x]@ == topology.stock_ids()[s]@,
    ensures
        x == s,
{
    if x < s {
        assert(topology.stock_ids()[x]@ != topology.stock_ids()[s]@);
    } else if s < x {
        assert(topology.stock_ids()[s]@ != topology.stock_ids()[x]@);
    }
}

/// Each internal slot has an entry among the internal views.
proof fn lemma_internal_view(carrier: StockFlowCarrier, values: Seq<real>, count: int, t: int)
    requires
        0 <= t < count,
        carrier.channel_seq()[t] is Internal,
    ensures
        exists|v: int|
            0 <= v < internal_views(carrier, values, count).len() && (#[trigger] internal_views(carrier, values, count)[v]).0
                == carrier.channel_seq()[t]->Internal_0@ && internal_views(carrier, values, count)[v].2 == values[t],
    decreases count,
{
    let views = internal_views(carrier, values, count);
    if t == count - 1 {
        let v = views.len() - 1;
        assert(views[v].0 == carrier.channel_seq()[t]->Internal_0@);
    } else {
        lemma_internal_view(carrier, values, count - 1, t);
        let earlier = internal_views(carrier, values, count - 1);
        let v = choose|v: int| 0 <= v < earlier.len() && (#[trigger] earlier[v]).0 == carrier.channel_seq()[t]->Internal_0@
            && earlier[v].2 == values[t];
        assert(views[v] == earlier[v]);
    }
}

/// Each boundary slot has an entry among the boundary views.
proof fn lemma_boundary_view(carrier: StockFlowCarrier, values: Seq<real>, count: int, t: int)
    requires
        0 <= t < count,
        carrier.channel_seq()[t] is Boundary,
    ensures
        exists|v: int|
            0 <= v < boundary_views(carrier, values, count).len() && (#[trigger] boundary_views(carrier, values, count)[v]).0
                == carrier.channel_seq()[t]->Boundary_0@ && boundary_views(carrier, values, count)[v].2 == values[t],
    decreases count,
{
    let views = boundary_views(carrier, values, count);
    if t == count - 1 {
        let v = views.len() - 1;
        assert(views[v].0 == carrier.channel_seq()[t]->Boundary_0@);
    } else {
        lemma_boundary_view(carrier, values, count - 1, t);
        let earlier = boundary_views(carrier, values, count - 1);
        let v = choose|v: int| 0 <= v < earlier.len() && (#[trigger] earlier[v]).0 == carrier.channel_seq()[t]->Boundary_0@
            && earlier[v].2 == values[t];
        assert(views[v] == earlier[v]);
    }
}

/// The stock whose declared axis is row `r`'s axis.
proof fn lemma_row_stock(carrier: StockFlowCarrier, defs: Seq<StockAxisDefinition>, ledgers: Seq<LedgerDefinition>, r: int) -> (s: int)
    requires
        compiled_from(carrier, defs, ledgers),
        0 <= r < carrier.identity_spec().internal_spec().row_table().len(),
    ensures
        0 <= s < carrier.topology_spec().stock_ids().len(),
        forall|z: int| 0 <= z < carrier.topology_spec().stock_ids().len() ==> ((declared_axis(
            defs,
            (#[trigger] carrier.topology_spec().stock_ids()[z])@,
        ) == carrier.identity_spec().internal_spec().row_table()[r].0@) <==> z == s),
        crate::table::value_of(carrier.stock_axis_table(), carrier.topology_spec().stock_ids()[s]@)@
            == carrier.identity_spec().internal_spec().row_table()[r].0@,
{
    let topology = carrier.topology_spec();
    let rows = carrier.identity_spec().internal_spec().row_table();
    let a = rows[r].0@;
    assert(holds(rows, a));
    assert(crate::carrier::axis_declared(defs, a));
    let i = choose|i: int| 0 <= i < defs.len() && (#[trigger] defs[i]).axis@ == a;
    assert(crate::carrier::stock_known(topology, defs[i].stock@));
    let s = stock_index_of(topology, defs[i].stock@);
    assert(topology.stock_ids()[s]@ == defs[i].stock@);
    assert forall|z: int| 0 <= z < topology.stock_ids().len() implies ((declared_axis(defs, (#[trigger] topology.stock_ids()[z])@)
        == a) <==> z == s) by {
        lemma_axis_stock(topology, defs, i, z);
        if topology.stock_ids()[z]@ == defs[i].stock@ {
            lemma_stock_unique(topology, z, s);
        }
    }
    lemma_axis_stock(topology, defs, i, s);
    s
}

/// The internal matrix keeps kinds apart: a nonzero entry joins a row and a
/// column of the same kind.
pub(crate) proof fn lemma_kinds_apart(carrier: StockFlowCarrier, defs: Seq<StockAxisDefinition>, ledgers: Seq<LedgerDefinition>, r: int, c: int)
    requires
        compiled_from(carrier, defs, ledgers),
        0 <= r < carrier.identity_spec().internal_spec().row_table().len(),
        0 <= c < carrier.identity_spec().internal_spec().column_table().len(),
        carrier.identity_spec().internal_spec().entry(r, c) != 0real,
    ensures
        carrier.identity_spec().internal_spec().row_table()[r].1@ == carrier.identity_spec().internal_spec().column_table()[c].1@,
{
    let topology = carrier.topology_spec();
    let channels = carrier.channel_seq();
    let internal = carrier.identity_spec().internal_spec();
    let rows = internal.row_table();
    let columns = internal.column_table();
    let s = lemma_row_stock(carrier, defs, ledgers, r);
    let key = columns[c].0@;
    assert(holds(columns, key));
    let t = internal_slot(channels, key);
    assert(0 <= t < channels.len() && names_internal(channels[t], key));
    let f = topology.flow_seq()[t];
    assert(crate::carrier::channel_fits(f.role_spec(), channels[t]));
    assert(flow_well_formed(f, topology.stock_kind_seq(), topology.kind_seq().len() as int, topology.process_ids().len() as int));
    assert(f.source_spec() is Some && f.target_spec() is Some);
    let source = f.source_spec()->0 as int;
    let target = f.target_spec()->0 as int;
    assert(internal.entry(r, c) == internal_effect(topology, defs, channels, rows[r].0@, key));
    assert(source == s || target == s);
    assert(topology.stock_kind_seq()[s] == f.kind_spec());
    assert(holds(rows, rows[r].0@));
    assert(crate::carrier::axis_declared(defs, rows[r].0@));
    let i = choose|i: int| 0 <= i < defs.len() && (#[trigger] defs[i]).axis@ == rows[r].0@;
    assert(holds(rows, defs[i].axis@));
    crate::table::lemma_position(rows, r);
    assert(stock_known(topology, defs[i].stock@));
    let z = stock_index_of(topology, defs[i].stock@);
    lemma_axis_stock(topology, defs, i, z);
    assert(z == s);
}

/// One internal column's term in row `r`'s accounted change is the change
/// its slot makes to the row's stock.
proof fn lemma_internal_term(
    carrier: StockFlowCarrier,
    defs: Seq<StockAxisDefinition>,
    ledgers: Seq<LedgerDefinition>,
    applied: Seq<real>,
    data: TransitionRecordData,
    r: int,
    s: int,
    c: int,
)
    requires
        compiled_from(carrier, defs, ledgers),
        0 <= r < carrier.identity_spec().internal_spec().row_table().len(),
        0 <= s < carrier.topology_spec().stock_ids().len(),
        forall|z: int| 0 <= z < carrier.topology_spec().stock_ids().len() ==> ((declared_axis(
            defs,
            (#[trigger] carrier.topology_spec().stock_ids()[z])@,
        ) == carrier.identity_spec().internal_spec().row_table()[r].0@) <==> z == s),
        0 <= c < carrier.identity_spec().internal_spec().column_table().len(),
        holds_views(data.settled_internal, internal_views(carrier, applied, carrier.topology_spec().flow_seq().len() as int)),
    ensures
        ({
            let internal = carrier.identity_spec().internal_spec();
            let t = internal_slot(carrier.channel_seq(), internal.column_table()[c].0@);
            &&& 0 <= t < carrier.topology_spec().flow_seq().len()
            &&& carrier.channel_seq()[t] is Internal
            &&& names_internal(carrier.channel_seq()[t], internal.column_table()[c].0@)
            &&& internal.entry(r, c) * data.settled_internal.amount_of(internal.column_table()[c].0@) == stock_effect(
                carrier.topology_spec(),
                s,
                t,
            ) * applied[t]
        }),
{
    let topology = carrier.topology_spec();
    let channels = carrier.channel_seq();
    let internal = carrier.identity_spec().internal_spec();
    let columns = internal.column_table();
    let name = columns[c].0@;
    let n = topology.flow_seq().len() as int;
    assert(holds(columns, name));
    let t = internal_slot(channels, name);
    assert(names_internal(channels[t], name));
    assert(internal.entry(r, c) == internal_effect(topology, defs, channels, internal.row_table()[r].0@, name));
    let flow = topology.flow_seq()[t];
    assert(crate::carrier::channel_fits(flow.role_spec(), channels[t]));
    assert(flow_well_formed(flow, topology.stock_kind_seq(), topology.kind_seq().len() as int, topology.process_ids().len() as int));
    let x = flow.source_spec()->0 as int;
    let y = flow.target_spec()->0 as int;
    assert(declared_axis(defs, topology.stock_ids()[x]@) == internal.row_table()[r].0@ <==> x == s);
    assert(declared_axis(defs, topology.stock_ids()[y]@) == internal.row_table()[r].0@ <==> y == s);
    assert(internal.entry(r, c) == stock_effect(topology, s, t));
    lemma_internal_view(carrier, applied, n, t);
    let views = internal_views(carrier, applied, n);
    let v = choose|v: int| 0 <= v < views.len() && (#[trigger] views[v]).0 == channels[t]->Internal_0@ && views[v].2 == applied[t];
    assert(data.settled_internal.names(views[v].0));
}

/// One boundary column's term in row `r`'s accounted change is the change
/// its slot makes to the row's stock.
proof fn lemma_boundary_term(
    carrier: StockFlowCarrier,
    defs: Seq<StockAxisDefinition>,
    ledgers: Seq<LedgerDefinition>,
    applied: Seq<real>,
    data: TransitionRecordData,
    r: int,
    s: int,
    d: int,
)
    requires
        compiled_from(carrier, defs, ledgers),
        0 <= r < carrier.identity_spec().internal_spec().row_table().len(),
        0 <= s < carrier.topology_spec().stock_ids().len(),
        forall|z: int| 0 <= z < carrier.topology_spec().stock_ids().len() ==> ((declared_axis(
            defs,
            (#[trigger] carrier.topology_spec().stock_ids()[z])@,
        ) == carrier.identity_spec().internal_spec().row_table()[r].0@) <==> z == s),
        0 <= d < carrier.identity_spec().boundary_spec().column_table().len(),
        holds_views(data.settled_boundary, boundary_views(carrier, applied, carrier.topology_spec().flow_seq().len() as int)),
    ensures
        ({
            let boundary = carrier.identity_spec().boundary_spec();
            let t = boundary_slot(carrier.channel_seq(), boundary.column_table()[d].0@);
            &&& 0 <= t < carrier.topology_spec().flow_seq().len()
            &&& carrier.channel_seq()[t] is Boundary
            &&& names_boundary(carrier.channel_seq()[t], boundary.column_table()[d].0@)
            &&& boundary.entry(r, d) * data.settled_boundary.amount_of(boundary.column_table()[d].0@) == stock_effect(
                carrier.topology_spec(),
                s,
                t,
            ) * applied[t]
        }),
{
    let topology = carrier.topology_spec();
    let channels = carrier.channel_seq();
    let boundary = carrier.identity_spec().boundary_spec();
    let columns = boundary.column_table();
    let port = columns[d].0@;
    let n = topology.flow_seq().len() as int;
    assert(holds(columns, port));
    assert(crate::carrier::port_known(channels, port));
    let t = boundary_slot(channels, port);
    assert(names_boundary(channels[t], port));
    assert(boundary.row_table() == carrier.identity_spec().internal_spec().row_table());
    assert(boundary.entry(r, d) == boundary_effect(topology, defs, channels, boundary.row_table()[r].0@, port));
    let flow = topology.flow_seq()[t];
    assert(crate::carrier::channel_fits(flow.role_spec(), channels[t]));
    assert(flow_well_formed(flow, topology.stock_kind_seq(), topology.kind_seq().len() as int, topology.process_ids().len() as int));
    let z = crate::carrier::boundary_stock(topology, t);
    assert(declared_axis(defs, topology.stock_ids()[z]@) == boundary.row_table()[r].0@ <==> z == s);
    assert(boundary.entry(r, d) == stock_effect(topology, s, t));
    lemma_boundary_view(carrier, applied, n, t);
    let views = boundary_views(carrier, applied, n);
    let v = choose|v: int| 0 <= v < views.len() && (#[trigger] views[v]).0 == channels[t]->Boundary_0@ && views[v].2 == applied[t];
    assert(data.settled_boundary.names(views[v].0));
}

/// Whether a record holds, slot by slot and stock by stock, the amounts of
/// an exact settlement of `requested` from `before` to `after`.
pub open spec fn settlement_record(
    carrier: StockFlowCarrier,
    before: Seq<Rational>,
    after: Seq<Rational>,
    requested: Seq<real>,
    data: TransitionRecordData,
) -> bool {
    let topology = carrier.topology_spec();
    let slots = topology.flow_seq().len() as int;
    let applied = applied_amounts(topology, reals(before), requested);
    &&& before.len() == topology.stock_ids().len()
    &&& after.len() == topology.stock_ids().len()
    &&& reals(after) == settled_amounts(topology, reals(before), requested)
    &&& holds_views(data.before, stock_views(carrier, before))
    &&& holds_views(data.after, stock_views(carrier, after))
    &&& holds_views(data.settled_internal, internal_views(carrier, applied, slots))
    &&& holds_views(data.settled_boundary, boundary_views(carrier, applied, slots))
}

/// Row `r` of a settlement's record satisfies the transition equation.
proof fn lemma_row_balanced(
    carrier: StockFlowCarrier,
    defs: Seq<StockAxisDefinition>,
    ledgers: Seq<LedgerDefinition>,
    before: Seq<Rational>,
    after: Seq<Rational>,
    requested: Seq<real>,
    data: TransitionRecordData,
    r: int,
)
    requires
        compiled_from(carrier, defs, ledgers),
        settlement_record(carrier, before, after, requested, data),
        0 <= r < carrier.identity_spec().internal_spec().row_table().len(),
    ensures
        balanced_row(carrier.identity_spec(), data, r),
{
    let topology = carrier.topology_spec();
    let channels = carrier.channel_seq();
    let identity = carrier.identity_spec();
    let internal = identity.internal_spec();
    let boundary = identity.boundary_spec();
    let n = topology.flow_seq().len() as int;
    let applied = applied_amounts(topology, reals(before), requested);
    let s = lemma_row_stock(carrier, defs, ledgers, r);
    let a = internal.row_table()[r].0@;

    let before_views = stock_views(carrier, before);
    let after_views = stock_views(carrier, after);
    assert(before_views[s].0 == a);
    assert(after_views[s].0 == a);
    assert(data.before.names(before_views[s].0));
    assert(data.after.names(after_views[s].0));
    assert(reals(after)[s] == after[s]@);
    assert(reals(before)[s] == before[s]@);
    assert(reals(after)[s] == crate::exact::settled_amount(topology, reals(before), requested, s));

    let value = |t: int| stock_effect(topology, s, t) * applied[t];
    let internal_slots = |c: int| internal_slot(channels, internal.column_table()[c].0@);
    let internal_picks = |t: int| channels[t] is Internal;
    let mi = internal.column_table().len() as int;
    assert forall|c: int| 0 <= c < mi implies #[trigger] internal.entry(r, c) * data.settled_internal.amount_of(
        internal.column_table()[c].0@,
    ) == value(internal_slots(c)) && 0 <= internal_slots(c) < n && internal_picks(internal_slots(c)) by {
        lemma_internal_term(carrier, defs, ledgers, applied, data, r, s, c);
    }
    lemma_weighted_mapped(internal, r, data.settled_internal, internal_slots, value, mi);
    assert forall|c: int, e: int| 0 <= c < e < mi implies #[trigger] internal_slots(c) != #[trigger] internal_slots(e) by {
        lemma_internal_term(carrier, defs, ledgers, applied, data, r, s, c);
        lemma_internal_term(carrier, defs, ledgers, applied, data, r, s, e);
        assert(crate::text::text_lt(internal.column_table()[c].0@, internal.column_table()[e].0@));
        crate::text::lemma_text_lt_irreflexive(internal.column_table()[c].0@);
    }
    assert forall|t: int| 0 <= t < n && #[trigger] internal_picks(t) implies hit(internal_slots, t, mi) by {
        let name = channels[t]->Internal_0@;
        assert(names_internal(channels[t], name));
        assert(holds(internal.column_table(), name));
        let c = choose|c: int| 0 <= c < internal.column_table().len() && (#[trigger] internal.column_table()[c]).0@ == name;
        let u = internal_slots(c);
        assert(names_internal(channels[u], name));
        if u != t {
            if u < t {
                assert(!same_channel(channels[u], channels[t]));
            } else {
                assert(!same_channel(channels[t], channels[u]));
            }
        }
        assert(internal_slots(c) == t);
    }
    assert forall|c: int| 0 <= c < mi implies 0 <= #[trigger] internal_slots(c) < n && internal_picks(internal_slots(c)) by {
        lemma_internal_term(carrier, defs, ledgers, applied, data, r, s, c);
    }
    lemma_reindex(internal_slots, value, internal_picks, mi, n);

    let boundary_slots = |d: int| boundary_slot(channels, boundary.column_table()[d].0@);
    let boundary_picks = |t: int| channels[t] is Boundary;
    let mb = boundary.column_table().len() as int;
    assert forall|d: int| 0 <= d < mb implies #[trigger] boundary.entry(r, d) * data.settled_boundary.amount_of(
        boundary.column_table()[d].0@,
    ) == value(boundary_slots(d)) && 0 <= boundary_slots(d) < n && boundary_picks(boundary_slots(d)) by {
        lemma_boundary_term(carrier, defs, ledgers, applied, data, r, s, d);
    }
    lemma_weighted_mapped(boundary, r, data.settled_boundary, boundary_slots, value, mb);
    assert forall|c: int, e: int| 0 <= c < e < mb implies #[trigger] boundary_slots(c) != #[trigger] boundary_slots(e) by {
        lemma_boundary_term(carrier, defs, ledgers, applied, data, r, s, c);
        lemma_boundary_term(carrier, defs, ledgers, applied, data, r, s, e);
        assert(crate::text::text_lt(boundary.column_table()[c].0@, boundary.column_table()[e].0@));
        crate::text::lemma_text_lt_irreflexive(boundary.column_table()[c].0@);
    }
    assert forall|t: int| 0 <= t < n && #[trigger] boundary_picks(t) implies hit(boundary_slots, t, mb) by {
        let name = channels[t]->Boundary_0@;
        assert(names_boundary(channels[t], name));
        assert(crate::carrier::port_known(channels, name));
        assert(holds(boundary.column_table(), name));
        let d = choose|d: int| 0 <= d < boundary.column_table().len() && (#[trigger] boundary.column_table()[d]).0@ == name;
        let u = boundary_slots(d);
        assert(names_boundary(channels[u], name));
        if u != t {
            if u < t {
                assert(!same_channel(channels[u], channels[t]));
            } else {
                assert(!same_channel(channels[t], channels[u]));
            }
        }
        assert(boundary_slots(d) == t);
    }
    assert forall|d: int| 0 <= d < mb implies 0 <= #[trigger] boundary_slots(d) < n && boundary_picks(boundary_slots(d)) by {
        lemma_boundary_term(carrier, defs, ledgers, applied, data, r, s, d);
    }
    lemma_reindex(boundary_slots, value, boundary_picks, mb, n);
    lemma_slots_split(topology, channels, applied, s, n);
}

/// Settlement witness: the record assembled from an exact settlement of a
/// carrier's topology satisfies the transition equation `after - before =
/// S f + B b` on every stock row, for every carrier compiled from
/// declarations.
pub proof fn law_settlement_balances(
    carrier: StockFlowCarrier,
    defs: Seq<StockAxisDefinition>,
    ledgers: Seq<LedgerDefinition>,
    before: Seq<Rational>,
    after: Seq<Rational>,
    requested: Seq<real>,
    data: TransitionRecordData,
)
    requires
        compiled_from(carrier, defs, ledgers),
        settlement_record(carrier, before, after, requested, data),
    ensures
        forall|r: int| 0 <= r < carrier.identity_spec().internal_spec().row_table().len() ==> #[trigger] balanced_row(
            carrier.identity_spec(),
            data,
            r,
        ),
{
    assert forall|r: int| 0 <= r < carrier.identity_spec().internal_spec().row_table().len() implies #[trigger] balanced_row(
        carrier.identity_spec(),
        data,
        r,
    ) by {
        lemma_row_balanced(carrier, defs, ledgers, before, after, requested, data, r);
    }
}

/// Settlement open balance: every open balance certified against a carrier
/// compiled from declarations holds of the record of each exact settlement
/// of its topology.
pub proof fn law_settlement_open_balance(
    carrier: StockFlowCarrier,
    defs: Seq<StockAxisDefinition>,
    ledgers: Seq<LedgerDefinition>,
    before: Seq<Rational>,
    after: Seq<Rational>,
    requested: Seq<real>,
    data: TransitionRecordData,
    certificate: CheckedNullspace,
)
    requires
        compiled_from(carrier, defs, ledgers),
        settlement_record(carrier, before, after, requested, data),
        certified(certificate.carrier_spec(), certificate.law_spec(), certificate.annihilation_table(), certificate.boundary_table()),
        identity_equivalent(certificate.carrier_spec(), carrier.identity_spec()),
    ensures
        open_balanced(certificate, data),
{
    law_settlement_balances(carrier, defs, ledgers, before, after, requested, data);
    law_open_balance_from_transition(certificate, carrier.identity_spec(), data);
}

} // verus!
