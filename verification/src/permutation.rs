//! Settlement does not depend on the order in which flows are declared.
use crate::dynamics::{compiles, first_occurrence_order, stocks_compiled, CompiledFlow, FlowSpec, FlowTopology, ProcessDefinition, StockDefinition};
use crate::exact::{
    applied_amounts, batch_accepted, batch_inputs, batch_outputs, breaches_floor, draws_on, enters, feeds, flow_sum, leaves,
    refused_at, refusing_flow, settled_amounts, source_scale, withdrawal,
};
use crate::kind::Kind;
use crate::witness::{hit, lemma_reindex, mapped_total, picked_total};
use vstd::prelude::*;

verus! {

/// Whether `order` is a permutation of the first `n` positions.
pub open spec fn is_permutation(order: Seq<int>, n: int) -> bool {
    &&& order.len() == n
    &&& forall|f: int| 0 <= f < n ==> 0 <= #[trigger] order[f] < n
    &&& forall|f: int, g: int| 0 <= f < g < n ==> #[trigger] order[f] != #[trigger] order[g]
    &&& forall|t: int| 0 <= t < n ==> #[trigger] reaches(order, n, t)
}

/// Whether some of the first `n` positions is sent to `t`.
pub open spec fn reaches(order: Seq<int>, n: int, t: int) -> bool {
    exists|f: int| 0 <= f < n && #[trigger] order[f] == t
}

/// Whether index `v` occurs among the first `i` entries.
spec fn seen(indices: Seq<usize>, i: int, v: int) -> bool {
    exists|j: int| 0 <= j < i && indices[j] == v
}

/// Under first-occurrence numbering, the indices seen in a prefix are closed
/// downwards.
proof fn lemma_seen_closed(indices: Seq<usize>, count: int, i: int, v: int, z: int)
    requires
        first_occurrence_order(indices, count),
        0 <= i <= indices.len(),
        seen(indices, i, v),
        0 <= z <= v,
    ensures
        seen(indices, i, z),
    decreases v - z,
{
    if z < v {
        let j = choose|j: int| 0 <= j < i && indices[j] == v;
        assert(indices[j] > 0);
        let k = choose|k: int| 0 <= k < j && #[trigger] indices[k] + 1 == indices[j];
        assert(seen(indices, i, v - 1));
        lemma_seen_closed(indices, count, i, v - 1, z);
    }
}

/// Two first-occurrence numberings of the same stocks' kinds agree on the
/// first `i` stocks.
proof fn lemma_numbering_prefix<K: Kind>(
    stocks: Seq<StockDefinition<K>>,
    ids_a: Seq<crate::ident::StockId>,
    sk_a: Seq<usize>,
    kinds_a: Seq<K>,
    ids_b: Seq<crate::ident::StockId>,
    sk_b: Seq<usize>,
    kinds_b: Seq<K>,
    i: int,
)
    requires
        stocks_compiled(stocks, stocks.len() as int, ids_a, sk_a, kinds_a),
        stocks_compiled(stocks, stocks.len() as int, ids_b, sk_b, kinds_b),
        first_occurrence_order(sk_a, kinds_a.len() as int),
        first_occurrence_order(sk_b, kinds_b.len() as int),
        0 <= i <= stocks.len(),
    ensures
        forall|j: int| 0 <= j < i ==> #[trigger] sk_a[j] == sk_b[j],
    decreases i,
{
    if i > 0 {
        let k = i - 1;
        lemma_numbering_prefix(stocks, ids_a, sk_a, kinds_a, ids_b, sk_b, kinds_b, k);
        let x = sk_a[k] as int;
        let y = sk_b[k] as int;
        let ka = kinds_a[x];
        let kb = kinds_b[y];
        assert(ka.identity() == stocks[k].kind.identity());
        assert(kb.identity() == stocks[k].kind.identity());
        if exists|j: int| 0 <= j < k && (#[trigger] stocks[j]).kind.identity() == stocks[k].kind.identity() {
            let j = choose|j: int| 0 <= j < k && (#[trigger] stocks[j]).kind.identity() == stocks[k].kind.identity();
            assert(kinds_a[sk_a[j] as int].identity() == stocks[j].kind.identity());
            assert(kinds_b[sk_b[j] as int].identity() == stocks[j].kind.identity());
            if sk_a[j] as int != x {
                if (sk_a[j] as int) < x {
                    assert(kinds_a[sk_a[j] as int].identity() != kinds_a[x].identity());
                } else {
                    assert(kinds_a[x].identity() != kinds_a[sk_a[j] as int].identity());
                }
            }
            if sk_b[j] as int != y {
                if (sk_b[j] as int) < y {
                    assert(kinds_b[sk_b[j] as int].identity() != kinds_b[y].identity());
                } else {
                    assert(kinds_b[y].identity() != kinds_b[sk_b[j] as int].identity());
                }
            }
            assert(sk_a[j] == sk_b[j]);
        } else {
            assert(!seen(sk_a, k, x)) by {
                if seen(sk_a, k, x) {
                    let j = choose|j: int| 0 <= j < k && sk_a[j] == x;
                    assert(kinds_a[sk_a[j] as int].identity() == stocks[j].kind.identity());
                }
            }
            assert(!seen(sk_b, k, y)) by {
                if seen(sk_b, k, y) {
                    let j = choose|j: int| 0 <= j < k && sk_b[j] == y;
                    assert(kinds_b[sk_b[j] as int].identity() == stocks[j].kind.identity());
                }
            }
            assert forall|v: int| seen(sk_a, k, v) == seen(sk_b, k, v) by {
                if seen(sk_a, k, v) {
                    let j = choose|j: int| 0 <= j < k && sk_a[j] == v;
                    assert(sk_b[j] == sk_a[j]);
                }
                if seen(sk_b, k, v) {
                    let j = choose|j: int| 0 <= j < k && sk_b[j] == v;
                    assert(sk_b[j] == sk_a[j]);
                }
            }
            if x < y {
                let m = choose|m: int| 0 <= m < k && #[trigger] sk_b[m] + 1 == sk_b[k];
                assert(seen(sk_b, k, y - 1));
                assert(seen(sk_a, k, y - 1));
                lemma_seen_closed(sk_a, kinds_a.len() as int, k, y - 1, x);
            } else if y < x {
                let m = choose|m: int| 0 <= m < k && #[trigger] sk_a[m] + 1 == sk_a[k];
                assert(seen(sk_a, k, x - 1));
                assert(seen(sk_b, k, x - 1));
                lemma_seen_closed(sk_b, kinds_b.len() as int, k, x - 1, y);
            }
        }
    }
}

/// Whether `b` is `a` with its flows declared in another order: the same
/// stocks, floors and kinds, and flow `f` of `a` is flow `order[f]` of `b`,
/// with the same endpoints, kind, role and rationing.
pub open spec fn permuted_layout<K: Kind>(a: FlowTopology<K>, b: FlowTopology<K>, order: Seq<int>) -> bool {
    &&& a.stock_ids().len() == b.stock_ids().len()
    &&& a.stock_kind_seq() == b.stock_kind_seq()
    &&& forall|s: int| 0 <= s < a.stock_ids().len() ==> #[trigger] a.stock_floor(s) == b.stock_floor(s)
    &&& a.kind_seq().len() == b.kind_seq().len()
    &&& a.flow_seq().len() == b.flow_seq().len()
    &&& is_permutation(order, a.flow_seq().len() as int)
    &&& forall|f: int| 0 <= f < a.flow_seq().len() ==> {
        let x = #[trigger] a.flow_seq()[f];
        let y = b.flow_seq()[order[f]];
        &&& x.source_spec() == y.source_spec()
        &&& x.target_spec() == y.target_spec()
        &&& x.kind_spec() == y.kind_spec()
        &&& x.role_spec() == y.role_spec()
        &&& a.rationing_seq()[x.process_spec() as int] == b.rationing_seq()[y.process_spec() as int]
    }
}

/// Whether `second` holds the values of `first` in the permuted positions.
pub open spec fn permuted_values(first: Seq<real>, second: Seq<real>, order: Seq<int>) -> bool {
    &&& first.len() == order.len()
    &&& second.len() == order.len()
    &&& forall|f: int| 0 <= f < order.len() ==> #[trigger] second[order[f]] == first[f]
}

/// A flow sum is the mapped total of the selected values over the positions.
proof fn lemma_flow_sum_mapped(
    flows: Seq<CompiledFlow>,
    values: Seq<real>,
    selects: spec_fn(CompiledFlow) -> bool,
    slot: spec_fn(int) -> int,
    value: spec_fn(int) -> real,
    n: int,
)
    requires
        forall|t: int| #[trigger] slot(t) == t,
        forall|t: int| #[trigger] value(t) == if selects(flows[t]) {
            values[t]
        } else {
            0real
        },
    ensures
        flow_sum(flows, values, selects, n) == mapped_total(slot, value, n),
    decreases n,
{
    if n > 0 {
        lemma_flow_sum_mapped(flows, values, selects, slot, value, n - 1);
        assert(slot(n - 1) == n - 1);
    }
}

/// A picked total that picks every position is the plain total.
proof fn lemma_picked_all(picks: spec_fn(int) -> bool, slot: spec_fn(int) -> int, value: spec_fn(int) -> real, n: int)
    requires
        forall|t: int| #[trigger] picks(t),
        forall|t: int| #[trigger] slot(t) == t,
    ensures
        picked_total(picks, value, n) == mapped_total(slot, value, n),
    decreases n,
{
    if n > 0 {
        lemma_picked_all(picks, slot, value, n - 1);
        assert(picks(n - 1));
        assert(slot(n - 1) == n - 1);
    }
}

/// Two mapped totals that agree term by term are equal.
proof fn lemma_mapped_terms(
    first_slot: spec_fn(int) -> int,
    first: spec_fn(int) -> real,
    second_slot: spec_fn(int) -> int,
    second: spec_fn(int) -> real,
    n: int,
)
    requires
        forall|i: int| 0 <= i < n ==> #[trigger] first(first_slot(i)) == second(second_slot(i)),
    ensures
        mapped_total(first_slot, first, n) == mapped_total(second_slot, second, n),
    decreases n,
{
    if n > 0 {
        lemma_mapped_terms(first_slot, first, second_slot, second, n - 1);
        assert(first(first_slot(n - 1)) == second(second_slot(n - 1)));
    }
}

/// Summing permuted values over permuted flows that select alike gives the same sum.
proof fn lemma_flow_sum_permuted(
    a: Seq<CompiledFlow>,
    b: Seq<CompiledFlow>,
    va: Seq<real>,
    vb: Seq<real>,
    selects: spec_fn(CompiledFlow) -> bool,
    order: Seq<int>,
)
    requires
        a.len() == b.len(),
        is_permutation(order, a.len() as int),
        permuted_values(va, vb, order),
        forall|f: int| 0 <= f < a.len() ==> #[trigger] selects(a[f]) == selects(b[order[f]]),
    ensures
        flow_sum(a, va, selects, a.len() as int) == flow_sum(b, vb, selects, b.len() as int),
{
    let n = a.len() as int;
    let ident = |t: int| t;
    let slot = |t: int| order[t];
    let all = |t: int| true;
    let value_a = |t: int| if selects(a[t]) {
        va[t]
    } else {
        0real
    };
    let value_b = |t: int| if selects(b[t]) {
        vb[t]
    } else {
        0real
    };
    lemma_flow_sum_mapped(a, va, selects, ident, value_a, n);
    lemma_flow_sum_mapped(b, vb, selects, ident, value_b, n);
    lemma_picked_all(all, ident, value_b, n);
    assert forall|f: int| 0 <= f < n implies 0 <= #[trigger] slot(f) < n && all(slot(f)) by {}
    assert forall|f: int, g: int| 0 <= f < g < n implies #[trigger] slot(f) != #[trigger] slot(g) by {
        assert(order[f] != order[g]);
    }
    assert forall|t: int| 0 <= t < n && #[trigger] all(t) implies hit(slot, t, n) by {
        assert(reaches(order, n, t));
        let f = choose|f: int| 0 <= f < n && #[trigger] order[f] == t;
        assert(slot(f) == t);
    }
    lemma_reindex(slot, value_b, all, n, n);
    assert forall|i: int| 0 <= i < n implies #[trigger] value_b(slot(i)) == value_a(ident(i)) by {
        assert(selects(a[i]) == selects(b[order[i]]));
        assert(vb[order[i]] == va[i]);
    }
    lemma_mapped_terms(slot, value_b, ident, value_a, n);
}

/// Declaring the same flows in another order settles the same permuted
/// requests alike: the batch is accepted or refused alike, each flow gets the
/// same amount, and the stocks and boundary accounts end the same.
pub proof fn law_flow_order_does_not_matter<K: Kind>(
    a: FlowTopology<K>,
    b: FlowTopology<K>,
    order: Seq<int>,
    amounts: Seq<real>,
    requested_a: Seq<real>,
    requested_b: Seq<real>,
)
    requires
        a.well_formed(),
        permuted_layout(a, b, order),
        permuted_values(requested_a, requested_b, order),
        amounts.len() == a.stock_ids().len(),
    ensures
        batch_accepted(a, amounts, requested_a) == batch_accepted(b, amounts, requested_b),
        permuted_values(applied_amounts(a, amounts, requested_a), applied_amounts(b, amounts, requested_b), order),
        settled_amounts(a, amounts, requested_a) == settled_amounts(b, amounts, requested_b),
        batch_inputs(a, amounts, requested_a) == batch_inputs(b, amounts, requested_b),
        batch_outputs(a, amounts, requested_a) == batch_outputs(b, amounts, requested_b),
{
    let fa = a.flow_seq();
    let fb = b.flow_seq();
    let n = fa.len() as int;
    assert forall|s: int| 0 <= s < amounts.len() implies #[trigger] withdrawal(a, requested_a, s) == withdrawal(b, requested_b, s) by {
        assert forall|f: int| 0 <= f < n implies #[trigger] draws_on(s)(fa[f]) == draws_on(s)(fb[order[f]]) by {}
        lemma_flow_sum_permuted(fa, fb, requested_a, requested_b, draws_on(s), order);
    }
    let applied_a = applied_amounts(a, amounts, requested_a);
    let applied_b = applied_amounts(b, amounts, requested_b);
    assert forall|f: int| 0 <= f < n implies #[trigger] applied_b[order[f]] == applied_a[f] by {
        let t = order[f];
        assert(0 <= t < n);
        assert(crate::dynamics::flow_well_formed(fa[f], a.stock_kind_seq(), a.kind_seq().len() as int, a.process_ids().len() as int));
        if let Some(source) = fa[f].source_spec() {
            assert(withdrawal(a, requested_a, source as int) == withdrawal(b, requested_b, source as int));
            assert(source_scale(a, amounts, requested_a, source as int) == source_scale(b, amounts, requested_b, source as int));
        }
    }
    assert(permuted_values(applied_a, applied_b, order));
    let settled_a = settled_amounts(a, amounts, requested_a);
    let settled_b = settled_amounts(b, amounts, requested_b);
    assert forall|s: int| 0 <= s < amounts.len() implies #[trigger] settled_a[s] == settled_b[s] by {
        assert forall|f: int| 0 <= f < n implies #[trigger] draws_on(s)(fa[f]) == draws_on(s)(fb[order[f]]) by {}
        assert forall|f: int| 0 <= f < n implies #[trigger] feeds(s)(fa[f]) == feeds(s)(fb[order[f]]) by {}
        lemma_flow_sum_permuted(fa, fb, applied_a, applied_b, draws_on(s), order);
        lemma_flow_sum_permuted(fa, fb, applied_a, applied_b, feeds(s), order);
    }
    assert(settled_a =~= settled_b);
    let inputs_a = batch_inputs(a, amounts, requested_a);
    let inputs_b = batch_inputs(b, amounts, requested_b);
    assert forall|k: int| 0 <= k < inputs_a.len() implies #[trigger] inputs_a[k] == inputs_b[k] by {
        assert forall|f: int| 0 <= f < n implies #[trigger] enters(k)(fa[f]) == enters(k)(fb[order[f]]) by {}
        lemma_flow_sum_permuted(fa, fb, applied_a, applied_b, enters(k), order);
    }
    assert(inputs_a =~= inputs_b);
    let outputs_a = batch_outputs(a, amounts, requested_a);
    let outputs_b = batch_outputs(b, amounts, requested_b);
    assert forall|k: int| 0 <= k < outputs_a.len() implies #[trigger] outputs_a[k] == outputs_b[k] by {
        assert forall|f: int| 0 <= f < n implies #[trigger] leaves(k)(fa[f]) == leaves(k)(fb[order[f]]) by {}
        lemma_flow_sum_permuted(fa, fb, applied_a, applied_b, leaves(k), order);
    }
    assert(outputs_a =~= outputs_b);
    assert forall|s: int| 0 <= s < amounts.len() implies #[trigger] refused_at(a, amounts, requested_a, s) == refused_at(
        b,
        amounts,
        requested_b,
        s,
    ) by {
        assert(withdrawal(a, requested_a, s) == withdrawal(b, requested_b, s));
        assert(breaches_floor(a, amounts, requested_a, s) == breaches_floor(b, amounts, requested_b, s));
        if exists|f: int| refusing_flow(a, requested_a, s, f) {
            let f = choose|f: int| refusing_flow(a, requested_a, s, f);
            assert(refusing_flow(b, requested_b, s, order[f]));
        }
        if exists|t: int| refusing_flow(b, requested_b, s, t) {
            let t = choose|t: int| refusing_flow(b, requested_b, s, t);
            assert(reaches(order, n, t));
        let f = choose|f: int| 0 <= f < n && #[trigger] order[f] == t;
            assert(refusing_flow(a, requested_a, s, f));
        }
    }
    assert((forall|f: int| 0 <= f < requested_a.len() ==> #[trigger] requested_a[f] >= 0real) == (forall|t: int|
        0 <= t < requested_b.len() ==> #[trigger] requested_b[t] >= 0real)) by {
        if forall|f: int| 0 <= f < requested_a.len() ==> #[trigger] requested_a[f] >= 0real {
            assert forall|t: int| 0 <= t < requested_b.len() implies #[trigger] requested_b[t] >= 0real by {
                assert(reaches(order, n, t));
        let f = choose|f: int| 0 <= f < n && #[trigger] order[f] == t;
                assert(requested_b[order[f]] == requested_a[f]);
            }
        }
        if forall|t: int| 0 <= t < requested_b.len() ==> #[trigger] requested_b[t] >= 0real {
            assert forall|f: int| 0 <= f < requested_a.len() implies #[trigger] requested_a[f] >= 0real by {
                assert(requested_b[order[f]] == requested_a[f]);
            }
        }
    }
    if batch_accepted(a, amounts, requested_a) {
        assert forall|s: int| 0 <= s < amounts.len() implies !#[trigger] refused_at(b, amounts, requested_b, s) by {
            assert(!refused_at(a, amounts, requested_a, s));
        }
    }
    if batch_accepted(b, amounts, requested_b) {
        assert forall|s: int| 0 <= s < amounts.len() implies !#[trigger] refused_at(a, amounts, requested_a, s) by {
            assert(!refused_at(b, amounts, requested_b, s));
        }
    }
}


/// Compiling the same stock and process declarations with the flows listed
/// in another order gives the same stocks, floors and kinds, and each flow
/// compiled alike at its permuted position.
pub proof fn law_compiled_flow_order<K: Kind>(
    a: FlowTopology<K>,
    b: FlowTopology<K>,
    stocks: Seq<StockDefinition<K>>,
    flows_a: Seq<FlowSpec<K>>,
    flows_b: Seq<FlowSpec<K>>,
    processes: Seq<ProcessDefinition>,
    order: Seq<int>,
)
    requires
        compiles(a, stocks, flows_a, processes),
        first_occurrence_order(a.stock_kind_seq(), a.kind_seq().len() as int),
        compiles(b, stocks, flows_b, processes),
        first_occurrence_order(b.stock_kind_seq(), b.kind_seq().len() as int),
        is_permutation(order, flows_a.len() as int),
        flows_b.len() == flows_a.len(),
        forall|f: int| 0 <= f < flows_a.len() ==> #[trigger] flows_b[order[f]] == flows_a[f],
    ensures
        permuted_layout(a, b, order),
{
    let n = stocks.len() as int;
    let sa = a.stock_kind_seq();
    let sb = b.stock_kind_seq();
    lemma_numbering_prefix(stocks, a.stock_ids(), sa, a.kind_seq(), b.stock_ids(), sb, b.kind_seq(), n);
    assert(sa =~= sb);
    assert forall|s: int| 0 <= s < a.stock_ids().len() implies #[trigger] a.stock_floor(s) == b.stock_floor(s) by {
        assert(a.kind_seq()[sa[s] as int].floor_value() == stocks[s].kind.floor_value());
        assert(b.kind_seq()[sb[s] as int].floor_value() == stocks[s].kind.floor_value());
    }
    let ca = a.kind_seq().len() as int;
    let cb = b.kind_seq().len() as int;
    assert(sa[0] < ca);
    assert(sb[0] < cb);
    let ia = choose|i: int| 0 <= i < sa.len() && #[trigger] sa[i] + 1 == ca;
    let ib = choose|i: int| 0 <= i < sb.len() && #[trigger] sb[i] + 1 == cb;
    assert(sb[ia] < cb);
    assert(sa[ib] < ca);
    assert(ca == cb);
    let fa = a.flow_seq();
    let fb = b.flow_seq();
    assert forall|f: int| 0 <= f < fa.len() implies {
        let x = #[trigger] fa[f];
        let y = fb[order[f]];
        &&& x.source_spec() == y.source_spec()
        &&& x.target_spec() == y.target_spec()
        &&& x.kind_spec() == y.kind_spec()
        &&& x.role_spec() == y.role_spec()
        &&& a.rationing_seq()[x.process_spec() as int] == b.rationing_seq()[y.process_spec() as int]
    } by {
        let g = order[f];
        let x = fa[f];
        let y = fb[g];
        let declared = flows_a[f];
        assert(flows_b[g] == declared);
        assert(crate::dynamics::flow_compiled(a.stock_ids(), a.process_ids(), x, declared));
        assert(crate::dynamics::flow_compiled(b.stock_ids(), b.process_ids(), y, flows_b[g]));
        assert(crate::dynamics::flow_well_formed(x, sa, ca, a.process_ids().len() as int));
        assert(crate::dynamics::flow_well_formed(y, sb, cb, b.process_ids().len() as int));
        if let Some(i) = x.source_spec() {
            let j = y.source_spec()->0;
            assert(a.stock_ids()[i as int]@ == stocks[i as int].id@);
            assert(b.stock_ids()[j as int]@ == stocks[j as int].id@);
            assert(a.stock_ids()[j as int]@ == stocks[j as int].id@);
            if i != j {
                if i < j {
                    assert(a.stock_ids()[i as int]@ != a.stock_ids()[j as int]@);
                } else {
                    assert(a.stock_ids()[j as int]@ != a.stock_ids()[i as int]@);
                }
            }
        }
        if let Some(i) = x.target_spec() {
            let j = y.target_spec()->0;
            assert(a.stock_ids()[i as int]@ == stocks[i as int].id@);
            assert(b.stock_ids()[j as int]@ == stocks[j as int].id@);
            assert(a.stock_ids()[j as int]@ == stocks[j as int].id@);
            if i != j {
                if i < j {
                    assert(a.stock_ids()[i as int]@ != a.stock_ids()[j as int]@);
                } else {
                    assert(a.stock_ids()[j as int]@ != a.stock_ids()[i as int]@);
                }
            }
        }
        assert(x.source_spec() == y.source_spec());
        assert(x.target_spec() == y.target_spec());
        let pa = x.process_spec() as int;
        let pb = y.process_spec() as int;
        assert(a.rationing_seq()[pa] == crate::dynamics::declared_rationing(processes, a.process_ids()[pa]@));
        assert(b.rationing_seq()[pb] == crate::dynamics::declared_rationing(processes, b.process_ids()[pb]@));
    }
}

/// Declaring a system's flows in another order does not change its
/// settlement: compiled from the same stocks and processes, the permuted
/// requests are accepted or refused alike, each flow gets the same amount,
/// and the stocks and boundary accounts end the same.
pub proof fn law_declaration_order_does_not_matter<K: Kind>(
    a: FlowTopology<K>,
    b: FlowTopology<K>,
    stocks: Seq<StockDefinition<K>>,
    flows_a: Seq<FlowSpec<K>>,
    flows_b: Seq<FlowSpec<K>>,
    processes: Seq<ProcessDefinition>,
    order: Seq<int>,
    amounts: Seq<real>,
    requested_a: Seq<real>,
    requested_b: Seq<real>,
)
    requires
        compiles(a, stocks, flows_a, processes),
        first_occurrence_order(a.stock_kind_seq(), a.kind_seq().len() as int),
        compiles(b, stocks, flows_b, processes),
        first_occurrence_order(b.stock_kind_seq(), b.kind_seq().len() as int),
        is_permutation(order, flows_a.len() as int),
        flows_b.len() == flows_a.len(),
        forall|f: int| 0 <= f < flows_a.len() ==> #[trigger] flows_b[order[f]] == flows_a[f],
        permuted_values(requested_a, requested_b, order),
        amounts.len() == a.stock_ids().len(),
    ensures
        batch_accepted(a, amounts, requested_a) == batch_accepted(b, amounts, requested_b),
        permuted_values(applied_amounts(a, amounts, requested_a), applied_amounts(b, amounts, requested_b), order),
        settled_amounts(a, amounts, requested_a) == settled_amounts(b, amounts, requested_b),
        batch_inputs(a, amounts, requested_a) == batch_inputs(b, amounts, requested_b),
        batch_outputs(a, amounts, requested_a) == batch_outputs(b, amounts, requested_b),
{
    law_compiled_flow_order(a, b, stocks, flows_a, flows_b, processes, order);
    law_flow_order_does_not_matter(a, b, order, amounts, requested_a, requested_b);
}

} // verus!
