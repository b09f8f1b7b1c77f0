//! The exchange transition: one indivisible exchange applied to an immutable
//! state, producing the next state and a receipt, or refused as a whole.
use crate::exact::reals;
use crate::exchange::{checked, covers_spec, lookup, named_values, tolerances_valid, Tables, Constraint, Evaluation, ExchangeError, KindContext, Malformed, Relation};
use crate::text::{blank, is_blank};
use crate::format::same_text;
use crate::kind::Kind;
use crate::rational::Rational;
use vstd::prelude::*;

verus! {

/// An exact amount of a kind.
pub struct Quantity<K> {
    pub amount: Rational,
    pub kind: K,
}

impl<K: Kind> Quantity<K> {
    /// A quantity of `amount` in `kind`.
    pub fn new(amount: Rational, kind: K) -> (result: Self)
        ensures
            result.amount == amount,
            result.kind == kind,
    {
        Quantity { amount, kind }
    }
}

/// A stock: permanent identity, owner, kind and capacity weights, each weight
/// converting stock units to the named capacity's unit.
pub struct Stock<K> {
    pub id: String,
    pub owner: String,
    pub kind: K,
    pub capacities: Vec<(String, Rational)>,
}

/// A capacity constraint's maximum load.
pub struct Capacity {
    pub id: String,
    pub maximum: Rational,
}

/// A named evaluated fact and the owner that supplies it.
pub struct Fact<K> {
    pub id: String,
    pub owner: String,
    pub kind: K,
}

/// A transition law over named stock roles, boundary inputs and facts.
pub struct Law<K> {
    pub id: String,
    pub slots: Vec<(String, K)>,
    pub boundaries: Vec<(String, K)>,
    pub facts: Vec<Fact<K>>,
    pub participants: Vec<String>,
    pub constraints: Vec<Constraint>,
}

/// The registered owners, capacities and laws.
pub struct ValidatedModel<K> {
    pub owners: Vec<String>,
    pub capacities: Vec<Capacity>,
    pub laws: Vec<Law<K>>,
}

/// One exchange: the law it follows, each role bound to a stock with its
/// delta, the boundary inputs, the stocks it creates and removes, and the
/// stocks it places with a new owner and weights.
pub struct Exchange<K> {
    pub id: String,
    pub law: String,
    pub bindings: Vec<(String, String)>,
    pub deltas: Vec<(String, Quantity<K>)>,
    pub boundaries: Vec<(String, Quantity<K>)>,
    pub creates: Vec<Stock<K>>,
    pub removes: Vec<String>,
    pub moves: Vec<(String, Placement)>,
}

impl<K> Exchange<K> {
    /// An exchange `id` under law `law` with no bindings, values or
    /// topology changes.
    pub fn new(id: String, law: String) -> (result: Self)
        ensures
            result.id == id,
            result.law == law,
            result.bindings@.len() == 0,
            result.deltas@.len() == 0,
            result.boundaries@.len() == 0,
            result.creates@.len() == 0,
            result.removes@.len() == 0,
            result.moves@.len() == 0,
    {
        Exchange {
            id,
            law,
            bindings: Vec::new(),
            deltas: Vec::new(),
            boundaries: Vec::new(),
            creates: Vec::new(),
            removes: Vec::new(),
            moves: Vec::new(),
        }
    }
}

/// A stock's new owner and capacity weights.
pub struct Placement {
    pub owner: String,
    pub capacities: Vec<(String, Rational)>,
}

/// An owner's evaluated facts for one exchange.
pub struct Contribution<K> {
    pub owner: String,
    pub writes: Vec<RecordWrite>,
    pub facts: Vec<(String, Quantity<K>)>,
}

/// An owner's record write: new bytes under `key`, or its removal.
pub struct RecordWrite {
    pub key: String,
    pub value: Option<Vec<u8>>,
}

/// An exchange with its owners' contributions.
pub struct Request<K> {
    pub exchange: Exchange<K>,
    pub contributions: Vec<Contribution<K>>,
}

/// The committed state: its revision, the live stocks with their amounts
/// (in step), the retired stock identities, and the log of owners' record
/// writes (a `None` value removes a record).
pub struct ExchangeState<K> {
    pub revision: u64,
    pub stocks: Vec<Stock<K>>,
    pub amounts: Vec<Rational>,
    pub retired: Vec<String>,
    pub records: Vec<(String, String, Option<Vec<u8>>)>,
}

/// Evidence of a committed exchange: for each role in order, the bound stock
/// with its amount before and after.
pub struct Receipt {
    pub id: String,
    pub revision: u64,
    pub law: String,
    pub changes: Vec<(String, Rational, Rational)>,
}

/// Whether `key` is the name at position `i`, and at no earlier one.
pub open spec fn first_at<T>(table: Seq<(String, T)>, key: Seq<char>, i: int) -> bool {
    &&& 0 <= i < table.len()
    &&& table[i].0@ == key
    &&& forall|j: int| 0 <= j < i ==> (#[trigger] table[j]).0@ != key
}

/// Whether some entry is named `key`.
pub open spec fn has_name<T>(table: Seq<(String, T)>, key: Seq<char>) -> bool {
    exists|i: int| 0 <= i < table.len() && (#[trigger] table[i]).0@ == key
}

/// The position of the first entry named `key`.
fn position_of<T>(table: &Vec<(String, T)>, key: &str) -> (result: Option<usize>)
    ensures
        match result {
            Some(i) => first_at(table@, key@, i as int),
            None => !has_name(table@, key@),
        },
{
    let mut i: usize = 0;
    while i < table.len()
        invariant
            i <= table@.len(),
            forall|j: int| 0 <= j < i ==> (#[trigger] table@[j]).0@ != key@,
        decreases table.len() - i,
    {
        if same_text(table[i].0.as_str(), key) {
            return Some(i);
        }
        i += 1;
    }
    None
}

/// Whether some stock has identity `id`.
pub open spec fn has_stock<K>(stocks: Seq<Stock<K>>, id: Seq<char>) -> bool {
    exists|i: int| 0 <= i < stocks.len() && (#[trigger] stocks[i]).id@ == id
}

/// Whether `id` is the identity at position `i` and at no earlier one.
pub open spec fn stock_at<K>(stocks: Seq<Stock<K>>, id: Seq<char>, i: int) -> bool {
    &&& 0 <= i < stocks.len()
    &&& stocks[i].id@ == id
    &&& forall|j: int| 0 <= j < i ==> (#[trigger] stocks[j]).id@ != id
}

/// The position of the first stock with identity `id`.
fn stock_position<K>(stocks: &Vec<Stock<K>>, id: &str) -> (result: Option<usize>)
    ensures
        match result {
            Some(i) => stock_at(stocks@, id@, i as int),
            None => !has_stock(stocks@, id@),
        },
{
    let mut i: usize = 0;
    while i < stocks.len()
        invariant
            i <= stocks@.len(),
            forall|j: int| 0 <= j < i ==> (#[trigger] stocks@[j]).id@ != id@,
        decreases stocks.len() - i,
    {
        if same_text(stocks[i].id.as_str(), id) {
            return Some(i);
        }
        i += 1;
    }
    None
}

/// Whether a text occurs in a list.
pub open spec fn listed(list: Seq<String>, text: Seq<char>) -> bool {
    exists|i: int| 0 <= i < list.len() && (#[trigger] list[i])@ == text
}

/// Whether `text` occurs in `list`.
fn contains_text(list: &Vec<String>, text: &str) -> (result: bool)
    ensures
        result == listed(list@, text@),
{
    let mut i: usize = 0;
    while i < list.len()
        invariant
            i <= list@.len(),
            forall|j: int| 0 <= j < i ==> (#[trigger] list@[j])@ != text@,
        decreases list.len() - i,
    {
        if same_text(list[i].as_str(), text) {
            return true;
        }
        i += 1;
    }
    false
}


/// Whether two stocks agree in identity, owner, kind and weights.
pub open spec fn same_stock<K: Kind>(a: Stock<K>, b: Stock<K>) -> bool {
    &&& a.id@ == b.id@
    &&& a.owner@ == b.owner@
    &&& a.kind.identity() == b.kind.identity()
    &&& a.kind.floor_value() == b.kind.floor_value()
    &&& a.kind.difference_identity() == b.kind.difference_identity()
    &&& named_values(a.capacities@) == named_values(b.capacities@)
}

/// A copy of a weight table.
fn copy_weights(table: &Vec<(String, Rational)>) -> (result: Vec<(String, Rational)>)
    ensures
        named_values(result@) == named_values(table@),
{
    let mut result: Vec<(String, Rational)> = Vec::new();
    let mut i: usize = 0;
    while i < table.len()
        invariant
            i <= table@.len(),
            result@.len() == i,
            forall|j: int| 0 <= j < i ==> (#[trigger] result@[j]).0@ == table@[j].0@ && result@[j].1@ == table@[j].1@,
        decreases table.len() - i,
    {
        let name = table[i].0.clone();
        let value = table[i].1.clone();
        result.push((name, value));
        i += 1;
    }
    proof {
        assert(named_values(result@) =~= named_values(table@));
    }
    result
}

/// A copy of a stock.
fn copy_stock<K: Kind>(stock: &Stock<K>) -> (result: Stock<K>)
    ensures
        same_stock(result, *stock),
{
    Stock {
        id: stock.id.clone(),
        owner: stock.owner.clone(),
        kind: stock.kind.duplicate(),
        capacities: copy_weights(&stock.capacities),
    }
}

impl<K: Kind> ExchangeState<K> {
    /// Every stock has its amount, and no two stocks share an identity.
    pub open spec fn well_formed(&self) -> bool {
        &&& self.stocks.len() == self.amounts.len()
        &&& distinct_ids(self.stocks@)
    }

    /// The amount of the first stock with identity `id`.
    pub open spec fn amount_of(&self, id: Seq<char>) -> real {
        self.amounts@[choose|i: int| stock_at(self.stocks@, id, i)]@
    }
}

/// No two stocks share an identity.
pub open spec fn distinct_ids<K>(stocks: Seq<Stock<K>>) -> bool {
    forall|i: int, j: int| 0 <= i < j < stocks.len() ==> (#[trigger] stocks[i]).id@ != (#[trigger] stocks[j]).id@
}

/// A stock by identity, owner, kind identity, floor and weights.
pub type StockView = (Seq<char>, Seq<char>, Seq<char>, Option<real>, Seq<(Seq<char>, real)>);

/// A stock's view.
pub open spec fn stock_view<K: Kind>(stock: Stock<K>) -> StockView {
    (stock.id@, stock.owner@, stock.kind.identity(), stock.kind.floor_value(), named_values(stock.capacities@))
}

/// The views of a list of stocks.
pub open spec fn stocks_view<K: Kind>(stocks: Seq<Stock<K>>) -> Seq<StockView> {
    stocks.map_values(|stock: Stock<K>| stock_view(stock))
}

/// Whether `id` is the identity at position `i` and at no earlier one.
pub open spec fn id_at(views: Seq<StockView>, id: Seq<char>, i: int) -> bool {
    &&& 0 <= i < views.len()
    &&& views[i].0 == id
    &&& forall|j: int| 0 <= j < i ==> (#[trigger] views[j]).0 != id
}

/// Whether some stock has identity `id`.
pub open spec fn has_id(views: Seq<StockView>, id: Seq<char>) -> bool {
    exists|i: int| 0 <= i < views.len() && (#[trigger] views[i]).0 == id
}

/// The position of the stock with identity `id`.
pub open spec fn index_of(views: Seq<StockView>, id: Seq<char>) -> int {
    choose|i: int| id_at(views, id, i)
}

/// No two stocks share an identity.
pub open spec fn unique_ids(views: Seq<StockView>) -> bool {
    forall|i: int, j: int| 0 <= i < j < views.len() ==> (#[trigger] views[i]).0 != (#[trigger] views[j]).0
}

/// Where identities are unique, the stock with identity `id` is at `i`.
proof fn lemma_index_of(views: Seq<StockView>, id: Seq<char>, i: int)
    requires
        unique_ids(views),
        0 <= i < views.len(),
        views[i].0 == id,
    ensures
        id_at(views, id, i),
        index_of(views, id) == i,
        has_id(views, id),
{
    assert forall|j: int| 0 <= j < i implies (#[trigger] views[j]).0 != id by {
        assert(views[j].0 != views[i].0);
    }
    assert(id_at(views, id, i));
    let k = index_of(views, id);
    assert(id_at(views, id, k));
    if k < i {
        assert(views[k].0 != views[i].0);
    } else if k > i {
        assert(views[i].0 != id);
    }
}

/// Distinct stock identities give unique view identities.
proof fn lemma_unique_view<K: Kind>(stocks: Seq<Stock<K>>)
    requires
        distinct_ids(stocks),
    ensures
        unique_ids(stocks_view(stocks)),
{
    assert forall|i: int, j: int| 0 <= i < j < stocks_view(stocks).len() implies (#[trigger] stocks_view(stocks)[i]).0 != (#[trigger] stocks_view(stocks)[j]).0 by {
        assert(stocks[i].id@ != stocks[j].id@);
    }
}

/// A stock's position is unique where identities are distinct.
proof fn lemma_stock_at_unique<K>(stocks: Seq<Stock<K>>, id: Seq<char>, i: int)
    requires
        0 <= i < stocks.len(),
        stocks[i].id@ == id,
        distinct_ids(stocks),
    ensures
        stock_at(stocks, id, i),
        (choose|k: int| stock_at(stocks, id, k)) == i,
{
    assert forall|j: int| 0 <= j < i implies (#[trigger] stocks[j]).id@ != id by {
        assert(stocks[j].id@ != stocks[i].id@);
    }
    assert(stock_at(stocks, id, i));
    let k = choose|k: int| stock_at(stocks, id, k);
    assert(stock_at(stocks, id, k));
    if k < i {
        assert(stocks[k].id@ != stocks[i].id@);
    } else if k > i {
        assert(stocks[i].id@ != id);
    }
}

/// The stocks of `state` followed by the created ones at zero, with distinct
/// identities, no created one live or retired before.
pub open spec fn opened<K: Kind>(state: ExchangeState<K>, creates: Seq<Stock<K>>, stocks: Seq<Stock<K>>, amounts: Seq<Rational>) -> bool {
    &&& stocks.len() == amounts.len()
    &&& stocks.len() == state.stocks@.len() + creates.len()
    &&& distinct_ids(stocks)
    &&& forall|j: int| 0 <= j < state.stocks@.len() ==> same_stock(#[trigger] stocks[j], state.stocks@[j]) && amounts[j]@ == state.amounts@[j]@
    &&& forall|k: int| 0 <= k < creates.len() ==> {
        &&& same_stock(#[trigger] stocks[state.stocks@.len() + k], creates[k])
        &&& amounts[state.stocks@.len() + k]@ == 0real
        &&& !has_stock(state.stocks@, creates[k].id@)
        &&& !listed(state.retired@, creates[k].id@)
    }
}

/// The stocks of `state` followed by the created ones at zero, refused when a
/// created identity is already live, retired, or created twice.
#[verifier::spinoff_prover]
fn open_stocks<K: Kind>(state: &ExchangeState<K>, creates: &Vec<Stock<K>>) -> (result: Result<(Vec<Stock<K>>, Vec<Rational>), ExchangeError>)
    requires
        state.well_formed(),
    ensures
        (result is Ok) == creates_ok(*state, creates@),
        match result {
            Ok((stocks, amounts)) => {
                &&& opened(*state, creates@, stocks@, amounts@)
                &&& stocks_view(stocks@) == stocks_view(state.stocks@ + creates@)
                &&& reals(amounts@) == reals(state.amounts@) + Seq::new(creates@.len(), |k: int| 0real)
            },
            Err(e) => e is StockInUse,
        },
{
    let n = state.stocks.len();
    let mut stocks: Vec<Stock<K>> = Vec::new();
    let mut amounts: Vec<Rational> = Vec::new();
    let mut j: usize = 0;
    while j < n
        invariant
            n == state.stocks@.len(),
            state.well_formed(),
            j <= n,
            stocks@.len() == j,
            amounts@.len() == j,
            forall|q: int| 0 <= q < j ==> same_stock(#[trigger] stocks@[q], state.stocks@[q]) && amounts@[q]@ == state.amounts@[q]@,
        decreases n - j,
    {
        let copied = copy_stock(&state.stocks[j]);
        let amount = state.amounts[j].clone();
        proof {
            assert(same_stock(copied, state.stocks@[j as int]));
            assert(amount@ == state.amounts@[j as int]@);
        }
        let ghost prior_stocks = stocks@;
        let ghost prior_amounts = amounts@;
        stocks.push(copied);
        amounts.push(amount);
        proof {
            assert forall|q: int| 0 <= q < j + 1 implies same_stock(#[trigger] stocks@[q], state.stocks@[q]) && amounts@[q]@ == state.amounts@[q]@ by {
                if q < j {
                    assert(stocks@[q] == prior_stocks[q]);
                    assert(amounts@[q] == prior_amounts[q]);
                }
            }
        }
        j += 1;
    }
    proof {
        assert(j == n);
        assert(forall|q: int| 0 <= q < n ==> same_stock(#[trigger] stocks@[q], state.stocks@[q]) && amounts@[q]@ == state.amounts@[q]@);
        assert forall|a: int, b: int| 0 <= a < b < stocks@.len() implies (#[trigger] stocks@[a]).id@ != (#[trigger] stocks@[b]).id@ by {
            assert(state.stocks@[a].id@ != state.stocks@[b].id@);
        }
    }
    let mut k: usize = 0;
    while k < creates.len()
        invariant
            n == state.stocks@.len(),
            state.well_formed(),
            k <= creates@.len(),
            stocks@.len() == n + k,
            amounts@.len() == n + k,
            distinct_ids(stocks@),
            forall|q: int| 0 <= q < n ==> same_stock(#[trigger] stocks@[q], state.stocks@[q]) && amounts@[q]@ == state.amounts@[q]@,
            forall|c: int| 0 <= c < k ==> {
                &&& same_stock(#[trigger] stocks@[n + c], creates@[c])
                &&& amounts@[n + c]@ == 0real
                &&& !has_stock(state.stocks@, creates@[c].id@)
                &&& !listed(state.retired@, creates@[c].id@)
            },
        decreases creates.len() - k,
    {
        let id = creates[k].id.as_str();
        let live = stock_position(&stocks, id);
        if live.is_some() || contains_text(&state.retired, id) {
            proof {
                if live.is_some() {
                    let p = live.unwrap() as int;
                    if p < n {
                        assert(stocks_view(state.stocks@)[p].0 == creates@[k as int].id@);
                        assert(has_id(stocks_view(state.stocks@), creates@[k as int].id@));
                    } else {
                        assert(same_stock(stocks@[n + (p - n)], creates@[p - n]));
                        assert(creates@[p - n].id@ == creates@[k as int].id@);
                        assert(!distinct_ids(creates@));
                    }
                }
            }
            return Err(ExchangeError::StockInUse { id: creates[k].id.clone() });
        }
        proof {
            assert forall|q: int| 0 <= q < n implies (#[trigger] state.stocks@[q]).id@ != creates@[k as int].id@ by {
                assert(stocks@[q].id@ == state.stocks@[q].id@);
            }
        }
        let ghost before = stocks@;
        let copied = copy_stock(&creates[k]);
        let zero = Rational::zero();
        stocks.push(copied);
        amounts.push(zero);
        proof {
            assert(!has_stock(state.stocks@, creates@[k as int].id@));
            assert(!listed(state.retired@, creates@[k as int].id@));
            assert(same_stock(stocks@[n + k], creates@[k as int]));
            assert(amounts@[n + k]@ == 0real);
            assert forall|c: int| 0 <= c < k + 1 implies {
                &&& same_stock(#[trigger] stocks@[n + c], creates@[c])
                &&& amounts@[n + c]@ == 0real
                &&& !has_stock(state.stocks@, creates@[c].id@)
                &&& !listed(state.retired@, creates@[c].id@)
            } by {
                if c < k {
                    assert(stocks@[n + c] == before[n + c]);
                }
            }
            assert forall|a: int, b: int| 0 <= a < b < stocks@.len() implies (#[trigger] stocks@[a]).id@ != (#[trigger] stocks@[b]).id@ by {
                if b == stocks@.len() - 1 {
                    assert(before[a].id@ != creates@[k as int].id@);
                } else {
                    assert(before[a].id@ != before[b].id@);
                }
            }
        }
        k += 1;
    }
    proof {
        let all = state.stocks@ + creates@;
        assert forall|q: int| 0 <= q < stocks@.len() implies #[trigger] stocks_view(stocks@)[q] == stocks_view(all)[q] by {
            if q < n {
                assert(same_stock(stocks@[q], state.stocks@[q]));
            } else {
                assert(same_stock(stocks@[n + (q - n)], creates@[q - n]));
            }
        }
        assert(stocks_view(stocks@) =~= stocks_view(all));
        assert forall|q: int| 0 <= q < amounts@.len() implies #[trigger] reals(amounts@)[q] == (reals(state.amounts@) + Seq::new(creates@.len(), |k: int| 0real))[q] by {
            assert(reals(state.amounts@).len() == n);
            if q < n {
                assert(same_stock(stocks@[q], state.stocks@[q]));
            }
            if q >= n {
                assert(same_stock(stocks@[n + (q - n)], creates@[q - n]));
                assert(amounts@[n + (q - n)]@ == 0real);
                assert(reals(state.amounts@).len() == n);
            }
        }
        assert(reals(amounts@) =~= reals(state.amounts@) + Seq::new(creates@.len(), |k: int| 0real));
        assert forall|a: int, b: int| 0 <= a < b < creates@.len() implies (#[trigger] creates@[a]).id@ != (#[trigger] creates@[b]).id@ by {
            assert(same_stock(stocks@[n + a], creates@[a]));
            assert(same_stock(stocks@[n + b], creates@[b]));
            assert(stocks@[n + a].id@ != stocks@[n + b].id@);
        }
        assert forall|c: int| 0 <= c < creates@.len() implies !has_id(stocks_view(state.stocks@), (#[trigger] creates@[c]).id@)
            && !listed(state.retired@, creates@[c].id@) by {
            assert(same_stock(stocks@[n + c], creates@[c]));
            assert(!has_stock(state.stocks@, creates@[c].id@));
            if has_id(stocks_view(state.stocks@), creates@[c].id@) {
                let i = choose|i: int| 0 <= i < stocks_view(state.stocks@).len() && (#[trigger] stocks_view(state.stocks@)[i]).0 == creates@[c].id@;
                assert(state.stocks@[i].id@ == creates@[c].id@);
            }
        }
    }
    Ok((stocks, amounts))
}

/// Whether the created stocks are new: no identity live or retired, none
/// created twice.
pub open spec fn creates_ok<K: Kind>(state: ExchangeState<K>, creates: Seq<Stock<K>>) -> bool {
    &&& forall|k: int| 0 <= k < creates.len() ==> !has_id(stocks_view(state.stocks@), (#[trigger] creates[k]).id@)
        && !listed(state.retired@, creates[k].id@)
    &&& distinct_ids(creates)
}

/// The exchange binds each role of the law, in the law's order, to a distinct
/// stock, with a delta for each role in the same order.
pub open spec fn canonical_legs<K: Kind>(law: Law<K>, exchange: Exchange<K>) -> bool {
    &&& exchange.bindings@.len() == law.slots@.len()
    &&& exchange.deltas@.len() == law.slots@.len()
    &&& forall|i: int| 0 <= i < law.slots@.len() ==> (#[trigger] exchange.bindings@[i]).0@ == law.slots@[i].0@ && exchange.deltas@[i].0@ == law.slots@[i].0@
    &&& forall|i: int, j: int| 0 <= i < j < exchange.bindings@.len() ==> (#[trigger] exchange.bindings@[i]).1@ != (#[trigger] exchange.bindings@[j]).1@
}

/// With distinct bound stocks, the role of a bound stock is its binding.
proof fn lemma_role_of(bindings: Seq<(Seq<char>, Seq<char>)>, c: int)
    requires
        0 <= c < bindings.len(),
        forall|i: int, j: int| 0 <= i < j < bindings.len() ==> (#[trigger] bindings[i]).1 != (#[trigger] bindings[j]).1,
    ensures
        role_of(bindings, bindings[c].1) == c,
{
    let r = role_of(bindings, bindings[c].1);
    assert(0 <= c < bindings.len() && bindings[c].1 == bindings[c].1);
    assert(0 <= r < bindings.len() && bindings[r].1 == bindings[c].1);
    if r < c {
        assert(bindings[r].1 != bindings[c].1);
    } else if r > c {
        assert(bindings[c].1 != bindings[r].1);
    }
}

/// Applies each leg in role order: the bound stock must be live and of the
/// role's kind, and its new amount at or above the kind's floor.
fn apply_legs<K: Kind>(
    law: &Law<K>,
    exchange: &Exchange<K>,
    stocks: &Vec<Stock<K>>,
    amounts: &mut Vec<Rational>,
) -> (result: Result<Vec<(String, Rational, Rational)>, ExchangeError>)
    requires
        canonical_legs(*law, *exchange),
        stocks@.len() == old(amounts)@.len(),
        distinct_ids(stocks@),
    ensures
        final(amounts)@.len() == old(amounts)@.len(),
        (result is Ok) == legs_ok(*law, pairs_view(exchange.bindings@), quantities_view(exchange.deltas@), stocks_view(stocks@), reals(old(amounts)@)),
        match result {
            Ok(changes) => {
                &&& reals(final(amounts)@) == legged(pairs_view(exchange.bindings@), quantities_view(exchange.deltas@), stocks_view(stocks@), reals(old(amounts)@))
                &&& changes@.len() == exchange.bindings@.len()
                &&& forall|i: int| 0 <= i < changes@.len() ==> leg_change(#[trigger] changes@[i], pairs_view(exchange.bindings@),
                    quantities_view(exchange.deltas@), stocks_view(stocks@), reals(old(amounts)@), i)
            },
            Err(e) => e is UnknownStock || e is Kinds || e is BelowFloor,
        },
{
    let ghost bindings = pairs_view(exchange.bindings@);
    let ghost deltas = quantities_view(exchange.deltas@);
    let ghost views = stocks_view(stocks@);
    let ghost initial = reals(amounts@);
    proof {
        lemma_unique_view(stocks@);
        assert forall|i: int, j: int| 0 <= i < j < bindings.len() implies (#[trigger] bindings[i]).1 != (#[trigger] bindings[j]).1 by {
            assert(exchange.bindings@[i].1@ != exchange.bindings@[j].1@);
        }
        assert(legged_upto(bindings, deltas, views, initial, 0) =~= initial);
    }
    let mut changes: Vec<(String, Rational, Rational)> = Vec::new();
    let mut i: usize = 0;
    while i < exchange.bindings.len()
        invariant
            canonical_legs(*law, *exchange),
            bindings == pairs_view(exchange.bindings@),
            deltas == quantities_view(exchange.deltas@),
            views == stocks_view(stocks@),
            initial == reals(old(amounts)@),
            unique_ids(views),
            forall|a: int, b: int| 0 <= a < b < bindings.len() ==> (#[trigger] bindings[a]).1 != (#[trigger] bindings[b]).1,
            stocks@.len() == initial.len(),
            amounts@.len() == initial.len(),
            i <= exchange.bindings@.len(),
            changes@.len() == i,
            reals(amounts@) == legged_upto(bindings, deltas, views, initial, i as int),
            forall|c: int| 0 <= c < i ==> #[trigger] leg_ok(*law, bindings, deltas, views, initial, c),
            forall|c: int| 0 <= c < i ==> leg_change(#[trigger] changes@[c], bindings, deltas, views, initial, c),
        decreases exchange.bindings.len() - i,
    {
        let id = &exchange.bindings[i].1;
        proof {
            assert(bindings[i as int].1 == id@);
            assert(deltas[i as int].1 == exchange.deltas@[i as int].1.amount@);
        }
        let p = match stock_position(stocks, id.as_str()) {
            Some(p) => p,
            None => {
                proof {
                    if has_id(views, id@) {
                        let q = choose|q: int| 0 <= q < views.len() && (#[trigger] views[q]).0 == id@;
                        assert(stocks@[q].id@ == id@);
                    }
                    assert(!leg_ok(*law, bindings, deltas, views, initial, i as int));
                }
                return Err(ExchangeError::UnknownStock { id: id.clone() });
            },
        };
        proof {
            assert(views[p as int].0 == id@);
            lemma_index_of(views, id@, p as int);
            assert(!bound_before(bindings, id@, i as int)) by {
                if bound_before(bindings, id@, i as int) {
                    let c = choose|c: int| 0 <= c < i && (#[trigger] bindings[c]).1 == id@;
                    assert(bindings[c].1 != bindings[i as int].1);
                }
            }
            assert(reals(amounts@)[p as int] == initial[p as int]);
        }
        if !stocks[p].kind.same(&law.slots[i].1) {
            proof {
                assert(!leg_ok(*law, bindings, deltas, views, initial, i as int));
            }
            return Err(ExchangeError::Kinds { context: KindContext::Slot { slot: exchange.bindings[i].0.clone(), stock: id.clone() } });
        }
        let before = amounts[p].clone();
        let after = before.add(&exchange.deltas[i].1.amount);
        match law.slots[i].1.floor() {
            Some(floor) => {
                if after.lt(&floor) {
                    proof {
                        assert(!leg_ok(*law, bindings, deltas, views, initial, i as int));
                    }
                    return Err(ExchangeError::BelowFloor { stock: id.clone(), amount: after });
                }
            },
            None => {},
        }
        proof {
            assert(leg_ok(*law, bindings, deltas, views, initial, i as int));
        }
        let ghost prior_amounts = amounts@;
        let stored = after.clone();
        amounts.set(p, stored);
        changes.push((id.clone(), before, after));
        proof {
            lemma_role_of(bindings, i as int);
            assert forall|q: int| 0 <= q < initial.len() implies #[trigger] reals(amounts@)[q] == legged_upto(bindings, deltas, views, initial, i + 1)[q] by {
                if q == p {
                    assert(bound_before(bindings, id@, i + 1));
                    assert(role_of(bindings, views[q].0) == i);
                    assert(reals(amounts@)[q] == stored@);
                    assert(reals(prior_amounts)[q] == initial[q]);
                } else {
                    assert(reals(amounts@)[q] == reals(prior_amounts)[q]);
                    assert(views[q].0 != views[p as int].0);
                    if bound_before(bindings, views[q].0, i + 1) {
                        let c = choose|c: int| 0 <= c < i + 1 && (#[trigger] bindings[c]).1 == views[q].0;
                        assert(c != i);
                        assert(bound_before(bindings, views[q].0, i as int));
                    }
                    if bound_before(bindings, views[q].0, i as int) {
                        let c = choose|c: int| 0 <= c < i && (#[trigger] bindings[c]).1 == views[q].0;
                        assert(bound_before(bindings, views[q].0, i + 1));
                    }
                }
            }
            assert(reals(amounts@) =~= legged_upto(bindings, deltas, views, initial, i + 1));
            assert(leg_change(changes@[i as int], bindings, deltas, views, initial, i as int));
        }
        i += 1;
    }
    Ok(changes)
}

/// A quantity table by name and amount.
pub open spec fn quantities_view<K>(table: Seq<(String, Quantity<K>)>) -> Seq<(Seq<char>, real)> {
    table.map_values(|p: (String, Quantity<K>)| (p.0@, p.1.amount@))
}

/// Every contributed fact, in contribution order, by name and amount.
pub open spec fn contributed<K>(contributions: Seq<Contribution<K>>) -> Seq<(Seq<char>, real)>
    decreases contributions.len(),
{
    if contributions.len() == 0 {
        Seq::empty()
    } else {
        contributed(contributions.drop_last()) + quantities_view(contributions.last().facts@)
    }
}

/// Whether some contribution comes from `owner`.
pub open spec fn contributes<K>(contributions: Seq<Contribution<K>>, owner: Seq<char>) -> bool {
    exists|c: int| 0 <= c < contributions.len() && (#[trigger] contributions[c]).owner@ == owner
}

/// Whether `id` names the fact declared at position `i`, and no earlier one.
pub open spec fn fact_at<K>(facts: Seq<Fact<K>>, id: Seq<char>, i: int) -> bool {
    &&& 0 <= i < facts.len()
    &&& facts[i].id@ == id
    &&& forall|j: int| 0 <= j < i ==> (#[trigger] facts[j]).id@ != id
}

/// Whether the law declares a fact `id`.
pub open spec fn declares<K>(facts: Seq<Fact<K>>, id: Seq<char>) -> bool {
    exists|i: int| 0 <= i < facts.len() && (#[trigger] facts[i]).id@ == id
}

/// The position of the declared fact `id`.
fn fact_position<K>(facts: &Vec<Fact<K>>, id: &str) -> (result: Option<usize>)
    ensures
        match result {
            Some(i) => fact_at(facts@, id@, i as int),
            None => !declares(facts@, id@),
        },
{
    let mut i: usize = 0;
    while i < facts.len()
        invariant
            i <= facts@.len(),
            forall|j: int| 0 <= j < i ==> (#[trigger] facts@[j]).id@ != id@,
        decreases facts.len() - i,
    {
        if same_text(facts[i].id.as_str(), id) {
            return Some(i);
        }
        i += 1;
    }
    None
}

/// Refuses the request unless every required participant contributed.
fn check_participants<K: Kind>(law: &Law<K>, contributions: &Vec<Contribution<K>>) -> (result: Result<(), ExchangeError>)
    ensures
        match result {
            Ok(()) => forall|p: int| 0 <= p < law.participants@.len() ==> contributes(contributions@, (#[trigger] law.participants@[p])@),
            Err(e) => e matches ExchangeError::MissingParticipant { owner } && listed(law.participants@, owner@) && !contributes(contributions@, owner@),
        },
{
    let mut p: usize = 0;
    while p < law.participants.len()
        invariant
            p <= law.participants@.len(),
            forall|q: int| 0 <= q < p ==> contributes(contributions@, (#[trigger] law.participants@[q])@),
        decreases law.participants.len() - p,
    {
        let owner = law.participants[p].as_str();
        let mut c: usize = 0;
        let mut found = false;
        while c < contributions.len() && !found
            invariant
                c <= contributions@.len(),
                found ==> contributes(contributions@, owner@),
                !found ==> forall|d: int| 0 <= d < c ==> (#[trigger] contributions@[d]).owner@ != owner@,
            decreases contributions.len() - c,
        {
            if same_text(contributions[c].owner.as_str(), owner) {
                found = true;
            }
            c += 1;
        }
        if !found {
            proof {
                assert(listed(law.participants@, law.participants@[p as int]@));
            }
            return Err(ExchangeError::MissingParticipant { owner: law.participants[p].clone() });
        }
        p += 1;
    }
    Ok(())
}

/// Whether the contributed fact `fact` from `owner` is declared by the law,
/// with that owner and the fact's kind.
pub open spec fn fact_declared<K: Kind>(facts: Seq<Fact<K>>, owner: Seq<char>, fact: (String, Quantity<K>)) -> bool {
    exists|i: int| #[trigger] fact_at(facts, fact.0@, i) && facts[i].owner@ == owner && facts[i].kind.identity() == fact.1.kind.identity()
}

/// One contribution-order table of the contributed facts: each must be
/// declared, from its declared owner, of its declared kind and given once, and
/// every declared fact must be given.
fn gather_facts<K: Kind>(law: &Law<K>, contributions: &Vec<Contribution<K>>) -> (result: Result<Vec<(String, Rational)>, ExchangeError>)
    ensures
        (result is Ok) == facts_ok(*law, contributions@),
        match result {
            Ok(facts) => named_values(facts@) == contributed(contributions@),
            Err(e) => e is Fact || e is MissingFacts,
        },
{
    let mut facts: Vec<(String, Rational)> = Vec::new();
    let mut c: usize = 0;
    proof {
        assert(contributions@.take(0) =~= Seq::<Contribution<K>>::empty());
        assert(named_values(facts@) =~= contributed(contributions@.take(0)));
    }
    while c < contributions.len()
        invariant
            c <= contributions@.len(),
            named_values(facts@) == contributed(contributions@.take(c as int)),
            names_unique(named_values(facts@)),
            forall|d: int, f: int| 0 <= d < c && 0 <= f < contributions@[d].facts@.len()
                ==> fact_declared(law.facts@, (#[trigger] contributions@[d]).owner@, #[trigger] contributions@[d].facts@[f]),
        decreases contributions.len() - c,
    {
        let part = &contributions[c];
        let ghost base = facts@;
        proof {
            assert(contributions@.take(c + 1).drop_last() =~= contributions@.take(c as int));
            assert(contributions@.take(c + 1).last() == contributions@[c as int]);
            assert(contributed(contributions@.take(c + 1)) == named_values(base) + quantities_view(part.facts@));
            lemma_contributed_prefix(contributions@, c + 1);
            assert(part.facts@.take(0) =~= Seq::<(String, Quantity<K>)>::empty());
            assert(named_values(base) + quantities_view(part.facts@.take(0)) =~= named_values(base));
        }
        let mut f: usize = 0;
        while f < part.facts.len()
            invariant
                c < contributions@.len(),
                *part == contributions@[c as int],
                named_values(base) + quantities_view(part.facts@) == contributed(contributions@.take(c + 1)),
                contributed(contributions@).take(contributed(contributions@.take(c + 1)).len() as int) == contributed(contributions@.take(c + 1)),
                contributed(contributions@.take(c + 1)).len() <= contributed(contributions@).len(),
                f <= part.facts@.len(),
                named_values(facts@) == named_values(base) + quantities_view(part.facts@.take(f as int)),
                names_unique(named_values(facts@)),
                forall|g: int| 0 <= g < f ==> fact_declared(law.facts@, part.owner@, #[trigger] part.facts@[g]),
            decreases part.facts.len() - f,
        {
            let id = part.facts[f].0.as_str();
            let ghost item = part.facts@[f as int];
            let ghost at: int = named_values(facts@).len() as int;
            proof {
                assert(part.facts@.take(f + 1) =~= part.facts@.take(f as int).push(item));
                assert(quantities_view(part.facts@.take(f + 1)) =~= quantities_view(part.facts@.take(f as int)).push((item.0@, item.1.amount@)));
                assert((named_values(base) + quantities_view(part.facts@))[at] == (item.0@, item.1.amount@)) by {
                    assert((named_values(base) + quantities_view(part.facts@))[at] == quantities_view(part.facts@)[f as int]);
                }
                assert(contributed(contributions@)[at] == (item.0@, item.1.amount@));
            }
            let d = match fact_position(&law.facts, id) {
                Some(d) => d,
                None => {
                    proof {
                        assert(!fact_declared(law.facts@, part.owner@, item));
                        assert(!fact_declared(law.facts@, contributions@[c as int].owner@, contributions@[c as int].facts@[f as int]));
                    }
                    return Err(ExchangeError::Fact { owner: part.owner.clone(), fact: part.facts[f].0.clone() });
                },
            };
            let duplicate = position_of(&facts, id);
            if !same_text(law.facts[d].owner.as_str(), part.owner.as_str()) || !law.facts[d].kind.same(&part.facts[f].1.kind)
                || duplicate.is_some() {
                proof {
                    if duplicate.is_some() {
                        let j = duplicate.unwrap() as int;
                        assert(named_values(facts@)[j].0 == id@);
                        let full = named_values(base) + quantities_view(part.facts@);
                        let bl = named_values(base).len() as int;
                        assert(named_values(facts@)[j] == full[j]) by {
                            if j >= bl {
                                assert(part.facts@.take(f as int)[j - bl] == part.facts@[j - bl]);
                            }
                        }
                        assert(contributed(contributions@).take(full.len() as int)[j] == full[j]);
                        assert(contributed(contributions@)[j] == named_values(facts@)[j]);
                        assert(!names_unique(contributed(contributions@)));
                    } else {
                        if fact_declared(law.facts@, part.owner@, item) {
                            let i = choose|i: int| #[trigger] fact_at(law.facts@, item.0@, i) && law.facts@[i].owner@ == part.owner@
                                && law.facts@[i].kind.identity() == item.1.kind.identity();
                            lemma_fact_at_unique(law.facts@, item.0@, i, d as int);
                        }
                        assert(!fact_declared(law.facts@, contributions@[c as int].owner@, contributions@[c as int].facts@[f as int]));
                    }
                }
                return Err(ExchangeError::Fact { owner: part.owner.clone(), fact: part.facts[f].0.clone() });
            }
            let ghost prior = facts@;
            facts.push((part.facts[f].0.clone(), part.facts[f].1.amount.clone()));
            proof {
                assert(named_values(facts@) =~= named_values(prior).push((item.0@, item.1.amount@)));
                assert(fact_declared(law.facts@, part.owner@, item));
                assert forall|a: int, b: int| 0 <= a < b < named_values(facts@).len() implies (#[trigger] named_values(facts@)[a]).0
                    != (#[trigger] named_values(facts@)[b]).0 by {
                    if b == prior.len() {
                        assert(prior[a].0@ != id@);
                        assert(named_values(facts@)[a] == named_values(prior)[a]);
                    } else {
                        assert(named_values(facts@)[a] == named_values(prior)[a]);
                        assert(named_values(facts@)[b] == named_values(prior)[b]);
                    }
                }
            }
            f += 1;
        }
        proof {
            assert(part.facts@.take(part.facts@.len() as int) =~= part.facts@);
        }
        c += 1;
    }
    proof {
        assert(contributions@.take(contributions@.len() as int) =~= contributions@);
    }
    if facts.len() != law.facts.len() {
        return Err(ExchangeError::MissingFacts);
    }
    Ok(facts)
}

/// A fact's first position is unique.
proof fn lemma_fact_at_unique<K>(facts: Seq<Fact<K>>, id: Seq<char>, i: int, j: int)
    requires
        fact_at(facts, id, i),
        fact_at(facts, id, j),
    ensures
        i == j,
{
    if i < j {
        assert(facts[i].id@ != id);
    } else if j < i {
        assert(facts[j].id@ != id);
    }
}

/// The facts of the first contributions begin the facts of all.
proof fn lemma_contributed_prefix<K>(contributions: Seq<Contribution<K>>, k: int)
    requires
        0 <= k <= contributions.len(),
    ensures
        contributed(contributions.take(k)).len() <= contributed(contributions).len(),
        contributed(contributions).take(contributed(contributions.take(k)).len() as int) == contributed(contributions.take(k)),
    decreases contributions.len(),
{
    if k == contributions.len() {
        assert(contributions.take(k) =~= contributions);
        assert(contributed(contributions).take(contributed(contributions).len() as int) =~= contributed(contributions));
    } else {
        let rest = contributions.drop_last();
        assert(rest.take(k) =~= contributions.take(k));
        lemma_contributed_prefix(rest, k);
        let whole = contributed(contributions);
        let before = contributed(rest);
        let part = contributed(contributions.take(k));
        assert(whole.take(before.len() as int) =~= before);
        assert(whole.take(part.len() as int) =~= before.take(part.len() as int));
    }
}

/// The role names paired with the amounts before (or after) each leg.
pub open spec fn role_values<K>(law: Law<K>, changes: Seq<(String, Rational, Rational)>, after: bool) -> Seq<(Seq<char>, real)> {
    Seq::new(law.slots@.len(), |i: int| (law.slots@[i].0@, if after { changes[i].2@ } else { changes[i].1@ }))
}

/// The roles paired with the amounts before (or after) each leg.
fn role_table<K: Kind>(law: &Law<K>, changes: &Vec<(String, Rational, Rational)>, after: bool) -> (result: Vec<(String, Rational)>)
    requires
        changes@.len() == law.slots@.len(),
    ensures
        named_values(result@) == role_values(*law, changes@, after),
{
    let mut result: Vec<(String, Rational)> = Vec::new();
    let mut i: usize = 0;
    while i < law.slots.len()
        invariant
            changes@.len() == law.slots@.len(),
            i <= law.slots@.len(),
            result@.len() == i,
            forall|j: int| 0 <= j < i ==> (#[trigger] result@[j]).0@ == law.slots@[j].0@
                && result@[j].1@ == (if after { changes@[j].2@ } else { changes@[j].1@ }),
        decreases law.slots.len() - i,
    {
        let value = if after {
            changes[i].2.clone()
        } else {
            changes[i].1.clone()
        };
        result.push((law.slots[i].0.clone(), value));
        i += 1;
    }
    proof {
        assert(named_values(result@) =~= role_values(*law, changes@, after));
    }
    result
}

/// The amounts of a quantity table, by name.
fn amount_table<K>(table: &Vec<(String, Quantity<K>)>) -> (result: Vec<(String, Rational)>)
    ensures
        named_values(result@) == quantities_view(table@),
{
    let mut result: Vec<(String, Rational)> = Vec::new();
    let mut i: usize = 0;
    while i < table.len()
        invariant
            i <= table@.len(),
            result@.len() == i,
            forall|j: int| 0 <= j < i ==> (#[trigger] result@[j]).0@ == table@[j].0@ && result@[j].1@ == table@[j].1.amount@,
        decreases table.len() - i,
    {
        result.push((table[i].0.clone(), table[i].1.amount.clone()));
        i += 1;
    }
    proof {
        assert(named_values(result@) =~= quantities_view(table@));
    }
    result
}

/// Checks the constraints in order over `input`.
fn check_constraints(constraints: &Vec<Constraint>, exchange: &str, input: &Evaluation) -> (result: Result<(), ExchangeError>)
    ensures
        (result is Ok) == constraints_ok(constraints@, exchange@, input.tables()),
        match result {
            Ok(()) => true,
            Err(e) => exists|k: int| 0 <= k < constraints@.len()
                && (forall|j: int| 0 <= j < k ==> checked(Ok(()), #[trigger] constraints@[j], exchange@, input.tables()))
                && #[trigger] checked(Err(e), constraints@[k], exchange@, input.tables()),
        },
{
    let mut k: usize = 0;
    while k < constraints.len()
        invariant
            k <= constraints@.len(),
            forall|j: int| 0 <= j < k ==> checked(Ok(()), #[trigger] constraints@[j], exchange@, input.tables()),
        decreases constraints.len() - k,
    {
        match constraints[k].check(exchange, input) {
            Ok(()) => {},
            Err(e) => {
                proof {
                    let failure: Result<(), ExchangeError> = Err(e);
                    assert(checked(failure, constraints@[k as int], exchange@, input.tables()));
                    assert(!checked(Ok(()), constraints@[k as int], exchange@, input.tables()));
                }
                return Err(e);
            },
        }
        k += 1;
    }
    Ok(())
}

/// The weight a stock gives capacity `id`: its first weight of that name, or zero.
pub open spec fn weight_in(weights: Seq<(Seq<char>, real)>, id: Seq<char>) -> real {
    match lookup(weights, id) {
        Some(w) => w,
        None => 0real,
    }
}

/// The load of capacity `id` over the first `n` stocks: each weight times
/// the stock's amount.
pub open spec fn load(views: Seq<StockView>, amounts: Seq<real>, id: Seq<char>, n: int) -> real
    decreases n,
{
    if n <= 0 {
        0real
    } else {
        load(views, amounts, id, n - 1) + weight_in(views[n - 1].4, id) * amounts[n - 1]
    }
}

/// The weight a stock gives capacity `id`.
fn weight_of(weights: &Vec<(String, Rational)>, id: &str) -> (result: Rational)
    ensures
        result@ == weight_in(named_values(weights@), id@),
{
    let ghost view = named_values(weights@);
    let mut index: usize = 0;
    proof {
        assert(view.skip(0) =~= view);
    }
    while index < weights.len()
        invariant
            view == named_values(weights@),
            index <= weights@.len(),
            lookup(view, id@) == lookup(view.skip(index as int), id@),
        decreases weights.len() - index,
    {
        proof {
            assert(view.skip(index as int).skip(1) =~= view.skip(index + 1));
            assert(view.skip(index as int)[0] == view[index as int]);
        }
        if same_text(weights[index].0.as_str(), id) {
            return weights[index].1.clone();
        }
        index += 1;
    }
    proof {
        assert(view.skip(index as int).len() == 0);
    }
    Rational::zero()
}

/// Checks every capacity's resulting load against its maximum, in order.
fn check_capacities<K: Kind>(capacities: &Vec<Capacity>, stocks: &Vec<Stock<K>>, amounts: &Vec<Rational>) -> (result: Result<(), ExchangeError>)
    requires
        stocks@.len() == amounts@.len(),
    ensures
        (result is Ok) == caps_ok(capacities@, stocks_view(stocks@), reals(amounts@)),
        match result {
            Ok(()) => true,
            Err(e) => e matches ExchangeError::Capacity { id, residual } && exists|c: int| {
                &&& 0 <= c < capacities@.len()
                &&& (#[trigger] capacities@[c]).id@ == id@
                &&& residual@ == load(stocks_view(stocks@), reals(amounts@), id@, stocks@.len() as int) - capacities@[c].maximum@
                &&& residual@ > 0real
            },
        },
{
    let ghost views = stocks_view(stocks@);
    let ghost values = reals(amounts@);
    let mut c: usize = 0;
    while c < capacities.len()
        invariant
            views == stocks_view(stocks@),
            values == reals(amounts@),
            stocks@.len() == amounts@.len(),
            c <= capacities@.len(),
            forall|d: int| 0 <= d < c ==> load(views, values, (#[trigger] capacities@[d]).id@, stocks@.len() as int) <= capacities@[d].maximum@,
        decreases capacities.len() - c,
    {
        let id = capacities[c].id.as_str();
        let mut total = Rational::zero();
        let mut q: usize = 0;
        while q < stocks.len()
            invariant
                views == stocks_view(stocks@),
                values == reals(amounts@),
                stocks@.len() == amounts@.len(),
                q <= stocks@.len(),
                total@ == load(views, values, id@, q as int),
            decreases stocks.len() - q,
        {
            let weight = weight_of(&stocks[q].capacities, id);
            proof {
                assert(views[q as int].4 == named_values(stocks@[q as int].capacities@));
            }
            total = total.add(&weight.mul(&amounts[q]));
            q += 1;
        }
        let residual = total.sub(&capacities[c].maximum);
        let zero = Rational::zero();
        if zero.lt(&residual) {
            return Err(ExchangeError::Capacity { id: capacities[c].id.clone(), residual });
        }
        c += 1;
    }
    Ok(())
}

/// A failed prefix of removals fails the whole.
proof fn lemma_removed_fails(views: Seq<StockView>, amounts: Seq<real>, removes: Seq<Seq<char>>, n: int)
    requires
        0 <= n <= removes.len(),
        removed(views, amounts, removes.take(n)) is None,
    ensures
        removed(views, amounts, removes) is None,
    decreases removes.len(),
{
    if n == removes.len() {
        assert(removes.take(n) =~= removes);
    } else {
        assert(removes.drop_last().take(n) =~= removes.take(n));
        lemma_removed_fails(views, amounts, removes.drop_last(), n);
    }
}

/// Removes each listed stock, which must be live and empty, and retires its
/// identity.
fn apply_removals<K: Kind>(
    removes: &Vec<String>,
    stocks: &mut Vec<Stock<K>>,
    amounts: &mut Vec<Rational>,
    retired: &mut Vec<String>,
) -> (result: Result<(), ExchangeError>)
    requires
        old(stocks)@.len() == old(amounts)@.len(),
        distinct_ids(old(stocks)@),
    ensures
        final(stocks)@.len() == final(amounts)@.len(),
        distinct_ids(final(stocks)@),
        (result is Ok) == removed(stocks_view(old(stocks)@), reals(old(amounts)@), texts(removes@)) is Some,
        result is Ok ==> removed(stocks_view(old(stocks)@), reals(old(amounts)@), texts(removes@))
            == Some((stocks_view(final(stocks)@), reals(final(amounts)@)))
            && texts(final(retired)@) == texts(old(retired)@) + texts(removes@),
        result matches Err(e) ==> e is UnknownStock || e is NonemptyRemoval,
{
    let ghost views = stocks_view(stocks@);
    let ghost values = reals(amounts@);
    let ghost names = texts(removes@);
    let ghost earlier = texts(retired@);
    proof {
        assert(names.take(0) =~= Seq::<Seq<char>>::empty());
        assert(earlier + names.take(0) =~= earlier);
    }
    let mut r: usize = 0;
    while r < removes.len()
        invariant
            views == stocks_view(old(stocks)@),
            values == reals(old(amounts)@),
            names == texts(removes@),
            earlier == texts(old(retired)@),
            r <= removes@.len(),
            stocks@.len() == amounts@.len(),
            distinct_ids(stocks@),
            removed(views, values, names.take(r as int)) == Some((stocks_view(stocks@), reals(amounts@))),
            texts(retired@) == earlier + names.take(r as int),
        decreases removes.len() - r,
    {
        let id = removes[r].as_str();
        proof {
            assert(names.take(r + 1).drop_last() =~= names.take(r as int));
            assert(names.take(r + 1).last() == id@);
            lemma_unique_view(stocks@);
        }
        let p = match stock_position(stocks, id) {
            Some(p) => p,
            None => {
                proof {
                    if has_id(stocks_view(stocks@), id@) {
                        let q = choose|q: int| 0 <= q < stocks_view(stocks@).len() && (#[trigger] stocks_view(stocks@)[q]).0 == id@;
                        assert(stocks@[q].id@ == id@);
                    }
                    assert(removed(views, values, names.take(r + 1)) is None);
                    lemma_removed_fails(views, values, names, r + 1);
                }
                return Err(ExchangeError::UnknownStock { id: removes[r].clone() });
            },
        };
        proof {
            assert(stocks_view(stocks@)[p as int].0 == id@);
            lemma_index_of(stocks_view(stocks@), id@, p as int);
        }
        if !amounts[p].is_zero() {
            proof {
                assert(reals(amounts@)[p as int] != 0real);
                assert(removed(views, values, names.take(r + 1)) is None);
                lemma_removed_fails(views, values, names, r + 1);
            }
            return Err(ExchangeError::NonemptyRemoval { id: removes[r].clone() });
        }
        let ghost prior = stocks@;
        let ghost prior_amounts = amounts@;
        let ghost prior_retired = retired@;
        stocks.remove(p);
        amounts.remove(p);
        retired.push(removes[r].clone());
        proof {
            assert(stocks_view(stocks@) =~= stocks_view(prior).remove(p as int));
            assert(reals(amounts@) =~= reals(prior_amounts).remove(p as int));
            assert(texts(retired@) =~= texts(prior_retired).push(id@));
            assert(names.take(r + 1) =~= names.take(r as int).push(id@));
            assert(earlier + names.take(r + 1) =~= (earlier + names.take(r as int)).push(id@));
            assert forall|a: int, b: int| 0 <= a < b < stocks@.len() implies (#[trigger] stocks@[a]).id@ != (#[trigger] stocks@[b]).id@ by {
                let a0 = if a < p { a } else { a + 1 };
                let b0 = if b < p { b } else { b + 1 };
                assert(stocks@[a] == prior[a0]);
                assert(stocks@[b] == prior[b0]);
                assert(prior[a0].id@ != prior[b0].id@);
            }
        }
        r += 1;
    }
    proof {
        assert(names.take(names.len() as int) =~= names);
    }
    Ok(())
}

/// Whether `id` names the law at position `i`, and no earlier one.
pub open spec fn law_at<K>(laws: Seq<Law<K>>, id: Seq<char>, i: int) -> bool {
    &&& 0 <= i < laws.len()
    &&& laws[i].id@ == id
    &&& forall|j: int| 0 <= j < i ==> (#[trigger] laws[j]).id@ != id
}

/// The position of the law `id`.
fn law_position<K>(laws: &Vec<Law<K>>, id: &str) -> (result: Option<usize>)
    ensures
        match result {
            Some(i) => law_at(laws@, id@, i as int),
            None => forall|i: int| 0 <= i < laws@.len() ==> (#[trigger] laws@[i]).id@ != id@,
        },
{
    let mut i: usize = 0;
    while i < laws.len()
        invariant
            i <= laws@.len(),
            forall|j: int| 0 <= j < i ==> (#[trigger] laws@[j]).id@ != id@,
        decreases laws.len() - i,
    {
        if same_text(laws[i].id.as_str(), id) {
            return Some(i);
        }
        i += 1;
    }
    None
}

/// A copy of a list of texts.
fn copy_texts(list: &Vec<String>) -> (result: Vec<String>)
    ensures
        result@.len() == list@.len(),
        forall|i: int| 0 <= i < list@.len() ==> (#[trigger] result@[i])@ == list@[i]@,
{
    let mut result: Vec<String> = Vec::new();
    let mut i: usize = 0;
    while i < list.len()
        invariant
            i <= list@.len(),
            result@.len() == i,
            forall|j: int| 0 <= j < i ==> (#[trigger] result@[j])@ == list@[j]@,
        decreases list.len() - i,
    {
        result.push(list[i].clone());
        i += 1;
    }
    result
}

/// What a committed exchange guarantees of the next state and its receipt:
/// the revision advances by one; each role's stock moves from its amount
/// before by its delta; the next stocks and amounts are those after the legs,
/// the moves and the removals; the removed identities are retired; and the
/// records are those the writes leave.
pub open spec fn committed<K: Kind>(
    model: ValidatedModel<K>,
    state: ExchangeState<K>,
    request: Request<K>,
    next: ExchangeState<K>,
    receipt: Receipt,
) -> bool {
    let exchange = request.exchange;
    let views = opened_view(state, exchange);
    let amounts = opened_amounts(state, exchange);
    let bindings = pairs_view(exchange.bindings@);
    let deltas = quantities_view(exchange.deltas@);
    &&& next.well_formed()
    &&& next.revision == state.revision + 1
    &&& receipt.revision == next.revision
    &&& receipt.id@ == exchange.id@
    &&& receipt.law@ == exchange.law@
    &&& receipt.changes@.len() == bindings.len()
    &&& forall|i: int| 0 <= i < bindings.len() ==> leg_change(#[trigger] receipt.changes@[i], bindings, deltas, views, amounts, i)
    &&& removed(moved_view(views, exchange.moves@), legged(bindings, deltas, views, amounts), texts(exchange.removes@))
        == Some((stocks_view(next.stocks@), reals(next.amounts@)))
    &&& texts(next.retired@) == texts(state.retired@) + texts(exchange.removes@)
    &&& write_all(records_view(state.records@), writes_of(request.contributions@)) == Some(records_view(next.records@))
}

/// The law found at `i` is the law of its identity.
proof fn lemma_law_of<K>(laws: Seq<Law<K>>, id: Seq<char>, i: int)
    requires
        law_at(laws, id, i),
    ensures
        has_law(laws, id),
        law_of(laws, id) == laws[i],
{
    let j = choose|j: int| law_at(laws, id, j);
    assert(law_at(laws, id, j));
    lemma_law_at_unique(laws, id, i, j);
}

/// Applies one exchange to `state`: the law must exist, every required
/// participant contribute and every declared fact be given; created stocks
/// start at zero; each role's stock moves by its delta and stays at or above
/// its floor; every constraint holds within tolerance; moved stocks are
/// acceptable in their new placement; removed stocks are empty and retired;
/// every capacity's resulting load is within its maximum; record writes
/// apply; and the revision advances by one. It succeeds exactly when no
/// stage refuses, and a refusal comes from the first stage that does.
pub fn transition<K: Kind>(model: &ValidatedModel<K>, state: &ExchangeState<K>, request: &Request<K>) -> (result: Result<(ExchangeState<K>, Receipt), ExchangeError>)
    requires
        state.well_formed(),
        has_law(model.laws@, request.exchange.law@) ==> canonical_legs(law_of(model.laws@, request.exchange.law@), request.exchange),
        forall|a: int, b: int| 0 <= a < b < request.exchange.moves@.len()
            ==> (#[trigger] request.exchange.moves@[a]).0@ != (#[trigger] request.exchange.moves@[b]).0@,
    ensures
        (result is Ok) == (stage_of(*model, *state, *request) == 0),
        match result {
            Ok((next, receipt)) => committed(*model, *state, *request, next, receipt),
            Err(e) => stage_error(*model, *state, *request, e),
        },
{
    let exchange = &request.exchange;
    let li = match law_position(&model.laws, exchange.law.as_str()) {
        Some(li) => li,
        None => {
            proof {
                if has_law(model.laws@, exchange.law@) {
                    let i = choose|i: int| #[trigger] law_at(model.laws@, exchange.law@, i);
                    assert(model.laws@[i].id@ == exchange.law@);
                }
            }
            return Err(ExchangeError::UnknownLaw { id: exchange.law.clone() });
        },
    };
    let law = &model.laws[li];
    proof {
        lemma_law_of(model.laws@, exchange.law@, li as int);
    }
    match check_participants(law, &request.contributions) {
        Ok(()) => {},
        Err(e) => {
            return Err(e);
        },
    }
    let facts = match gather_facts(law, &request.contributions) {
        Ok(facts) => facts,
        Err(e) => {
            return Err(e);
        },
    };
    let (mut stocks, mut amounts) = match open_stocks(state, &exchange.creates) {
        Ok(opened) => opened,
        Err(e) => {
            return Err(e);
        },
    };
    let ghost views = stocks_view(stocks@);
    let ghost initial = reals(amounts@);
    let ghost bindings = pairs_view(exchange.bindings@);
    let ghost deltas = quantities_view(exchange.deltas@);
    proof {
        assert(views == opened_view(*state, *exchange));
        assert(initial == opened_amounts(*state, *exchange));
    }
    let changes = match apply_legs(law, exchange, &stocks, &mut amounts) {
        Ok(changes) => changes,
        Err(e) => {
            return Err(e);
        },
    };
    let input = Evaluation {
        before: role_table(law, &changes, false),
        after: role_table(law, &changes, true),
        deltas: amount_table(&exchange.deltas),
        boundaries: amount_table(&exchange.boundaries),
        facts,
    };
    proof {
        let tables = leg_tables(*law, bindings, deltas, quantities_view(exchange.boundaries@), views, initial, contributed(request.contributions@));
        assert(input.tables().0 =~= tables.0);
        assert(input.tables().1 =~= tables.1);
        assert(input.tables() == tables);
    }
    match check_constraints(&law.constraints, exchange.id.as_str(), &input) {
        Ok(()) => {},
        Err(e) => {
            return Err(e);
        },
    }
    match apply_moves(model, &exchange.moves, &mut stocks) {
        Ok(()) => {},
        Err(e) => {
            return Err(e);
        },
    }
    let mut retired = copy_texts(&state.retired);
    proof {
        assert(texts(retired@) =~= texts(state.retired@));
    }
    match apply_removals(&exchange.removes, &mut stocks, &mut amounts, &mut retired) {
        Ok(()) => {},
        Err(e) => {
            return Err(e);
        },
    }
    match check_capacities(&model.capacities, &stocks, &amounts) {
        Ok(()) => {},
        Err(e) => {
            return Err(e);
        },
    }
    let mut records = copy_log(&state.records);
    match apply_writes(&request.contributions, &mut records) {
        Ok(()) => {},
        Err(e) => {
            return Err(e);
        },
    }
    let revision = match state.revision.checked_add(1) {
        Some(revision) => revision,
        None => {
            return Err(ExchangeError::RevisionOverflow);
        },
    };
    let receipt = Receipt { id: exchange.id.clone(), revision, law: exchange.law.clone(), changes };
    let next = ExchangeState { revision, stocks, amounts, retired, records };
    Ok((next, receipt))
}

/// A name has one first position.
proof fn lemma_first_at_unique<T>(table: Seq<(String, T)>, key: Seq<char>, i: int, j: int)
    requires
        first_at(table, key, i),
        first_at(table, key, j),
    ensures
        i == j,
{
    if i < j {
        assert(table[i].0@ != key);
    } else if j < i {
        assert(table[j].0@ != key);
    }
}

/// The first position of a name is unique.
proof fn lemma_first_unique<T>(table: Seq<(String, T)>, key: Seq<char>, i: int)
    requires
        first_at(table, key, i),
    ensures
        (choose|j: int| first_at(table, key, j)) == i,
{
    let j = choose|j: int| first_at(table, key, j);
    assert(first_at(table, key, j));
    if j < i {
        assert(table[j].0@ != key);
    } else if j > i {
        assert(table[i].0@ != key);
    }
}

/// The amount of the first quantity named `key`, or zero where none is.
pub open spec fn amount_or_zero<K>(table: Seq<(String, Quantity<K>)>, key: Seq<char>) -> real {
    if has_name(table, key) {
        table[choose|i: int| first_at(table, key, i)].1.amount@
    } else {
        0real
    }
}

/// The identity a value given for `role` must have: the role's kind, or its
/// difference kind.
pub open spec fn expected_identity<K: Kind>(role: K, difference: bool) -> Seq<char> {
    if difference {
        role.difference_identity()
    } else {
        role.identity()
    }
}

/// One value per role, in role order: the given one, or zero of the role's
/// expected kind.
pub open spec fn aligned<K: Kind>(roles: Seq<(String, K)>, given: Seq<(String, Quantity<K>)>, out: Seq<(String, Quantity<K>)>, difference: bool) -> bool {
    &&& out.len() == roles.len()
    &&& forall|i: int| 0 <= i < roles.len() ==> {
        &&& (#[trigger] out[i]).0@ == roles[i].0@
        &&& out[i].1.amount@ == amount_or_zero(given, roles[i].0@)
        &&& out[i].1.kind.identity() == expected_identity(roles[i].1, difference)
    }
}

/// The value names a role and has that role's expected kind.
pub open spec fn declared_value<K: Kind>(roles: Seq<(String, K)>, item: (String, Quantity<K>), difference: bool) -> bool {
    exists|r: int| #[trigger] first_at(roles, item.0@, r) && item.1.kind.identity() == expected_identity(roles[r].1, difference)
}

/// Every given value names a role and has that role's expected kind.
pub open spec fn all_declared<K: Kind>(roles: Seq<(String, K)>, given: Seq<(String, Quantity<K>)>, difference: bool) -> bool {
    forall|g: int| 0 <= g < given.len() ==> declared_value(roles, #[trigger] given[g], difference)
}

/// Checks the given values against the roles and lays them out in role
/// order, filling absent roles with zero.
fn align_values<K: Kind>(roles: &Vec<(String, K)>, given: &Vec<(String, Quantity<K>)>, difference: bool) -> (result: Result<Vec<(String, Quantity<K>)>, ExchangeError>)
    ensures
        (result is Ok) == all_declared(roles@, given@, difference),
        match result {
            Ok(out) => all_declared(roles@, given@, difference) && aligned(roles@, given@, out@, difference),
            Err(e) => e matches ExchangeError::Malformed { reason } && (reason == (if difference { Malformed::UndeclaredDelta } else { Malformed::UndeclaredBoundary }))
                || e is Kinds,
        },
{
    let mut g: usize = 0;
    while g < given.len()
        invariant
            g <= given@.len(),
            forall|h: int| 0 <= h < g ==> declared_value(roles@, #[trigger] given@[h], difference),
        decreases given.len() - g,
    {
        let r = match position_of(roles, given[g].0.as_str()) {
            Some(r) => r,
            None => {
                proof {
                    if declared_value(roles@, given@[g as int], difference) {
                        let q = choose|q: int| #[trigger] first_at(roles@, given@[g as int].0@, q)
                            && given@[g as int].1.kind.identity() == expected_identity(roles@[q].1, difference);
                        assert(roles@[q].0@ == given@[g as int].0@);
                    }
                }
                let reason = if difference { Malformed::UndeclaredDelta } else { Malformed::UndeclaredBoundary };
                return Err(ExchangeError::Malformed { reason });
            },
        };
        let expected = if difference { roles[r].1.difference() } else { roles[r].1.duplicate() };
        if !given[g].1.kind.same(&expected) {
            proof {
                if declared_value(roles@, given@[g as int], difference) {
                    let q = choose|q: int| #[trigger] first_at(roles@, given@[g as int].0@, q)
                        && given@[g as int].1.kind.identity() == expected_identity(roles@[q].1, difference);
                    lemma_first_at_unique(roles@, given@[g as int].0@, q, r as int);
                }
            }
            let context = if difference {
                KindContext::Delta { slot: given[g].0.clone() }
            } else {
                KindContext::Boundary { port: given[g].0.clone() }
            };
            return Err(ExchangeError::Kinds { context });
        }
        proof {
            assert(first_at(roles@, given@[g as int].0@, r as int));
            assert(given@[g as int].1.kind.identity() == expected_identity(roles@[r as int].1, difference));
            assert(declared_value(roles@, given@[g as int], difference));
        }
        g += 1;
    }
    let mut out: Vec<(String, Quantity<K>)> = Vec::new();
    let mut i: usize = 0;
    while i < roles.len()
        invariant
            all_declared(roles@, given@, difference),
            i <= roles@.len(),
            out@.len() == i,
            forall|j: int| 0 <= j < i ==> {
                &&& (#[trigger] out@[j]).0@ == roles@[j].0@
                &&& out@[j].1.amount@ == amount_or_zero(given@, roles@[j].0@)
                &&& out@[j].1.kind.identity() == expected_identity(roles@[j].1, difference)
            },
        decreases roles.len() - i,
    {
        let kind = if difference { roles[i].1.difference() } else { roles[i].1.duplicate() };
        let amount = match position_of(given, roles[i].0.as_str()) {
            Some(p) => {
                proof {
                    lemma_first_unique(given@, roles@[i as int].0@, p as int);
                }
                given[p].1.amount.clone()
            },
            None => Rational::zero(),
        };
        out.push((roles[i].0.clone(), Quantity { amount, kind }));
        i += 1;
    }
    Ok(out)
}

/// Whether the stock bound to each role is the one given for it, with no
/// stock bound twice and none blank.
pub open spec fn bound<K>(slots: Seq<(String, K)>, given: Seq<(String, String)>, out: Seq<(String, String)>) -> bool {
    &&& given.len() == slots.len()
    &&& out.len() == slots.len()
    &&& forall|i: int| 0 <= i < slots.len() ==> {
        &&& (#[trigger] out[i]).0@ == slots[i].0@
        &&& !is_blank(out[i].1@)
        &&& exists|g: int| #[trigger] first_at(given, slots[i].0@, g) && out[i].1@ == given[g].1@
    }
    &&& forall|i: int, j: int| 0 <= i < j < out.len() ==> (#[trigger] out[i]).1@ != (#[trigger] out[j]).1@
}

/// For each role, in role order, the role and the stock first given for it.
pub open spec fn canonical_pairs<K>(slots: Seq<(String, K)>, given: Seq<(String, String)>) -> Seq<(Seq<char>, Seq<char>)> {
    Seq::new(slots.len(), |i: int| (slots[i].0@, given[choose|g: int| first_at(given, slots[i].0@, g)].1@))
}

/// Whether the bindings name exactly the roles, each to a nonblank stock, no
/// stock twice.
pub open spec fn bindings_ok<K>(slots: Seq<(String, K)>, given: Seq<(String, String)>) -> bool {
    let pairs = canonical_pairs(slots, given);
    &&& given.len() == slots.len()
    &&& forall|i: int| 0 <= i < slots.len() ==> has_name(given, (#[trigger] slots[i]).0@)
    &&& forall|i: int| 0 <= i < pairs.len() ==> !is_blank((#[trigger] pairs[i]).1)
    &&& forall|i: int, j: int| 0 <= i < j < pairs.len() ==> (#[trigger] pairs[i]).1 != (#[trigger] pairs[j]).1
}

/// Binds each role, in role order, to the stock given for it.
fn bind_roles<K>(slots: &Vec<(String, K)>, given: &Vec<(String, String)>) -> (result: Result<Vec<(String, String)>, ExchangeError>)
    ensures
        (result is Ok) == bindings_ok(slots@, given@),
        match result {
            Ok(out) => bound(slots@, given@, out@) && pairs_view(out@) == canonical_pairs(slots@, given@),
            Err(e) => e matches ExchangeError::Malformed { reason }
                && (reason == Malformed::BindingsMismatch || reason == Malformed::BlankId || reason == Malformed::AliasedStock),
        },
{
    if given.len() != slots.len() {
        return Err(ExchangeError::Malformed { reason: Malformed::BindingsMismatch });
    }
    let mut out: Vec<(String, String)> = Vec::new();
    let mut i: usize = 0;
    while i < slots.len()
        invariant
            given@.len() == slots@.len(),
            i <= slots@.len(),
            out@.len() == i,
            forall|j: int| 0 <= j < i ==> (#[trigger] out@[j]).0@ == slots@[j].0@
                && exists|g: int| #[trigger] first_at(given@, slots@[j].0@, g) && out@[j].1@ == given@[g].1@,
        decreases slots.len() - i,
    {
        let g = match position_of(given, slots[i].0.as_str()) {
            Some(g) => g,
            None => {
                proof {
                    assert(!has_name(given@, slots@[i as int].0@));
                }
                return Err(ExchangeError::Malformed { reason: Malformed::BindingsMismatch });
            },
        };
        let ghost prior = out@;
        out.push((slots[i].0.clone(), given[g].1.clone()));
        proof {
            assert(first_at(given@, slots@[i as int].0@, g as int));
            assert(out@[i as int].1@ == given@[g as int].1@);
            assert forall|j: int| 0 <= j < i + 1 implies (#[trigger] out@[j]).0@ == slots@[j].0@
                && exists|q: int| #[trigger] first_at(given@, slots@[j].0@, q) && out@[j].1@ == given@[q].1@ by {
                if j < i {
                    assert(out@[j] == prior[j]);
                } else {
                    assert(first_at(given@, slots@[j].0@, g as int) && out@[j].1@ == given@[g as int].1@);
                }
            }
        }
        i += 1;
    }
    proof {
        assert forall|j: int| 0 <= j < slots@.len() implies #[trigger] pairs_view(out@)[j] == canonical_pairs(slots@, given@)[j] by {
            let g = choose|g: int| #[trigger] first_at(given@, slots@[j].0@, g) && out@[j].1@ == given@[g].1@;
            lemma_first_unique(given@, slots@[j].0@, g);
        }
        assert(pairs_view(out@) =~= canonical_pairs(slots@, given@));
        assert forall|j: int| 0 <= j < slots@.len() implies has_name(given@, (#[trigger] slots@[j]).0@) by {
            let g = choose|g: int| #[trigger] first_at(given@, slots@[j].0@, g) && out@[j].1@ == given@[g].1@;
        }
    }
    let mut j: usize = 0;
    while j < out.len()
        invariant
            pairs_view(out@) == canonical_pairs(slots@, given@),
            j <= out@.len(),
            forall|a: int| 0 <= a < j ==> !is_blank((#[trigger] out@[a]).1@),
            forall|a: int, b: int| 0 <= a < b < out@.len() && a < j ==> (#[trigger] out@[a]).1@ != (#[trigger] out@[b]).1@,
        decreases out.len() - j,
    {
        if blank(out[j].1.as_str()) {
            proof {
                assert(canonical_pairs(slots@, given@)[j as int].1 == out@[j as int].1@);
            }
            return Err(ExchangeError::Malformed { reason: Malformed::BlankId });
        }
        let mut k: usize = j + 1;
        while k < out.len()
            invariant
                pairs_view(out@) == canonical_pairs(slots@, given@),
                j < out@.len(),
                j + 1 <= k <= out@.len(),
                forall|b: int| j < b < k ==> out@[j as int].1@ != (#[trigger] out@[b]).1@,
            decreases out.len() - k,
        {
            if same_text(out[j].1.as_str(), out[k].1.as_str()) {
                proof {
                    assert(canonical_pairs(slots@, given@)[j as int].1 == out@[j as int].1@);
                    assert(canonical_pairs(slots@, given@)[k as int].1 == out@[k as int].1@);
                }
                return Err(ExchangeError::Malformed { reason: Malformed::AliasedStock });
            }
            k += 1;
        }
        j += 1;
    }
    Ok(out)
}

/// Whether a capacity `id` is registered.
pub open spec fn registered(capacities: Seq<Capacity>, id: Seq<char>) -> bool {
    exists|c: int| 0 <= c < capacities.len() && (#[trigger] capacities[c]).id@ == id
}

/// Whether a stock is acceptable in the model.
pub open spec fn valid_stock<K: Kind>(owners: Seq<String>, capacities: Seq<Capacity>, stock: Stock<K>) -> bool {
    valid_view(owners, capacities, stock_view(stock))
}

/// Whether a stock identity is bound to some role.
pub open spec fn bound_stock(bindings: Seq<(String, String)>, id: Seq<char>) -> bool {
    exists|b: int| 0 <= b < bindings.len() && (#[trigger] bindings[b]).1@ == id
}

/// Whether a stock identity is bound to some role.
fn is_bound(bindings: &Vec<(String, String)>, id: &str) -> (result: bool)
    ensures
        result == bound_stock(bindings@, id@),
{
    let mut b: usize = 0;
    while b < bindings.len()
        invariant
            b <= bindings@.len(),
            forall|c: int| 0 <= c < b ==> (#[trigger] bindings@[c]).1@ != id@,
        decreases bindings.len() - b,
    {
        if same_text(bindings[b].1.as_str(), id) {
            return true;
        }
        b += 1;
    }
    false
}

/// Checks a stock against the model.
fn check_stock<K: Kind>(model: &ValidatedModel<K>, stock: &Stock<K>) -> (result: Result<(), ExchangeError>)
    ensures
        (result is Ok) == valid_stock(model.owners@, model.capacities@, *stock),
        result matches Err(e) ==> e is Malformed,
{
    let ghost view = stock_view(*stock);
    if blank(stock.id.as_str()) {
        return Err(ExchangeError::Malformed { reason: Malformed::BlankId });
    }
    if !contains_text(&model.owners, stock.owner.as_str()) {
        return Err(ExchangeError::Malformed { reason: Malformed::UndeclaredOwner });
    }
    let mut w: usize = 0;
    while w < stock.capacities.len()
        invariant
            view == stock_view(*stock),
            w <= stock.capacities@.len(),
            forall|v: int| 0 <= v < w ==> {
                &&& registered(model.capacities@, (#[trigger] view.4[v]).0)
                &&& view.4[v].1 >= 0real
                &&& (view.3 matches Some(f) && f >= 0real)
            },
        decreases stock.capacities.len() - w,
    {
        let name = stock.capacities[w].0.as_str();
        let mut c: usize = 0;
        let mut found = false;
        while c < model.capacities.len() && !found
            invariant
                c <= model.capacities@.len(),
                found ==> registered(model.capacities@, name@),
                !found ==> forall|d: int| 0 <= d < c ==> (#[trigger] model.capacities@[d]).id@ != name@,
            decreases model.capacities.len() - c,
        {
            if same_text(model.capacities[c].id.as_str(), name) {
                found = true;
            }
            c += 1;
        }
        proof {
            assert(view.4[w as int].0 == name@);
            assert(view.4[w as int].1 == stock.capacities@[w as int].1@);
        }
        if !found {
            return Err(ExchangeError::Malformed { reason: Malformed::UndeclaredCapacity });
        }
        let floored = match stock.kind.floor() {
            Some(f) => !f.is_negative(),
            None => false,
        };
        if stock.capacities[w].1.is_negative() || !floored {
            return Err(ExchangeError::Malformed { reason: Malformed::InvalidWeight });
        }
        w += 1;
    }
    Ok(())
}

/// What a canonical request holds: the exchange's identity and law, its
/// roles bound in the law's order, its deltas and boundary inputs checked and
/// laid out in the law's order with zero for absent ones, distinct valid
/// created stocks each bound to a role, removed stocks bound to a role and
/// not created, and the contributions as given.
pub open spec fn canonical_request<K: Kind>(
    model: ValidatedModel<K>,
    law: Law<K>,
    exchange: Exchange<K>,
    contributions: Vec<Contribution<K>>,
    result: Request<K>,
) -> bool {
    let out = result.exchange;
    &&& !is_blank(exchange.id@)
    &&& out.id@ == exchange.id@
    &&& out.law@ == exchange.law@
    &&& bound(law.slots@, exchange.bindings@, out.bindings@)
    &&& all_declared(law.slots@, exchange.deltas@, true)
    &&& aligned(law.slots@, exchange.deltas@, out.deltas@, true)
    &&& all_declared(law.boundaries@, exchange.boundaries@, false)
    &&& aligned(law.boundaries@, exchange.boundaries@, out.boundaries@, false)
    &&& out.creates == exchange.creates
    &&& out.removes == exchange.removes
    &&& result.contributions == contributions
    &&& forall|i: int, j: int| 0 <= i < j < out.creates@.len() ==> (#[trigger] out.creates@[i]).id@ != (#[trigger] out.creates@[j]).id@
    &&& forall|k: int| 0 <= k < out.creates@.len() ==> valid_stock(model.owners@, model.capacities@, #[trigger] out.creates@[k])
        && bound_stock(out.bindings@, out.creates@[k].id@)
    &&& forall|r: int| 0 <= r < out.removes@.len() ==> bound_stock(out.bindings@, (#[trigger] out.removes@[r])@)
        && !has_stock(out.creates@, out.removes@[r]@) && !has_name(out.moves@, out.removes@[r]@)
    &&& out.moves == exchange.moves
    &&& forall|m: int| 0 <= m < out.moves@.len() ==> bound_stock(out.bindings@, (#[trigger] out.moves@[m]).0@)
    &&& forall|a: int, b: int| 0 <= a < b < out.moves@.len() ==> (#[trigger] out.moves@[a]).0@ != (#[trigger] out.moves@[b]).0@
    &&& canonical_legs(law, out)
}

/// Whether a stock identity is bound to some role, by views.
pub open spec fn bound_view(pairs: Seq<(Seq<char>, Seq<char>)>, id: Seq<char>) -> bool {
    exists|b: int| 0 <= b < pairs.len() && (#[trigger] pairs[b]).1 == id
}

/// Binding by value and by view agree.
proof fn lemma_bound_view(bindings: Seq<(String, String)>, id: Seq<char>)
    ensures
        bound_stock(bindings, id) == bound_view(pairs_view(bindings), id),
{
    if bound_stock(bindings, id) {
        let b = choose|b: int| 0 <= b < bindings.len() && (#[trigger] bindings[b]).1@ == id;
        assert(pairs_view(bindings)[b].1 == id);
    }
    if bound_view(pairs_view(bindings), id) {
        let b = choose|b: int| 0 <= b < pairs_view(bindings).len() && (#[trigger] pairs_view(bindings)[b]).1 == id;
        assert(bindings[b].1@ == id);
    }
}

/// The first check that refuses an exchange, or zero when none does: a blank
/// identity, an unknown law, the bindings, the deltas, the boundary inputs,
/// a stock created twice, an invalid or unbound created stock, an unbound
/// removal, an unbound move, a stock removed and also created or moved, and
/// a stock moved twice, in that order.
pub open spec fn canonical_stage<K: Kind>(model: ValidatedModel<K>, exchange: Exchange<K>) -> int {
    if is_blank(exchange.id@) {
        1
    } else if !has_law(model.laws@, exchange.law@) {
        2
    } else {
        let law = law_of(model.laws@, exchange.law@);
        let pairs = canonical_pairs(law.slots@, exchange.bindings@);
        if !bindings_ok(law.slots@, exchange.bindings@) {
            3
        } else if !all_declared(law.slots@, exchange.deltas@, true) {
            4
        } else if !all_declared(law.boundaries@, exchange.boundaries@, false) {
            5
        } else if !distinct_ids(exchange.creates@) {
            6
        } else if !(forall|k: int| 0 <= k < exchange.creates@.len() ==> valid_stock(model.owners@, model.capacities@, #[trigger] exchange.creates@[k])
            && bound_view(pairs, exchange.creates@[k].id@)) {
            7
        } else if !(forall|r: int| 0 <= r < exchange.removes@.len() ==> bound_view(pairs, (#[trigger] exchange.removes@[r])@)) {
            8
        } else if !(forall|m: int| 0 <= m < exchange.moves@.len() ==> bound_view(pairs, (#[trigger] exchange.moves@[m]).0@)) {
            9
        } else if !(forall|r: int| 0 <= r < exchange.removes@.len() ==> !has_stock(exchange.creates@, (#[trigger] exchange.removes@[r])@)
            && !has_name(exchange.moves@, exchange.removes@[r]@)) {
            10
        } else if !(forall|a: int, b: int| 0 <= a < b < exchange.moves@.len() ==> (#[trigger] exchange.moves@[a]).0@ != (#[trigger] exchange.moves@[b]).0@) {
            11
        } else {
            0
        }
    }
}

/// The refusal each canonical check gives.
pub open spec fn canonical_error(stage: int, e: ExchangeError) -> bool {
    &&& stage == 1 ==> e == ExchangeError::Malformed { reason: Malformed::BlankId }
    &&& stage == 2 ==> e is UnknownLaw
    &&& stage == 3 ==> (e matches ExchangeError::Malformed { reason }
        && (reason == Malformed::BindingsMismatch || reason == Malformed::BlankId || reason == Malformed::AliasedStock))
    &&& stage == 4 ==> e == ExchangeError::Malformed { reason: Malformed::UndeclaredDelta } || e is Kinds
    &&& stage == 5 ==> e == ExchangeError::Malformed { reason: Malformed::UndeclaredBoundary } || e is Kinds
    &&& stage == 6 ==> e == ExchangeError::Malformed { reason: Malformed::DuplicateCreation }
    &&& stage == 7 ==> e is Malformed
    &&& (stage == 8 || stage == 9) ==> e == ExchangeError::Malformed { reason: Malformed::TopologyWithoutRole }
    &&& (stage == 10 || stage == 11) ==> e == ExchangeError::Malformed { reason: Malformed::ConflictingTopology }
}

/// Checks an exchange against its law and lays it out canonically: roles,
/// deltas and boundary inputs in the law's order, absent ones zero.
#[verifier::loop_isolation(false)]
pub fn canonical<K: Kind>(model: &ValidatedModel<K>, exchange: Exchange<K>, contributions: Vec<Contribution<K>>) -> (result: Result<Request<K>, ExchangeError>)
    ensures
        (result is Ok) == (canonical_stage(*model, exchange) == 0),
        match result {
            Ok(request) => has_law(model.laws@, exchange.law@)
                && canonical_request(*model, law_of(model.laws@, exchange.law@), exchange, contributions, request),
            Err(e) => canonical_error(canonical_stage(*model, exchange), e),
        },
{
    if blank(exchange.id.as_str()) {
        return Err(ExchangeError::Malformed { reason: Malformed::BlankId });
    }
    let li = match law_position(&model.laws, exchange.law.as_str()) {
        Some(li) => li,
        None => {
            proof {
                if has_law(model.laws@, exchange.law@) {
                    let i = choose|i: int| #[trigger] law_at(model.laws@, exchange.law@, i);
                    assert(model.laws@[i].id@ == exchange.law@);
                }
            }
            return Err(ExchangeError::UnknownLaw { id: exchange.law.clone() });
        },
    };
    let law = &model.laws[li];
    proof {
        lemma_law_of(model.laws@, exchange.law@, li as int);
    }
    let bindings = match bind_roles(&law.slots, &exchange.bindings) {
        Ok(b) => b,
        Err(e) => {
            return Err(e);
        },
    };
    let deltas = match align_values(&law.slots, &exchange.deltas, true) {
        Ok(d) => d,
        Err(e) => {
            return Err(e);
        },
    };
    let boundaries = match align_values(&law.boundaries, &exchange.boundaries, false) {
        Ok(b) => b,
        Err(e) => {
            return Err(e);
        },
    };
    let n = exchange.creates.len();
    let mut i: usize = 0;
    while i < n
        invariant
            n == exchange.creates@.len(),
            i <= n,
            forall|a: int, b: int| 0 <= a < b < n && a < i ==> (#[trigger] exchange.creates@[a]).id@ != (#[trigger] exchange.creates@[b]).id@,
        decreases n - i,
    {
        let mut j: usize = i + 1;
        while j < n
            invariant
                n == exchange.creates@.len(),
                i < n,
                i + 1 <= j <= n,
                forall|b: int| i < b < j ==> exchange.creates@[i as int].id@ != (#[trigger] exchange.creates@[b]).id@,
            decreases n - j,
        {
            if same_text(exchange.creates[i].id.as_str(), exchange.creates[j].id.as_str()) {
                proof {
                    assert(exchange.creates@[i as int].id@ == exchange.creates@[j as int].id@);
                    assert(!distinct_ids(exchange.creates@));
                }
                return Err(ExchangeError::Malformed { reason: Malformed::DuplicateCreation });
            }
            j += 1;
        }
        i += 1;
    }
    let ghost pairs = canonical_pairs(law.slots@, exchange.bindings@);
    proof {
        assert(distinct_ids(exchange.creates@));
    }
    let mut k: usize = 0;
    while k < n
        invariant
            n == exchange.creates@.len(),
            pairs == pairs_view(bindings@),
            k <= n,
            forall|c: int| 0 <= c < k ==> valid_stock(model.owners@, model.capacities@, #[trigger] exchange.creates@[c])
                && bound_stock(bindings@, exchange.creates@[c].id@),
        decreases n - k,
    {
        match check_stock(model, &exchange.creates[k]) {
            Ok(()) => {},
            Err(e) => {
                proof {
                    assert(!valid_stock(model.owners@, model.capacities@, exchange.creates@[k as int]));
                }
                return Err(e);
            },
        }
        if !is_bound(&bindings, exchange.creates[k].id.as_str()) {
            proof {
                lemma_bound_view(bindings@, exchange.creates@[k as int].id@);
                assert(!bound_view(pairs, exchange.creates@[k as int].id@));
            }
            return Err(ExchangeError::Malformed { reason: Malformed::CreatedWithoutRole });
        }
        k += 1;
    }
    proof {
        assert forall|c: int| 0 <= c < n implies valid_stock(model.owners@, model.capacities@, #[trigger] exchange.creates@[c])
            && bound_view(pairs, exchange.creates@[c].id@) by {
            lemma_bound_view(bindings@, exchange.creates@[c].id@);
        }
    }
    let mut r: usize = 0;
    while r < exchange.removes.len()
        invariant
            pairs == pairs_view(bindings@),
            r <= exchange.removes@.len(),
            forall|s: int| 0 <= s < r ==> bound_view(pairs, (#[trigger] exchange.removes@[s])@),
        decreases exchange.removes.len() - r,
    {
        let bound = is_bound(&bindings, exchange.removes[r].as_str());
        proof {
            lemma_bound_view(bindings@, exchange.removes@[r as int]@);
        }
        if !bound {
            return Err(ExchangeError::Malformed { reason: Malformed::TopologyWithoutRole });
        }
        r += 1;
    }
    let mut m: usize = 0;
    while m < exchange.moves.len()
        invariant
            pairs == pairs_view(bindings@),
            m <= exchange.moves@.len(),
            forall|s: int| 0 <= s < m ==> bound_view(pairs, (#[trigger] exchange.moves@[s]).0@),
        decreases exchange.moves.len() - m,
    {
        let bound = is_bound(&bindings, exchange.moves[m].0.as_str());
        proof {
            lemma_bound_view(bindings@, exchange.moves@[m as int].0@);
        }
        if !bound {
            return Err(ExchangeError::Malformed { reason: Malformed::TopologyWithoutRole });
        }
        m += 1;
    }
    let mut r: usize = 0;
    while r < exchange.removes.len()
        invariant
            r <= exchange.removes@.len(),
            forall|s: int| 0 <= s < r ==> !has_stock(exchange.creates@, (#[trigger] exchange.removes@[s])@)
                && !has_name(exchange.moves@, exchange.removes@[s]@),
        decreases exchange.removes.len() - r,
    {
        if stock_position(&exchange.creates, exchange.removes[r].as_str()).is_some()
            || position_of(&exchange.moves, exchange.removes[r].as_str()).is_some() {
            return Err(ExchangeError::Malformed { reason: Malformed::ConflictingTopology });
        }
        r += 1;
    }
    let nm = exchange.moves.len();
    let mut a: usize = 0;
    while a < nm
        invariant
            nm == exchange.moves@.len(),
            a <= nm,
            forall|x: int, y: int| 0 <= x < y < nm && x < a ==> (#[trigger] exchange.moves@[x]).0@ != (#[trigger] exchange.moves@[y]).0@,
        decreases nm - a,
    {
        let mut b: usize = a + 1;
        while b < nm
            invariant
                nm == exchange.moves@.len(),
                a < nm,
                a + 1 <= b <= nm,
                forall|y: int| a < y < b ==> exchange.moves@[a as int].0@ != (#[trigger] exchange.moves@[y]).0@,
            decreases nm - b,
        {
            if same_text(exchange.moves[a].0.as_str(), exchange.moves[b].0.as_str()) {
                proof {
                    assert(exchange.moves@[a as int].0@ == exchange.moves@[b as int].0@);
                }
                return Err(ExchangeError::Malformed { reason: Malformed::ConflictingTopology });
            }
            b += 1;
        }
        a += 1;
    }
    let ghost original = exchange;
    let Exchange { id, law: law_id, bindings: _, deltas: _, boundaries: _, creates, removes, moves } = exchange;
    let request = Request {
        exchange: Exchange { id, law: law_id, bindings, deltas, boundaries, creates, removes, moves },
        contributions,
    };
    proof {
        assert(law_at(model.laws@, original.law@, li as int));
        assert forall|c: int| 0 <= c < n implies bound_stock(bindings@, (#[trigger] original.creates@[c]).id@) by {
            lemma_bound_view(bindings@, original.creates@[c].id@);
        }
        assert forall|c: int| 0 <= c < original.removes@.len() implies bound_stock(bindings@, (#[trigger] original.removes@[c])@) by {
            lemma_bound_view(bindings@, original.removes@[c]@);
        }
        assert forall|c: int| 0 <= c < original.moves@.len() implies bound_stock(bindings@, (#[trigger] original.moves@[c]).0@) by {
            lemma_bound_view(bindings@, original.moves@[c].0@);
        }
        assert(canonical_request(*model, *law, original, contributions, request));
    }
    Ok(request)
}

/// Two quantity tables agree entry by entry in name, amount and kind.
pub open spec fn same_quantities_spec<K: Kind>(a: Seq<(String, Quantity<K>)>, b: Seq<(String, Quantity<K>)>) -> bool {
    &&& a.len() == b.len()
    &&& forall|i: int| 0 <= i < a.len() ==> (#[trigger] a[i]).0@ == b[i].0@ && a[i].1.amount@ == b[i].1.amount@
        && a[i].1.kind.identity() == b[i].1.kind.identity()
}

/// Two name pairs tables agree entry by entry.
pub open spec fn same_pairs_spec(a: Seq<(String, String)>, b: Seq<(String, String)>) -> bool {
    &&& a.len() == b.len()
    &&& forall|i: int| 0 <= i < a.len() ==> (#[trigger] a[i]).0@ == b[i].0@ && a[i].1@ == b[i].1@
}

/// Two lists of texts agree entry by entry.
pub open spec fn same_texts_spec(a: Seq<String>, b: Seq<String>) -> bool {
    &&& a.len() == b.len()
    &&& forall|i: int| 0 <= i < a.len() ==> (#[trigger] a[i])@ == b[i]@
}

/// A stock's identity, owner, kind identity and weights.
pub open spec fn stock_key<K: Kind>(stock: Stock<K>) -> (Seq<char>, Seq<char>, Seq<char>, Seq<(Seq<char>, real)>) {
    (stock.id@, stock.owner@, stock.kind.identity(), named_values(stock.capacities@))
}

/// Whether `stock` agrees with some stock of `list`.
pub open spec fn stock_in<K: Kind>(stock: Stock<K>, list: Seq<Stock<K>>) -> bool {
    exists|j: int| 0 <= j < list.len() && stock_key(#[trigger] list[j]) == stock_key(stock)
}

/// Two lists of stocks hold the same stocks, in any order.
pub open spec fn same_stocks_spec<K: Kind>(a: Seq<Stock<K>>, b: Seq<Stock<K>>) -> bool {
    &&& a.len() == b.len()
    &&& forall|i: int| 0 <= i < a.len() ==> stock_in(#[trigger] a[i], b)
    &&& forall|j: int| 0 <= j < b.len() ==> stock_in(#[trigger] b[j], a)
}

/// Two contribution lists agree entry by entry in owner, writes and facts.
pub open spec fn same_contributions_spec<K: Kind>(a: Seq<Contribution<K>>, b: Seq<Contribution<K>>) -> bool {
    &&& a.len() == b.len()
    &&& forall|i: int| 0 <= i < a.len() ==> (#[trigger] a[i]).owner@ == b[i].owner@ && same_quantities_spec(a[i].facts@, b[i].facts@)
        && same_writes_spec(a[i].writes@, b[i].writes@)
}

/// Whether `write` agrees with some write of `list`.
pub open spec fn write_in(write: RecordWrite, list: Seq<RecordWrite>) -> bool {
    exists|j: int| 0 <= j < list.len() && (#[trigger] list[j]).key@ == write.key@ && value_view(list[j].value) == value_view(write.value)
}

/// Two write lists hold the same writes, in any order.
pub open spec fn same_writes_spec(a: Seq<RecordWrite>, b: Seq<RecordWrite>) -> bool {
    &&& a.len() == b.len()
    &&& forall|i: int| 0 <= i < a.len() ==> write_in(#[trigger] a[i], b)
    &&& forall|j: int| 0 <= j < b.len() ==> write_in(#[trigger] b[j], a)
}

/// Whether two byte strings are equal.
fn same_bytes(a: &Vec<u8>, b: &Vec<u8>) -> (result: bool)
    ensures
        result == (a@ == b@),
{
    if a.len() != b.len() {
        return false;
    }
    let mut i: usize = 0;
    while i < a.len()
        invariant
            a@.len() == b@.len(),
            i <= a@.len(),
            forall|j: int| 0 <= j < i ==> a@[j] == b@[j],
        decreases a.len() - i,
    {
        if a[i] != b[i] {
            return false;
        }
        i += 1;
    }
    proof {
        assert(a@ =~= b@);
    }
    true
}

/// Whether two writes agree in key and bytes.
fn same_write(a: &RecordWrite, b: &RecordWrite) -> (result: bool)
    ensures
        result == (a.key@ == b.key@ && value_view(a.value) == value_view(b.value)),
{
    if !same_text(a.key.as_str(), b.key.as_str()) {
        return false;
    }
    match (&a.value, &b.value) {
        (Some(x), Some(y)) => same_bytes(x, y),
        (None, None) => true,
        _ => false,
    }
}

/// Whether `write` agrees with some write of `list`.
fn find_write(write: &RecordWrite, list: &Vec<RecordWrite>) -> (result: bool)
    ensures
        result == write_in(*write, list@),
{
    let mut j: usize = 0;
    while j < list.len()
        invariant
            j <= list@.len(),
            forall|k: int| 0 <= k < j ==> !((#[trigger] list@[k]).key@ == write.key@ && value_view(list@[k].value) == value_view(write.value)),
        decreases list.len() - j,
    {
        if same_write(&list[j], write) {
            return true;
        }
        j += 1;
    }
    false
}

/// Whether every write of `a` agrees with some write of `b`.
fn writes_within(a: &Vec<RecordWrite>, b: &Vec<RecordWrite>) -> (result: bool)
    ensures
        result == forall|i: int| 0 <= i < a@.len() ==> write_in(#[trigger] a@[i], b@),
{
    let mut i: usize = 0;
    while i < a.len()
        invariant
            i <= a@.len(),
            forall|k: int| 0 <= k < i ==> write_in(#[trigger] a@[k], b@),
        decreases a.len() - i,
    {
        if !find_write(&a[i], b) {
            return false;
        }
        i += 1;
    }
    true
}

fn same_writes(a: &Vec<RecordWrite>, b: &Vec<RecordWrite>) -> (result: bool)
    ensures
        result == same_writes_spec(a@, b@),
{
    a.len() == b.len() && writes_within(a, b) && writes_within(b, a)
}

/// Two requests have the same canonical content.
pub open spec fn same_request_spec<K: Kind>(a: Request<K>, b: Request<K>) -> bool {
    &&& a.exchange.id@ == b.exchange.id@
    &&& a.exchange.law@ == b.exchange.law@
    &&& same_pairs_spec(a.exchange.bindings@, b.exchange.bindings@)
    &&& same_quantities_spec(a.exchange.deltas@, b.exchange.deltas@)
    &&& same_quantities_spec(a.exchange.boundaries@, b.exchange.boundaries@)
    &&& same_stocks_spec(a.exchange.creates@, b.exchange.creates@)
    &&& same_texts_spec(a.exchange.removes@, b.exchange.removes@)
    &&& same_placements_spec(a.exchange.moves@, b.exchange.moves@)
    &&& same_contributions_spec(a.contributions@, b.contributions@)
}

fn same_quantities<K: Kind>(a: &Vec<(String, Quantity<K>)>, b: &Vec<(String, Quantity<K>)>) -> (result: bool)
    ensures
        result == same_quantities_spec(a@, b@),
{
    if a.len() != b.len() {
        return false;
    }
    let mut i: usize = 0;
    while i < a.len()
        invariant
            a@.len() == b@.len(),
            i <= a@.len(),
            forall|j: int| 0 <= j < i ==> (#[trigger] a@[j]).0@ == b@[j].0@ && a@[j].1.amount@ == b@[j].1.amount@
                && a@[j].1.kind.identity() == b@[j].1.kind.identity(),
        decreases a.len() - i,
    {
        if !same_text(a[i].0.as_str(), b[i].0.as_str()) || !a[i].1.amount.eq(&b[i].1.amount) || !a[i].1.kind.same(&b[i].1.kind) {
            return false;
        }
        i += 1;
    }
    true
}

fn same_pairs(a: &Vec<(String, String)>, b: &Vec<(String, String)>) -> (result: bool)
    ensures
        result == same_pairs_spec(a@, b@),
{
    if a.len() != b.len() {
        return false;
    }
    let mut i: usize = 0;
    while i < a.len()
        invariant
            a@.len() == b@.len(),
            i <= a@.len(),
            forall|j: int| 0 <= j < i ==> (#[trigger] a@[j]).0@ == b@[j].0@ && a@[j].1@ == b@[j].1@,
        decreases a.len() - i,
    {
        if !same_text(a[i].0.as_str(), b[i].0.as_str()) || !same_text(a[i].1.as_str(), b[i].1.as_str()) {
            return false;
        }
        i += 1;
    }
    true
}

fn same_texts(a: &Vec<String>, b: &Vec<String>) -> (result: bool)
    ensures
        result == same_texts_spec(a@, b@),
{
    if a.len() != b.len() {
        return false;
    }
    let mut i: usize = 0;
    while i < a.len()
        invariant
            a@.len() == b@.len(),
            i <= a@.len(),
            forall|j: int| 0 <= j < i ==> (#[trigger] a@[j])@ == b@[j]@,
        decreases a.len() - i,
    {
        if !same_text(a[i].as_str(), b[i].as_str()) {
            return false;
        }
        i += 1;
    }
    true
}

fn same_weights(a: &Vec<(String, Rational)>, b: &Vec<(String, Rational)>) -> (result: bool)
    ensures
        result == (named_values(a@) == named_values(b@)),
{
    if a.len() != b.len() {
        proof {
            assert(named_values(a@).len() != named_values(b@).len());
        }
        return false;
    }
    let mut i: usize = 0;
    while i < a.len()
        invariant
            a@.len() == b@.len(),
            i <= a@.len(),
            forall|j: int| 0 <= j < i ==> (#[trigger] a@[j]).0@ == b@[j].0@ && a@[j].1@ == b@[j].1@,
        decreases a.len() - i,
    {
        if !same_text(a[i].0.as_str(), b[i].0.as_str()) || !a[i].1.eq(&b[i].1) {
            proof {
                assert(named_values(a@)[i as int] != named_values(b@)[i as int]);
            }
            return false;
        }
        i += 1;
    }
    proof {
        assert(named_values(a@) =~= named_values(b@));
    }
    true
}

/// Whether two stocks agree in identity, owner, kind and weights.
fn same_stock_key<K: Kind>(a: &Stock<K>, b: &Stock<K>) -> (result: bool)
    ensures
        result == (stock_key(*a) == stock_key(*b)),
{
    same_text(a.id.as_str(), b.id.as_str()) && same_text(a.owner.as_str(), b.owner.as_str()) && a.kind.same(&b.kind)
        && same_weights(&a.capacities, &b.capacities)
}

/// Whether every stock of `a` agrees with some stock of `b`.
fn stocks_within<K: Kind>(a: &Vec<Stock<K>>, b: &Vec<Stock<K>>) -> (result: bool)
    ensures
        result == forall|i: int| 0 <= i < a@.len() ==> stock_in(#[trigger] a@[i], b@),
{
    let mut i: usize = 0;
    while i < a.len()
        invariant
            i <= a@.len(),
            forall|k: int| 0 <= k < i ==> stock_in(#[trigger] a@[k], b@),
        decreases a.len() - i,
    {
        let mut j: usize = 0;
        let mut found = false;
        while j < b.len() && !found
            invariant
                i < a@.len(),
                j <= b@.len(),
                found ==> stock_in(a@[i as int], b@),
                !found ==> forall|k: int| 0 <= k < j ==> stock_key(#[trigger] b@[k]) != stock_key(a@[i as int]),
            decreases b.len() - j,
        {
            if same_stock_key(&b[j], &a[i]) {
                found = true;
            }
            j += 1;
        }
        if !found {
            proof {
                assert(!stock_in(a@[i as int], b@));
            }
            return false;
        }
        i += 1;
    }
    true
}

fn same_stocks<K: Kind>(a: &Vec<Stock<K>>, b: &Vec<Stock<K>>) -> (result: bool)
    ensures
        result == same_stocks_spec(a@, b@),
{
    a.len() == b.len() && stocks_within(a, b) && stocks_within(b, a)
}

fn same_contributions<K: Kind>(a: &Vec<Contribution<K>>, b: &Vec<Contribution<K>>) -> (result: bool)
    ensures
        result == same_contributions_spec(a@, b@),
{
    if a.len() != b.len() {
        return false;
    }
    let mut i: usize = 0;
    while i < a.len()
        invariant
            a@.len() == b@.len(),
            i <= a@.len(),
            forall|j: int| 0 <= j < i ==> (#[trigger] a@[j]).owner@ == b@[j].owner@ && same_quantities_spec(a@[j].facts@, b@[j].facts@)
                && same_writes_spec(a@[j].writes@, b@[j].writes@),
        decreases a.len() - i,
    {
        if !same_text(a[i].owner.as_str(), b[i].owner.as_str()) || !same_quantities(&a[i].facts, &b[i].facts)
            || !same_writes(&a[i].writes, &b[i].writes) {
            return false;
        }
        i += 1;
    }
    true
}

/// Whether two requests have the same canonical content.
pub fn same_request<K: Kind>(a: &Request<K>, b: &Request<K>) -> (result: bool)
    ensures
        result == same_request_spec(*a, *b),
{
    same_text(a.exchange.id.as_str(), b.exchange.id.as_str())
        && same_text(a.exchange.law.as_str(), b.exchange.law.as_str())
        && same_pairs(&a.exchange.bindings, &b.exchange.bindings)
        && same_quantities(&a.exchange.deltas, &b.exchange.deltas)
        && same_quantities(&a.exchange.boundaries, &b.exchange.boundaries)
        && same_stocks(&a.exchange.creates, &b.exchange.creates)
        && same_texts(&a.exchange.removes, &b.exchange.removes)
        && same_placements(&a.exchange.moves, &b.exchange.moves)
        && same_contributions(&a.contributions, &b.contributions)
}

/// A law's first position is unique.
proof fn lemma_law_at_unique<K>(laws: Seq<Law<K>>, id: Seq<char>, i: int, j: int)
    requires
        law_at(laws, id, i),
        law_at(laws, id, j),
    ensures
        i == j,
{
    if i < j {
        assert(laws[i].id@ != id);
    } else if j < i {
        assert(laws[j].id@ != id);
    }
}

/// Whether two receipts agree field by field.
pub open spec fn same_receipt(a: Receipt, b: Receipt) -> bool {
    &&& a.id@ == b.id@
    &&& a.revision == b.revision
    &&& a.law@ == b.law@
    &&& a.changes@.len() == b.changes@.len()
    &&& forall|i: int| 0 <= i < a.changes@.len() ==> (#[trigger] a.changes@[i]).0@ == b.changes@[i].0@
        && a.changes@[i].1@ == b.changes@[i].1@ && a.changes@[i].2@ == b.changes@[i].2@
}

/// A copy of a receipt.
fn copy_receipt(receipt: &Receipt) -> (result: Receipt)
    ensures
        same_receipt(result, *receipt),
{
    let mut changes: Vec<(String, Rational, Rational)> = Vec::new();
    let mut i: usize = 0;
    while i < receipt.changes.len()
        invariant
            i <= receipt.changes@.len(),
            changes@.len() == i,
            forall|j: int| 0 <= j < i ==> (#[trigger] changes@[j]).0@ == receipt.changes@[j].0@
                && changes@[j].1@ == receipt.changes@[j].1@ && changes@[j].2@ == receipt.changes@[j].2@,
        decreases receipt.changes.len() - i,
    {
        let c = &receipt.changes[i];
        changes.push((c.0.clone(), c.1.clone(), c.2.clone()));
        i += 1;
    }
    Receipt { id: receipt.id.clone(), revision: receipt.revision, law: receipt.law.clone(), changes }
}

/// A validated, unpublished exchange: the revision it was prepared against,
/// its canonical request, the state it leads to (none when the identical
/// request is already committed) and its receipt.
pub struct Prepared<K: Kind> {
    base: u64,
    request: Request<K>,
    next: Option<ExchangeState<K>>,
    receipt: Receipt,
}

impl<K: Kind> Prepared<K> {
    #[verifier::type_invariant]
    closed spec fn leads_on(&self) -> bool {
        self.next matches Some(next) ==> next.well_formed() && next.revision == self.base + 1
    }

    /// The revision the preparation was made against.
    pub closed spec fn base_spec(&self) -> u64 {
        self.base
    }

    /// The prepared request.
    pub closed spec fn request_spec(&self) -> Request<K> {
        self.request
    }

    /// The state the preparation leads to, if it commits anew.
    pub closed spec fn next_spec(&self) -> Option<ExchangeState<K>> {
        self.next
    }

    /// The receipt the preparation gives.
    pub closed spec fn receipt_spec(&self) -> Receipt {
        self.receipt
    }
}

/// One authoritative exchange state with its committed requests and receipts.
/// Whether an owner's contribution is admissible: the owner is registered,
/// the contribution is not empty, each record key is nonblank and written
/// once, and each fact is named.
pub open spec fn participation_ok<K>(
    owners: Seq<String>,
    owner: Seq<char>,
    writes: Seq<RecordWrite>,
    facts: Seq<(String, Quantity<K>)>,
) -> bool {
    &&& listed(owners, owner)
    &&& writes.len() + facts.len() > 0
    &&& forall|w: int| 0 <= w < writes.len() ==> !is_blank((#[trigger] writes[w]).key@)
    &&& forall|a: int, b: int| 0 <= a < b < writes.len() ==> (#[trigger] writes[a]).key@ != (#[trigger] writes[b]).key@
    &&& forall|f: int| 0 <= f < facts.len() ==> !is_blank((#[trigger] facts[f]).0@)
}

/// An empty state at revision zero: no stocks, amounts, retired identities
/// or records.
pub open spec fn initial_state<K>(state: ExchangeState<K>) -> bool {
    &&& state.revision == 0
    &&& state.stocks@.len() == 0
    &&& state.amounts@.len() == 0
    &&& state.retired@.len() == 0
    &&& state.records@.len() == 0
}

/// Whether a request with exchange identity `id` is among `commits`.
pub open spec fn commit_listed<K>(commits: Seq<(Request<K>, Receipt)>, id: Seq<char>) -> bool {
    exists|i: int| 0 <= i < commits.len() && (#[trigger] commits[i]).0.exchange.id@ == id
}

/// One replayed exchange: it canonicalizes, its identity is not yet
/// committed, its canonical request is `commit`'s and commits against
/// `state`, leaving `next` with a receipt equal to `commit`'s.
pub open spec fn replay_step<K: Kind>(
    model: ValidatedModel<K>,
    item: (Exchange<K>, Vec<Contribution<K>>),
    state: ExchangeState<K>,
    prior: Seq<(Request<K>, Receipt)>,
    commit: (Request<K>, Receipt),
    next: ExchangeState<K>,
) -> bool {
    &&& canonical_stage(model, item.0) == 0
    &&& !commit_listed(prior, item.0.id@)
    &&& canonical_request(model, law_of(model.laws@, item.0.law@), item.0, item.1, commit.0)
    &&& stage_of(model, state, commit.0) == 0
    &&& exists|receipt: Receipt| #[trigger] committed(model, state, commit.0, next, receipt) && same_receipt(commit.1, receipt)
}

/// A replayed exchange that is refused: it does not canonicalize, its
/// identity is already committed, or its canonical request does not commit
/// against `state`.
pub open spec fn replay_refused<K: Kind>(
    model: ValidatedModel<K>,
    item: (Exchange<K>, Vec<Contribution<K>>),
    state: ExchangeState<K>,
    prior: Seq<(Request<K>, Receipt)>,
) -> bool {
    ||| canonical_stage(model, item.0) != 0
    ||| commit_listed(prior, item.0.id@)
    ||| exists|request: Request<K>| #[trigger] canonical_request(model, law_of(model.laws@, item.0.law@), item.0, item.1, request)
        && stage_of(model, state, request) != 0
}

/// The first `commits.len()` exchanges of `history` replayed in turn from an
/// initial state through `states`.
pub open spec fn replayed<K: Kind>(
    model: ValidatedModel<K>,
    history: Seq<(Exchange<K>, Vec<Contribution<K>>)>,
    states: Seq<ExchangeState<K>>,
    commits: Seq<(Request<K>, Receipt)>,
) -> bool {
    &&& states.len() == commits.len() + 1
    &&& commits.len() <= history.len()
    &&& initial_state(states[0])
    &&& forall|i: int| 0 <= i < commits.len() ==> #[trigger] replay_step(model, history[i], states[i], commits.take(i), commits[i], states[i + 1])
}

pub struct Engine<K: Kind> {
    model: ValidatedModel<K>,
    state: ExchangeState<K>,
    commits: Vec<(Request<K>, Receipt)>,
}

impl<K: Kind> Engine<K> {
    #[verifier::type_invariant]
    closed spec fn consistent(&self) -> bool {
        &&& self.state.well_formed()
        &&& forall|i: int, j: int| 0 <= i < j < self.commits@.len() ==> (#[trigger] self.commits@[i]).0.exchange.id@
            != (#[trigger] self.commits@[j]).0.exchange.id@
    }

    /// The registered model.
    pub closed spec fn model_spec(&self) -> ValidatedModel<K> {
        self.model
    }

    /// The current state.
    pub closed spec fn state_spec(&self) -> ExchangeState<K> {
        self.state
    }

    /// The committed requests and their receipts, in commit order.
    pub closed spec fn commits_spec(&self) -> Seq<(Request<K>, Receipt)> {
        self.commits@
    }

    /// Whether a committed request has exchange identity `id`.
    pub open spec fn has_commit(&self, id: Seq<char>) -> bool {
        exists|i: int| 0 <= i < self.commits_spec().len() && (#[trigger] self.commits_spec()[i]).0.exchange.id@ == id
    }

    /// The position of the committed request with exchange identity `id`.
    pub open spec fn commit_at(&self, id: Seq<char>) -> int {
        choose|i: int| 0 <= i < self.commits_spec().len() && (#[trigger] self.commits_spec()[i]).0.exchange.id@ == id
    }

    /// What preparing `request` gives: the original receipt of an identical
    /// committed request; a refusal for a committed identity with other
    /// content; otherwise the transition's outcome against the current state.
    pub open spec fn prepared_from(&self, request: Request<K>, result: Result<Prepared<K>, ExchangeError>) -> bool {
        let id = request.exchange.id@;
        if self.has_commit(id) {
            let original = self.commits_spec()[self.commit_at(id)];
            if same_request_spec(original.0, request) {
                result matches Ok(p) && p.next_spec() is None && p.request_spec() == request
                    && p.base_spec() == self.state_spec().revision && same_receipt(p.receipt_spec(), original.1)
            } else {
                result matches Err(e) && e is Duplicate
            }
        } else {
            &&& (result is Ok) == (stage_of(self.model_spec(), self.state_spec(), request) == 0)
            &&& (result matches Ok(p) ==> (p.request_spec() == request && p.base_spec() == self.state_spec().revision
                && (p.next_spec() matches Some(next) && committed(self.model_spec(), self.state_spec(), request, next, p.receipt_spec()))))
            &&& (result matches Err(e) ==> stage_error(self.model_spec(), self.state_spec(), request, e))
        }
    }

    /// An engine over `model`, empty at revision zero.
    pub fn new(model: ValidatedModel<K>) -> (result: Self)
        ensures
            result.model_spec() == model,
            result.state_spec().revision == 0,
            result.state_spec().stocks@.len() == 0,
            result.state_spec().retired@.len() == 0,
            initial_state(result.state_spec()),
            result.commits_spec().len() == 0,
    {
        Engine { model, state: ExchangeState { revision: 0, stocks: Vec::new(), amounts: Vec::new(), retired: Vec::new(), records: Vec::new() }, commits: Vec::new() }
    }

    /// The current revision.
    pub fn revision(&self) -> (result: u64)
        ensures
            result == self.state_spec().revision,
    {
        self.state.revision
    }

    /// The model the engine was built over.
    pub fn model(&self) -> (result: &ValidatedModel<K>)
        ensures
            *result == self.model_spec(),
    {
        &self.model
    }

    /// The committed requests and their receipts, in commit order.
    pub fn commits(&self) -> (result: &Vec<(Request<K>, Receipt)>)
        ensures
            result@ == self.commits_spec(),
    {
        &self.commits
    }

    /// The amount of a live stock.
    pub fn amount(&self, stock: &str) -> (result: Result<&Rational, ExchangeError>)
        ensures
            match result {
                Ok(amount) => has_stock(self.state_spec().stocks@, stock@) && amount@ == self.state_spec().amount_of(stock@),
                Err(e) => !has_stock(self.state_spec().stocks@, stock@) && e is UnknownStock,
            },
    {
        proof {
            use_type_invariant(self);
        }
        match stock_position(&self.state.stocks, stock) {
            Some(p) => {
                proof {
                    lemma_stock_at_unique(self.state.stocks@, stock@, p as int);
                }
                Ok(&self.state.amounts[p])
            },
            None => Err(ExchangeError::UnknownStock { id: String::from_str(stock) }),
        }
    }

    /// The definition of a live stock.
    pub fn stock(&self, stock: &str) -> (result: Result<&Stock<K>, ExchangeError>)
        ensures
            match result {
                Ok(found) => has_stock(self.state_spec().stocks@, stock@) && found.id@ == stock@
                    && stock_view(*found) == stocks_view(self.state_spec().stocks@)[index_of(stocks_view(self.state_spec().stocks@), stock@)],
                Err(e) => !has_stock(self.state_spec().stocks@, stock@) && e is UnknownStock,
            },
    {
        proof {
            use_type_invariant(self);
            lemma_unique_view(self.state.stocks@);
        }
        match stock_position(&self.state.stocks, stock) {
            Some(p) => {
                proof {
                    assert(stocks_view(self.state.stocks@)[p as int].0 == stock@);
                    lemma_index_of(stocks_view(self.state.stocks@), stock@, p as int);
                }
                Ok(&self.state.stocks[p])
            },
            None => Err(ExchangeError::UnknownStock { id: String::from_str(stock) }),
        }
    }

    /// The bytes an owner has stored under `key`.
    pub fn record(&self, owner: &str, key: &str) -> (result: Option<&Vec<u8>>)
        ensures
            match result {
                Some(bytes) => records_view(self.state_spec().records@).dom().contains((owner@, key@))
                    && records_view(self.state_spec().records@)[(owner@, key@)] == bytes@,
                None => !records_view(self.state_spec().records@).dom().contains((owner@, key@)),
            },
    {
        match record_position(&self.state.records, owner, key) {
            Some(i) => match &self.state.records[i].2 {
                Some(bytes) => Some(bytes),
                None => None,
            },
            None => None,
        }
    }

    /// An owner's contribution: its record writes and evaluated facts. The
    /// owner must be registered, each record key nonblank and written once,
    /// each fact named, and the contribution not empty.
    pub fn participate(&self, owner: &str, writes: Vec<RecordWrite>, facts: Vec<(String, Quantity<K>)>) -> (result: Result<Contribution<K>, ExchangeError>)
        ensures
            (result is Ok) == participation_ok(self.model_spec().owners@, owner@, writes@, facts@),
            match result {
                Ok(part) => {
                    &&& part.owner@ == owner@
                    &&& part.writes == writes
                    &&& part.facts == facts
                },
                Err(e) => e is Malformed,
            },
    {
        if !contains_text(&self.model.owners, owner) {
            return Err(ExchangeError::Malformed { reason: Malformed::UndeclaredOwner });
        }
        let n = writes.len();
        let mut a: usize = 0;
        while a < n
            invariant
                n == writes@.len(),
                a <= n,
                forall|w: int| 0 <= w < a ==> !is_blank((#[trigger] writes@[w]).key@),
                forall|x: int, y: int| 0 <= x < y < n && x < a ==> (#[trigger] writes@[x]).key@ != (#[trigger] writes@[y]).key@,
            decreases n - a,
        {
            if blank(writes[a].key.as_str()) {
                return Err(ExchangeError::Malformed { reason: Malformed::BlankId });
            }
            let mut b: usize = a + 1;
            while b < n
                invariant
                    n == writes@.len(),
                    a < n,
                    a + 1 <= b <= n,
                    forall|y: int| a < y < b ==> writes@[a as int].key@ != (#[trigger] writes@[y]).key@,
                decreases n - b,
            {
                if same_text(writes[a].key.as_str(), writes[b].key.as_str()) {
                    return Err(ExchangeError::Malformed { reason: Malformed::DuplicateRecordKey });
                }
                b += 1;
            }
            a += 1;
        }
        if writes.len() == 0 && facts.len() == 0 {
            return Err(ExchangeError::Malformed { reason: Malformed::EmptyParticipation });
        }
        let mut f: usize = 0;
        while f < facts.len()
            invariant
                f <= facts@.len(),
                forall|g: int| 0 <= g < f ==> !is_blank((#[trigger] facts@[g]).0@),
            decreases facts.len() - f,
        {
            if blank(facts[f].0.as_str()) {
                return Err(ExchangeError::Malformed { reason: Malformed::BlankId });
            }
            f += 1;
        }
        Ok(Contribution { owner: String::from_str(owner), writes, facts })
    }

    /// Rebuilds an engine by replaying a committed history in order, each
    /// request prepared and published anew against the state before it; a
    /// history that commits one identity twice, or any request that no longer
    /// validates, is refused.
    pub fn replay(model: ValidatedModel<K>, history: Vec<(Exchange<K>, Vec<Contribution<K>>)>) -> (result: Result<Self, ExchangeError>)
        ensures
            match result {
                Ok(engine) => {
                    &&& engine.model_spec() == model
                    &&& engine.commits_spec().len() == history@.len()
                    &&& engine.state_spec().revision == history@.len()
                    &&& exists|states: Seq<ExchangeState<K>>| #[trigger] replayed(model, history@, states, engine.commits_spec())
                        && states.last() == engine.state_spec()
                },
                Err(_) => exists|states: Seq<ExchangeState<K>>, commits: Seq<(Request<K>, Receipt)>| #[trigger] replayed(model, history@, states, commits)
                    && commits.len() < history@.len()
                    && replay_refused(model, history@[commits.len() as int], states.last(), commits),
            },
    {
        let mut engine = Engine::new(model);
        let ghost start = engine.model_spec();
        let ghost mut states: Seq<ExchangeState<K>> = seq![engine.state_spec()];
        let mut items = history;
        let total = items.len();
        let mut done: usize = 0;
        while items.len() > 0
            invariant
                done + items@.len() == total,
                total == history@.len(),
                items@ == history@.skip(done as int),
                engine.state_spec().revision == done,
                engine.commits_spec().len() == done,
                engine.model_spec() == start,
                start == model,
                replayed(model, history@, states, engine.commits_spec()),
                states.last() == engine.state_spec(),
            decreases items.len(),
        {
            let ghost before = engine.state_spec();
            let ghost prior = engine.commits_spec();
            let ghost item = history@[done as int];
            assert(items@[0] == item);
            let (exchange, contributions) = items.remove(0);
            assert(items@ == history@.skip(done + 1));
            if engine.commit_position(exchange.id.as_str()).is_some() {
                proof {
                    let i = choose|i: int| 0 <= i < prior.len() && (#[trigger] prior[i]).0.exchange.id@ == item.0.id@;
                    assert(commit_listed(prior, item.0.id@));
                    assert(replay_refused(model, item, before, prior));
                }
                return Err(ExchangeError::DuplicateCommit { id: exchange.id.clone() });
            }
            let prepared = match engine.prepare(exchange, contributions) {
                Ok(prepared) => prepared,
                Err(e) => {
                    proof {
                        assert(!engine.has_commit(item.0.id@));
                        if canonical_stage(model, item.0) == 0 {
                            let request = choose|request: Request<K>| #[trigger] canonical_request(
                                model, law_of(model.laws@, item.0.law@), item.0, item.1, request)
                                && engine.prepared_from(request, Err::<Prepared<K>, ExchangeError>(e));
                            assert(canonical_request(model, law_of(model.laws@, item.0.law@), item.0, item.1, request));
                            assert(stage_of(model, before, request) != 0);
                        }
                        assert(replay_refused(model, item, before, prior));
                    }
                    return Err(e);
                },
            };
            proof {
                use_type_invariant(&prepared);
            }
            let ghost request = prepared.request_spec();
            proof {
                assert(!engine.has_commit(item.0.id@));
                let r = choose|request: Request<K>| #[trigger] canonical_request(
                    model, law_of(model.laws@, item.0.law@), item.0, item.1, request)
                    && engine.prepared_from(request, Ok::<Prepared<K>, ExchangeError>(prepared));
                assert(r == request);
                assert(canonical_request(model, law_of(model.laws@, item.0.law@), item.0, item.1, request));
                assert(request.exchange.id@ == item.0.id@);
            }
            match engine.publish(prepared) {
                Ok(_) => {},
                Err(e) => {
                    return Err(e);
                },
            }
            proof {
                let commits = engine.commits_spec();
                let next = engine.state_spec();
                assert(commits.drop_last() == prior);
                assert(commits.take(done as int) == prior);
                assert(!commit_listed(prior, item.0.id@));
                assert(committed(model, before, request, next, prepared.receipt_spec()));
                assert(replay_step(model, item, before, prior, commits[done as int], next));
                let grown = states.push(next);
                assert forall|i: int| 0 <= i < commits.len() implies #[trigger] replay_step(model, history@[i], grown[i], commits.take(i), commits[i], grown[i + 1]) by {
                    if i < done {
                        assert(commits[i] == prior[i]);
                        assert(commits.take(i) == prior.take(i));
                        assert(replay_step(model, history@[i], states[i], prior.take(i), prior[i], states[i + 1]));
                    }
                }
                states = grown;
            }
            done += 1;
        }
        Ok(engine)
    }

    /// The position of the committed request with exchange identity `id`.
    fn commit_position(&self, id: &str) -> (result: Option<usize>)
        ensures
            match result {
                Some(i) => i < self.commits_spec().len() && self.commits_spec()[i as int].0.exchange.id@ == id@,
                None => !self.has_commit(id@),
            },
    {
        let mut i: usize = 0;
        while i < self.commits.len()
            invariant
                i <= self.commits@.len(),
                forall|j: int| 0 <= j < i ==> (#[trigger] self.commits@[j]).0.exchange.id@ != id@,
            decreases self.commits.len() - i,
        {
            if same_text(self.commits[i].0.exchange.id.as_str(), id) {
                return Some(i);
            }
            i += 1;
        }
        None
    }

    /// The receipt of a committed exchange.
    pub fn receipt(&self, id: &str) -> (result: Option<&Receipt>)
        ensures
            match result {
                Some(receipt) => exists|i: int| 0 <= i < self.commits_spec().len()
                    && (#[trigger] self.commits_spec()[i]).0.exchange.id@ == id@ && *receipt == self.commits_spec()[i].1,
                None => !self.has_commit(id@),
            },
    {
        match self.commit_position(id) {
            Some(i) => Some(&self.commits[i].1),
            None => None,
        }
    }

    /// Validates an exchange against the current state without publishing it.
    /// An exchange that does not canonicalize is refused with its canonical
    /// error; otherwise an identical committed request prepares its original
    /// receipt, a committed identity with other content is refused, and any
    /// other request prepares exactly when its transition succeeds.
    pub fn prepare(&self, exchange: Exchange<K>, contributions: Vec<Contribution<K>>) -> (result: Result<Prepared<K>, ExchangeError>)
        ensures
            canonical_stage(self.model_spec(), exchange) != 0 ==> (result matches Err(e)
                && canonical_error(canonical_stage(self.model_spec(), exchange), e)),
            canonical_stage(self.model_spec(), exchange) == 0 ==> exists|request: Request<K>| #[trigger] canonical_request(
                self.model_spec(),
                law_of(self.model_spec().laws@, exchange.law@),
                exchange,
                contributions,
                request,
            ) && self.prepared_from(request, result),
    {
        proof {
            use_type_invariant(self);
        }
        let ghost original = exchange;
        let ghost given = contributions;
        let request = match canonical(&self.model, exchange, contributions) {
            Ok(request) => request,
            Err(e) => {
                return Err(e);
            },
        };
        proof {
            assert(canonical_request(self.model, law_of(self.model.laws@, original.law@), original, given, request));
        }
        match self.commit_position(request.exchange.id.as_str()) {
            Some(i) => {
                proof {
                    assert(self.commits_spec()[i as int].0.exchange.id@ == request.exchange.id@);
                    let c = self.commit_at(request.exchange.id@);
                    assert(0 <= c < self.commits_spec().len() && self.commits_spec()[c].0.exchange.id@ == request.exchange.id@);
                    if c != i {
                        if c < i {
                            assert(self.commits@[c].0.exchange.id@ != self.commits@[i as int].0.exchange.id@);
                        } else {
                            assert(self.commits@[i as int].0.exchange.id@ != self.commits@[c].0.exchange.id@);
                        }
                    }
                }
                if same_request(&self.commits[i].0, &request) {
                    let receipt = copy_receipt(&self.commits[i].1);
                    return Ok(Prepared { base: self.state.revision, request, next: None, receipt });
                }
                return Err(ExchangeError::Duplicate { id: request.exchange.id.clone() });
            },
            None => {},
        }
        let (next, receipt) = match transition(&self.model, &self.state, &request) {
            Ok(done) => done,
            Err(e) => {
                return Err(e);
            },
        };
        Ok(Prepared { base: self.state.revision, request, next: Some(next), receipt })
    }

    /// Publishes a preparation. An identical committed request gives its
    /// original receipt; a committed identity with other content is refused
    /// as a duplicate; a preparation made against another revision is stale;
    /// each of these changes nothing. Otherwise the prepared state replaces
    /// the current one and the request is appended to the commits with its
    /// receipt.
    pub fn publish(&mut self, prepared: Prepared<K>) -> (result: Result<Receipt, ExchangeError>)
        ensures
            final(self).model_spec() == old(self).model_spec(),
            ({
                let request = prepared.request_spec();
                let id = request.exchange.id@;
                if old(self).has_commit(id) {
                    let original = old(self).commits_spec()[old(self).commit_at(id)];
                    &&& final(self).state_spec() == old(self).state_spec()
                    &&& final(self).commits_spec() == old(self).commits_spec()
                    &&& if same_request_spec(original.0, request) {
                        result matches Ok(receipt) && same_receipt(receipt, original.1)
                    } else {
                        result matches Err(e) && e is Duplicate
                    }
                } else if prepared.base_spec() != old(self).state_spec().revision {
                    &&& result matches Err(e) && e is Stale
                    &&& final(self).state_spec() == old(self).state_spec()
                    &&& final(self).commits_spec() == old(self).commits_spec()
                } else {
                    match prepared.next_spec() {
                        Some(next) => {
                            &&& result == Ok::<Receipt, ExchangeError>(prepared.receipt_spec())
                            &&& final(self).state_spec() == next
                            &&& final(self).state_spec().revision == old(self).state_spec().revision + 1
                            &&& final(self).commits_spec().len() == old(self).commits_spec().len() + 1
                            &&& final(self).commits_spec().drop_last() == old(self).commits_spec()
                            &&& final(self).commits_spec().last().0 == request
                            &&& same_receipt(final(self).commits_spec().last().1, prepared.receipt_spec())
                        },
                        None => {
                            &&& result matches Err(e) && e is NoNextState
                            &&& final(self).state_spec() == old(self).state_spec()
                            &&& final(self).commits_spec() == old(self).commits_spec()
                        },
                    }
                }
            }),
    {
        proof {
            use_type_invariant(&prepared);
            use_type_invariant(&*self);
        }
        match self.commit_position(prepared.request.exchange.id.as_str()) {
            Some(i) => {
                proof {
                    let c = self.commit_at(prepared.request.exchange.id@);
                    assert(0 <= c < self.commits_spec().len() && self.commits_spec()[c].0.exchange.id@ == prepared.request.exchange.id@);
                    if c != i {
                        if c < i {
                            assert(self.commits@[c].0.exchange.id@ != self.commits@[i as int].0.exchange.id@);
                        } else {
                            assert(self.commits@[i as int].0.exchange.id@ != self.commits@[c].0.exchange.id@);
                        }
                    }
                }
                if same_request(&self.commits[i].0, &prepared.request) {
                    return Ok(copy_receipt(&self.commits[i].1));
                }
                return Err(ExchangeError::Duplicate { id: prepared.request.exchange.id.clone() });
            },
            None => {},
        }
        if prepared.base != self.state.revision {
            return Err(ExchangeError::Stale);
        }
        let Prepared { base: _, request, next, receipt } = prepared;
        match next {
            Some(next) => {
                let kept = copy_receipt(&receipt);
                let ghost before = self.commits@;
                self.state = next;
                let mut commits: Vec<(Request<K>, Receipt)> = Vec::new();
                std::mem::swap(&mut commits, &mut self.commits);
                commits.push((request, kept));
                proof {
                    assert(commits@.drop_last() =~= before);
                    assert forall|i: int, j: int| 0 <= i < j < commits@.len() implies (#[trigger] commits@[i]).0.exchange.id@
                        != (#[trigger] commits@[j]).0.exchange.id@ by {
                        if j == before.len() {
                            assert(commits@[i] == before[i]);
                            assert(!self.has_commit(request.exchange.id@) || true);
                        }
                    }
                }
                self.commits = commits;
                Ok(receipt)
            },
            None => Err(ExchangeError::NoNextState),
        }
    }
}

/// Whether some equality constraint reads the named role (or boundary).
pub open spec fn covered_by(constraints: Seq<Constraint>, boundary: bool, name: Seq<char>) -> bool {
    exists|k: int| 0 <= k < constraints.len() && (#[trigger] constraints[k]).relation == Relation::Equal
        && (covers_spec(constraints[k].left, boundary, name) || covers_spec(constraints[k].right, boundary, name))
}

/// Whether a law is well formed over the registered owners: nonblank names,
/// registered fact owners who are required participants, registered
/// participants, distinct nonblank constraint names with admissible
/// tolerances, and every role and boundary read by some equality.
pub open spec fn law_valid<K>(law: Law<K>, owners: Seq<String>) -> bool {
    &&& forall|i: int| 0 <= i < law.slots@.len() ==> !is_blank((#[trigger] law.slots@[i]).0@)
    &&& forall|i: int| 0 <= i < law.boundaries@.len() ==> !is_blank((#[trigger] law.boundaries@[i]).0@)
    &&& forall|i: int| 0 <= i < law.facts@.len() ==> !is_blank((#[trigger] law.facts@[i]).id@)
        && listed(owners, law.facts@[i].owner@) && listed(law.participants@, law.facts@[i].owner@)
    &&& forall|i: int| 0 <= i < law.participants@.len() ==> listed(owners, (#[trigger] law.participants@[i])@)
    &&& forall|i: int| 0 <= i < law.constraints@.len() ==> !is_blank((#[trigger] law.constraints@[i]).id@)
        && tolerances_valid(law.constraints@[i])
    &&& forall|i: int, j: int| 0 <= i < j < law.constraints@.len() ==> (#[trigger] law.constraints@[i]).id@ != (#[trigger] law.constraints@[j]).id@
    &&& forall|i: int| 0 <= i < law.slots@.len() ==> covered_by(law.constraints@, false, (#[trigger] law.slots@[i]).0@)
    &&& forall|i: int| 0 <= i < law.boundaries@.len() ==> covered_by(law.constraints@, true, (#[trigger] law.boundaries@[i]).0@)
}

/// Whether some equality constraint reads the name.
fn is_covered(constraints: &Vec<Constraint>, boundary: bool, name: &str) -> (result: bool)
    ensures
        result == covered_by(constraints@, boundary, name@),
{
    let mut k: usize = 0;
    while k < constraints.len()
        invariant
            k <= constraints@.len(),
            forall|j: int| 0 <= j < k ==> !((#[trigger] constraints@[j]).relation == Relation::Equal
                && (covers_spec(constraints@[j].left, boundary, name@) || covers_spec(constraints@[j].right, boundary, name@))),
        decreases constraints.len() - k,
    {
        if constraints[k].covers(boundary, name) {
            return true;
        }
        k += 1;
    }
    false
}

/// Checks a law against the registered owners.
pub fn validate_law<K>(law: &Law<K>, owners: &Vec<String>) -> (result: Result<(), ExchangeError>)
    ensures
        result is Ok <==> law_valid(*law, owners@),
        result matches Err(e) ==> e is Malformed,
{
    let mut i: usize = 0;
    while i < law.slots.len()
        invariant
            i <= law.slots@.len(),
            forall|j: int| 0 <= j < i ==> !is_blank((#[trigger] law.slots@[j]).0@),
        decreases law.slots.len() - i,
    {
        if blank(law.slots[i].0.as_str()) {
            return Err(ExchangeError::Malformed { reason: Malformed::BlankId });
        }
        i += 1;
    }
    let mut i: usize = 0;
    while i < law.boundaries.len()
        invariant
            i <= law.boundaries@.len(),
            forall|j: int| 0 <= j < i ==> !is_blank((#[trigger] law.boundaries@[j]).0@),
        decreases law.boundaries.len() - i,
    {
        if blank(law.boundaries[i].0.as_str()) {
            return Err(ExchangeError::Malformed { reason: Malformed::BlankId });
        }
        i += 1;
    }
    let mut i: usize = 0;
    while i < law.facts.len()
        invariant
            i <= law.facts@.len(),
            forall|j: int| 0 <= j < i ==> !is_blank((#[trigger] law.facts@[j]).id@)
                && listed(owners@, law.facts@[j].owner@) && listed(law.participants@, law.facts@[j].owner@),
        decreases law.facts.len() - i,
    {
        if blank(law.facts[i].id.as_str()) {
            return Err(ExchangeError::Malformed { reason: Malformed::BlankId });
        }
        if !contains_text(owners, law.facts[i].owner.as_str()) {
            return Err(ExchangeError::Malformed { reason: Malformed::UndeclaredOwner });
        }
        if !contains_text(&law.participants, law.facts[i].owner.as_str()) {
            return Err(ExchangeError::Malformed { reason: Malformed::FactOwnerNotParticipant });
        }
        i += 1;
    }
    let mut i: usize = 0;
    while i < law.participants.len()
        invariant
            i <= law.participants@.len(),
            forall|j: int| 0 <= j < i ==> listed(owners@, (#[trigger] law.participants@[j])@),
        decreases law.participants.len() - i,
    {
        if !contains_text(owners, law.participants[i].as_str()) {
            return Err(ExchangeError::Malformed { reason: Malformed::UndeclaredOwner });
        }
        i += 1;
    }
    let n = law.constraints.len();
    let mut i: usize = 0;
    while i < n
        invariant
            n == law.constraints@.len(),
            i <= n,
            forall|j: int| 0 <= j < i ==> !is_blank((#[trigger] law.constraints@[j]).id@) && tolerances_valid(law.constraints@[j]),
            forall|a: int, b: int| 0 <= a < b < n && a < i ==> (#[trigger] law.constraints@[a]).id@ != (#[trigger] law.constraints@[b]).id@,
        decreases n - i,
    {
        if blank(law.constraints[i].id.as_str()) {
            return Err(ExchangeError::Malformed { reason: Malformed::BlankId });
        }
        let mut j: usize = i + 1;
        while j < n
            invariant
                n == law.constraints@.len(),
                i < n,
                i + 1 <= j <= n,
                forall|b: int| i < b < j ==> law.constraints@[i as int].id@ != (#[trigger] law.constraints@[b]).id@,
            decreases n - j,
        {
            if same_text(law.constraints[i].id.as_str(), law.constraints[j].id.as_str()) {
                return Err(ExchangeError::Malformed { reason: Malformed::DuplicateConstraint });
            }
            j += 1;
        }
        if !law.constraints[i].tolerances_admissible() {
            return Err(ExchangeError::Malformed { reason: Malformed::InvalidTolerance });
        }
        i += 1;
    }
    let mut i: usize = 0;
    while i < law.slots.len()
        invariant
            i <= law.slots@.len(),
            forall|j: int| 0 <= j < i ==> covered_by(law.constraints@, false, (#[trigger] law.slots@[j]).0@),
        decreases law.slots.len() - i,
    {
        if !is_covered(&law.constraints, false, law.slots[i].0.as_str()) {
            return Err(ExchangeError::Malformed { reason: Malformed::Uncovered });
        }
        i += 1;
    }
    let mut i: usize = 0;
    while i < law.boundaries.len()
        invariant
            i <= law.boundaries@.len(),
            forall|j: int| 0 <= j < i ==> covered_by(law.constraints@, true, (#[trigger] law.boundaries@[j]).0@),
        decreases law.boundaries.len() - i,
    {
        if !is_covered(&law.constraints, true, law.boundaries[i].0.as_str()) {
            return Err(ExchangeError::Malformed { reason: Malformed::Uncovered });
        }
        i += 1;
    }
    Ok(())
}

/// Whether a model is well formed: some owner, nonblank owners, nonblank
/// capacities with nonnegative maxima, and distinct nonblank valid laws.
pub open spec fn model_valid<K>(owners: Seq<String>, capacities: Seq<Capacity>, laws: Seq<Law<K>>) -> bool {
    &&& owners.len() > 0
    &&& forall|i: int| 0 <= i < owners.len() ==> !is_blank((#[trigger] owners[i])@)
    &&& forall|i: int| 0 <= i < capacities.len() ==> !is_blank((#[trigger] capacities[i]).id@) && capacities[i].maximum@ >= 0real
    &&& forall|i: int| 0 <= i < laws.len() ==> !is_blank((#[trigger] laws[i]).id@) && law_valid(laws[i], owners)
    &&& forall|i: int, j: int| 0 <= i < j < laws.len() ==> (#[trigger] laws[i]).id@ != (#[trigger] laws[j]).id@
}

impl<K> ValidatedModel<K> {
    /// Validates the owners, capacities and laws of a model.
    pub fn new(owners: Vec<String>, capacities: Vec<Capacity>, laws: Vec<Law<K>>) -> (result: Result<Self, ExchangeError>)
        ensures
            result is Ok <==> model_valid(owners@, capacities@, laws@),
            match result {
                Ok(model) => model.owners == owners && model.capacities == capacities && model.laws == laws,
                Err(e) => e is Malformed,
            },
    {
        if owners.len() == 0 {
            return Err(ExchangeError::Malformed { reason: Malformed::NoOwners });
        }
        let mut i: usize = 0;
        while i < owners.len()
            invariant
                i <= owners@.len(),
                forall|j: int| 0 <= j < i ==> !is_blank((#[trigger] owners@[j])@),
            decreases owners.len() - i,
        {
            if blank(owners[i].as_str()) {
                return Err(ExchangeError::Malformed { reason: Malformed::BlankId });
            }
            i += 1;
        }
        let mut i: usize = 0;
        while i < capacities.len()
            invariant
                i <= capacities@.len(),
                forall|j: int| 0 <= j < i ==> !is_blank((#[trigger] capacities@[j]).id@) && capacities@[j].maximum@ >= 0real,
            decreases capacities.len() - i,
        {
            if blank(capacities[i].id.as_str()) {
                return Err(ExchangeError::Malformed { reason: Malformed::BlankId });
            }
            if capacities[i].maximum.is_negative() {
                return Err(ExchangeError::Malformed { reason: Malformed::NegativeCapacity });
            }
            i += 1;
        }
        let n = laws.len();
        let mut i: usize = 0;
        while i < n
            invariant
                n == laws@.len(),
                i <= n,
                forall|j: int| 0 <= j < i ==> !is_blank((#[trigger] laws@[j]).id@) && law_valid(laws@[j], owners@),
                forall|a: int, b: int| 0 <= a < b < n && a < i ==> (#[trigger] laws@[a]).id@ != (#[trigger] laws@[b]).id@,
            decreases n - i,
        {
            if blank(laws[i].id.as_str()) {
                return Err(ExchangeError::Malformed { reason: Malformed::BlankId });
            }
            let mut j: usize = i + 1;
            while j < n
                invariant
                    n == laws@.len(),
                    i < n,
                    i + 1 <= j <= n,
                    forall|b: int| i < b < j ==> laws@[i as int].id@ != (#[trigger] laws@[b]).id@,
                decreases n - j,
            {
                if same_text(laws[i].id.as_str(), laws[j].id.as_str()) {
                    return Err(ExchangeError::Malformed { reason: Malformed::DuplicateLaw });
                }
                j += 1;
            }
            match validate_law(&laws[i], &owners) {
                Ok(()) => {},
                Err(e) => {
                    return Err(e);
                },
            }
            i += 1;
        }
        Ok(ValidatedModel { owners, capacities, laws })
    }
}

/// With distinct move names, the move of a moved stock is its own.
proof fn lemma_move_of(moves: Seq<(String, Placement)>, m: int)
    requires
        0 <= m < moves.len(),
        forall|a: int, b: int| 0 <= a < b < moves.len() ==> (#[trigger] moves[a]).0@ != (#[trigger] moves[b]).0@,
    ensures
        move_of(moves, moves[m].0@) == m,
{
    let k = move_of(moves, moves[m].0@);
    assert(0 <= m < moves.len() && moves[m].0@ == moves[m].0@);
    assert(0 <= k < moves.len() && moves[k].0@ == moves[m].0@);
    if k < m {
        assert(moves[k].0@ != moves[m].0@);
    } else if k > m {
        assert(moves[m].0@ != moves[k].0@);
    }
}

/// Reassigns each moved stock's owner and weights, checking the new
/// placement against the model.
fn apply_moves<K: Kind>(model: &ValidatedModel<K>, moves: &Vec<(String, Placement)>, stocks: &mut Vec<Stock<K>>) -> (result: Result<(), ExchangeError>)
    requires
        distinct_ids(old(stocks)@),
        forall|a: int, b: int| 0 <= a < b < moves@.len() ==> (#[trigger] moves@[a]).0@ != (#[trigger] moves@[b]).0@,
    ensures
        final(stocks)@.len() == old(stocks)@.len(),
        distinct_ids(final(stocks)@),
        (result is Ok) == moves_ok(model.owners@, model.capacities@, moves@, stocks_view(old(stocks)@)),
        result is Ok ==> stocks_view(final(stocks)@) == moved_view(stocks_view(old(stocks)@), moves@),
        result matches Err(e) ==> e is UnknownStock || e is Malformed,
{
    let ghost views = stocks_view(stocks@);
    proof {
        lemma_unique_view(stocks@);
        assert(moved_upto(views, moves@, 0) =~= views);
    }
    let mut m: usize = 0;
    while m < moves.len()
        invariant
            views == stocks_view(old(stocks)@),
            unique_ids(views),
            forall|a: int, b: int| 0 <= a < b < moves@.len() ==> (#[trigger] moves@[a]).0@ != (#[trigger] moves@[b]).0@,
            m <= moves@.len(),
            stocks@.len() == views.len(),
            stocks_view(stocks@) == moved_upto(views, moves@, m as int),
            forall|k: int| 0 <= k < m ==> has_id(views, (#[trigger] moves@[k]).0@)
                && valid_view(model.owners@, model.capacities@, moved(views[index_of(views, moves@[k].0@)], moves@[k].1)),
        decreases moves.len() - m,
    {
        proof {
            assert forall|q: int| 0 <= q < stocks@.len() implies #[trigger] stocks@[q].id@ == views[q].0 by {
                assert(stocks_view(stocks@)[q].0 == moved_upto(views, moves@, m as int)[q].0);
            }
            assert forall|x: int, y: int| 0 <= x < y < stocks@.len() implies (#[trigger] stocks@[x]).id@ != (#[trigger] stocks@[y]).id@ by {
                assert(stocks@[x].id@ == views[x].0);
                assert(stocks@[y].id@ == views[y].0);
            }
        }
        let id = moves[m].0.as_str();
        let p = match stock_position(stocks, id) {
            Some(p) => p,
            None => {
                proof {
                    if has_id(views, id@) {
                        let q = choose|q: int| 0 <= q < views.len() && (#[trigger] views[q]).0 == id@;
                        assert(stocks@[q].id@ == id@);
                    }
                    assert(!has_id(views, moves@[m as int].0@));
                }
                return Err(ExchangeError::UnknownStock { id: moves[m].0.clone() });
            },
        };
        proof {
            assert(views[p as int].0 == id@);
            lemma_index_of(views, id@, p as int);
            assert(!(exists|k: int| 0 <= k < m && (#[trigger] moves@[k]).0@ == views[p as int].0)) by {
                if exists|k: int| 0 <= k < m && (#[trigger] moves@[k]).0@ == views[p as int].0 {
                    let k = choose|k: int| 0 <= k < m && (#[trigger] moves@[k]).0@ == views[p as int].0;
                    assert(moves@[k].0@ != moves@[m as int].0@);
                }
            }
            assert(stocks_view(stocks@)[p as int] == views[p as int]);
        }
        let changed = Stock {
            id: stocks[p].id.clone(),
            owner: moves[m].1.owner.clone(),
            kind: stocks[p].kind.duplicate(),
            capacities: copy_weights(&moves[m].1.capacities),
        };
        proof {
            assert(stock_view(changed) == moved(views[p as int], moves@[m as int].1));
        }
        match check_stock(model, &changed) {
            Ok(()) => {},
            Err(e) => {
                proof {
                    assert(!valid_view(model.owners@, model.capacities@, moved(views[index_of(views, moves@[m as int].0@)], moves@[m as int].1)));
                }
                return Err(e);
            },
        }
        let ghost prior = stocks@;
        let ghost placed = stock_view(changed);
        stocks.set(p, changed);
        proof {
            lemma_move_of(moves@, m as int);
            assert(stocks_view(stocks@)[p as int] == placed);
            assert forall|q: int| 0 <= q < views.len() implies #[trigger] stocks_view(stocks@)[q] == moved_upto(views, moves@, m + 1)[q] by {
                if q == p {
                    assert(moves@[m as int].0@ == views[q].0);
                    assert(exists|k: int| 0 <= k < m + 1 && (#[trigger] moves@[k]).0@ == views[q].0);
                } else {
                    assert(views[q].0 != views[p as int].0);
                    assert(stocks@[q] == prior[q]);
                    assert(stocks_view(stocks@)[q] == stocks_view(prior)[q]);
                    if exists|k: int| 0 <= k < m + 1 && (#[trigger] moves@[k]).0@ == views[q].0 {
                        let k = choose|k: int| 0 <= k < m + 1 && (#[trigger] moves@[k]).0@ == views[q].0;
                        assert(k != m);
                        assert(exists|k: int| 0 <= k < m && (#[trigger] moves@[k]).0@ == views[q].0);
                    }
                    if exists|k: int| 0 <= k < m && (#[trigger] moves@[k]).0@ == views[q].0 {
                        let k = choose|k: int| 0 <= k < m && (#[trigger] moves@[k]).0@ == views[q].0;
                        assert(exists|k: int| 0 <= k < m + 1 && (#[trigger] moves@[k]).0@ == views[q].0);
                    }
                }
            }
            assert(stocks_view(stocks@) =~= moved_upto(views, moves@, m + 1));
        }
        m += 1;
    }
    proof {
        assert forall|x: int, y: int| 0 <= x < y < stocks@.len() implies (#[trigger] stocks@[x]).id@ != (#[trigger] stocks@[y]).id@ by {
            assert(stocks_view(stocks@)[x].0 == views[x].0);
            assert(stocks_view(stocks@)[y].0 == views[y].0);
        }
    }
    Ok(())
}

fn same_placements(a: &Vec<(String, Placement)>, b: &Vec<(String, Placement)>) -> (result: bool)
    ensures
        result == same_placements_spec(a@, b@),
{
    if a.len() != b.len() {
        return false;
    }
    let mut i: usize = 0;
    while i < a.len()
        invariant
            a@.len() == b@.len(),
            i <= a@.len(),
            forall|j: int| 0 <= j < i ==> (#[trigger] a@[j]).0@ == b@[j].0@ && a@[j].1.owner@ == b@[j].1.owner@
                && named_values(a@[j].1.capacities@) == named_values(b@[j].1.capacities@),
        decreases a.len() - i,
    {
        if !same_text(a[i].0.as_str(), b[i].0.as_str()) || !same_text(a[i].1.owner.as_str(), b[i].1.owner.as_str())
            || !same_weights(&a[i].1.capacities, &b[i].1.capacities) {
            return false;
        }
        i += 1;
    }
    true
}

/// Two placement tables agree entry by entry.
pub open spec fn same_placements_spec(a: Seq<(String, Placement)>, b: Seq<(String, Placement)>) -> bool {
    &&& a.len() == b.len()
    &&& forall|i: int| 0 <= i < a.len() ==> (#[trigger] a[i]).0@ == b[i].0@ && a[i].1.owner@ == b[i].1.owner@
        && named_values(a[i].1.capacities@) == named_values(b[i].1.capacities@)
}

/// A record's bytes, or none for a removal.
pub open spec fn value_view(value: Option<Vec<u8>>) -> Option<Seq<u8>> {
    match value {
        Some(bytes) => Some(bytes@),
        None => None,
    }
}

/// The records a log of writes leaves, keyed by owner and key: each write
/// sets or removes its record, later writes over earlier ones.
pub open spec fn records_view(log: Seq<(String, String, Option<Vec<u8>>)>) -> Map<(Seq<char>, Seq<char>), Seq<u8>>
    decreases log.len(),
{
    if log.len() == 0 {
        Map::empty()
    } else {
        let entry = log.last();
        match entry.2 {
            Some(bytes) => records_view(log.drop_last()).insert((entry.0@, entry.1@), bytes@),
            None => records_view(log.drop_last()).remove((entry.0@, entry.1@)),
        }
    }
}

/// Every write of the contributions, in order, with its owner.
pub open spec fn writes_of<K>(contributions: Seq<Contribution<K>>) -> Seq<(Seq<char>, Seq<char>, Option<Seq<u8>>)>
    decreases contributions.len(),
{
    if contributions.len() == 0 {
        Seq::empty()
    } else {
        let last = contributions.last();
        writes_of(contributions.drop_last()) + last.writes@.map_values(|w: RecordWrite| (last.owner@, w.key@, value_view(w.value)))
    }
}

/// The records after applying the writes in order, or none when a removal
/// names a missing record.
pub open spec fn write_all(
    records: Map<(Seq<char>, Seq<char>), Seq<u8>>,
    writes: Seq<(Seq<char>, Seq<char>, Option<Seq<u8>>)>,
) -> Option<Map<(Seq<char>, Seq<char>), Seq<u8>>>
    decreases writes.len(),
{
    if writes.len() == 0 {
        Some(records)
    } else {
        match write_all(records, writes.drop_last()) {
            None => None,
            Some(m) => {
                let w = writes.last();
                match w.2 {
                    Some(bytes) => Some(m.insert((w.0, w.1), bytes)),
                    None => if m.dom().contains((w.0, w.1)) {
                        Some(m.remove((w.0, w.1)))
                    } else {
                        None
                    },
                }
            },
        }
    }
}

/// Whether a record `(owner, key)` is present.
fn record_position(log: &Vec<(String, String, Option<Vec<u8>>)>, owner: &str, key: &str) -> (result: Option<usize>)
    ensures
        match result {
            Some(i) => i < log@.len() && log@[i as int].2 is Some && records_view(log@).dom().contains((owner@, key@))
                && records_view(log@)[(owner@, key@)] == log@[i as int].2->Some_0@,
            None => !records_view(log@).dom().contains((owner@, key@)),
        },
{
    let mut i: usize = log.len();
    proof {
        assert(log@.take(log@.len() as int) =~= log@);
    }
    while i > 0
        invariant
            i <= log@.len(),
            records_view(log@).dom().contains((owner@, key@)) == records_view(log@.take(i as int)).dom().contains((owner@, key@)),
            records_view(log@).dom().contains((owner@, key@)) ==> records_view(log@)[(owner@, key@)] == records_view(log@.take(i as int))[(owner@, key@)],
        decreases i,
    {
        let j = i - 1;
        proof {
            assert(log@.take(i as int).drop_last() =~= log@.take(j as int));
            assert(log@.take(i as int).last() == log@[j as int]);
        }
        if same_text(log[j].0.as_str(), owner) && same_text(log[j].1.as_str(), key) {
            match &log[j].2 {
                Some(_) => {
                    return Some(j);
                },
                None => {
                    return None;
                },
            }
        }
        i = j;
    }
    None
}

/// A copy of a byte string.
fn copy_bytes(bytes: &Vec<u8>) -> (result: Vec<u8>)
    ensures
        result@ == bytes@,
{
    let mut result: Vec<u8> = Vec::new();
    let mut i: usize = 0;
    while i < bytes.len()
        invariant
            i <= bytes@.len(),
            result@ == bytes@.take(i as int),
        decreases bytes.len() - i,
    {
        result.push(bytes[i]);
        proof {
            assert(bytes@.take(i + 1) =~= bytes@.take(i as int).push(bytes@[i as int]));
        }
        i += 1;
    }
    proof {
        assert(bytes@.take(bytes@.len() as int) =~= bytes@);
    }
    result
}

/// Appends each contribution's writes to the log; a removal of a missing
/// record is refused.
fn apply_writes<K>(contributions: &Vec<Contribution<K>>, log: &mut Vec<(String, String, Option<Vec<u8>>)>) -> (result: Result<(), ExchangeError>)
    ensures
        match result {
            Ok(()) => write_all(records_view(old(log)@), writes_of(contributions@)) == Some(records_view(final(log)@)),
            Err(e) => e is MissingRecord && write_all(records_view(old(log)@), writes_of(contributions@)) is None,
        },
{
    let ghost start = records_view(log@);
    let mut c: usize = 0;
    proof {
        assert(contributions@.take(0) =~= Seq::<Contribution<K>>::empty());
    }
    while c < contributions.len()
        invariant
            start == records_view(old(log)@),
            c <= contributions@.len(),
            write_all(start, writes_of(contributions@.take(c as int))) == Some(records_view(log@)),
        decreases contributions.len() - c,
    {
        let part = &contributions[c];
        let ghost done = writes_of(contributions@.take(c as int));
        let ghost mine = part.writes@.map_values(|w: RecordWrite| (part.owner@, w.key@, value_view(w.value)));
        let mut w: usize = 0;
        proof {
            assert(done + mine.take(0) =~= done);
        }
        while w < part.writes.len()
            invariant
                start == records_view(old(log)@),
                c < contributions@.len(),
                *part == contributions@[c as int],
                done == writes_of(contributions@.take(c as int)),
                mine == part.writes@.map_values(|w: RecordWrite| (part.owner@, w.key@, value_view(w.value))),
                w <= part.writes@.len(),
                mine.len() == part.writes@.len(),
                forall|x: int| 0 <= x < part.writes@.len() ==> #[trigger] mine[x] == (part.owner@, part.writes@[x].key@, value_view(part.writes@[x].value)),
                write_all(start, done + mine.take(w as int)) == Some(records_view(log@)),
            decreases part.writes.len() - w,
        {
            let write = &part.writes[w];
            proof {
                assert((done + mine.take(w + 1)).drop_last() =~= done + mine.take(w as int));
                assert((done + mine.take(w + 1)).last() == mine[w as int]);
            }
            match &write.value {
                Some(bytes) => {
                    let ghost prior = log@;
                    log.push((part.owner.clone(), write.key.clone(), Some(copy_bytes(bytes))));
                    proof {
                        assert(log@.drop_last() =~= prior);
                    }
                },
                None => {
                    if record_position(log, part.owner.as_str(), write.key.as_str()).is_none() {
                        proof {
                            let failed = done + mine.take(w + 1);
                            assert(write_all(start, failed) is None);
                            lemma_writes_prefix(contributions@, c + 1);
                            assert(contributions@.take(c + 1).drop_last() =~= contributions@.take(c as int));
                            assert(contributions@.take(c + 1).last() == contributions@[c as int]);
                            let upto = writes_of(contributions@.take(c + 1));
                            assert(upto =~= done + mine);
                            assert(writes_of(contributions@).take(upto.len() as int) == upto);
                            assert(writes_of(contributions@).take(failed.len() as int) =~= failed);
                            lemma_write_all_fails(start, writes_of(contributions@), failed.len() as int);
                        }
                        return Err(ExchangeError::MissingRecord { owner: part.owner.clone(), key: write.key.clone() });
                    }
                    let ghost prior = log@;
                    log.push((part.owner.clone(), write.key.clone(), None));
                    proof {
                        assert(log@.drop_last() =~= prior);
                    }
                },
            }
            w += 1;
        }
        proof {
            assert(mine.take(mine.len() as int) =~= mine);
            assert(contributions@.take(c + 1).drop_last() =~= contributions@.take(c as int));
            assert(contributions@.take(c + 1).last() == contributions@[c as int]);
            assert(writes_of(contributions@.take(c + 1)) == done + mine);
        }
        c += 1;
    }
    proof {
        assert(contributions@.take(contributions@.len() as int) =~= contributions@);
    }
    Ok(())
}

/// A failed prefix of writes fails the whole.
proof fn lemma_write_all_fails(
    records: Map<(Seq<char>, Seq<char>), Seq<u8>>,
    writes: Seq<(Seq<char>, Seq<char>, Option<Seq<u8>>)>,
    n: int,
)
    requires
        0 <= n <= writes.len(),
        write_all(records, writes.take(n)) is None,
    ensures
        write_all(records, writes) is None,
    decreases writes.len(),
{
    if n == writes.len() {
        assert(writes.take(n) =~= writes);
    } else {
        assert(writes.drop_last().take(n) =~= writes.take(n));
        lemma_write_all_fails(records, writes.drop_last(), n);
    }
}

/// The writes of the first contributions begin the writes of all.
proof fn lemma_writes_prefix<K>(contributions: Seq<Contribution<K>>, k: int)
    requires
        0 <= k <= contributions.len(),
    ensures
        writes_of(contributions.take(k)).len() <= writes_of(contributions).len(),
        writes_of(contributions).take(writes_of(contributions.take(k)).len() as int) == writes_of(contributions.take(k)),
    decreases contributions.len(),
{
    if k == contributions.len() {
        assert(contributions.take(k) =~= contributions);
        assert(writes_of(contributions).take(writes_of(contributions).len() as int) =~= writes_of(contributions));
    } else {
        let rest = contributions.drop_last();
        assert(rest.take(k) =~= contributions.take(k));
        lemma_writes_prefix(rest, k);
        let whole = writes_of(contributions);
        let before = writes_of(rest);
        let part = writes_of(contributions.take(k));
        assert(whole.take(before.len() as int) =~= before);
        assert(whole.take(part.len() as int) =~= before.take(part.len() as int));
    }
}

/// Two logs with the same entries by view leave the same records.
proof fn lemma_same_log(a: Seq<(String, String, Option<Vec<u8>>)>, b: Seq<(String, String, Option<Vec<u8>>)>)
    requires
        a.len() == b.len(),
        forall|j: int| 0 <= j < a.len() ==> (#[trigger] a[j]).0@ == b[j].0@ && a[j].1@ == b[j].1@ && value_view(a[j].2) == value_view(b[j].2),
    ensures
        records_view(a) == records_view(b),
    decreases a.len(),
{
    if a.len() > 0 {
        lemma_same_log(a.drop_last(), b.drop_last());
        assert(a.last().0@ == b.last().0@);
        assert(value_view(a.last().2) == value_view(b.last().2));
    }
}

/// A copy of a record log.
fn copy_log(log: &Vec<(String, String, Option<Vec<u8>>)>) -> (result: Vec<(String, String, Option<Vec<u8>>)>)
    ensures
        records_view(result@) == records_view(log@),
{
    let mut result: Vec<(String, String, Option<Vec<u8>>)> = Vec::new();
    let mut i: usize = 0;
    while i < log.len()
        invariant
            i <= log@.len(),
            result@.len() == i,
            forall|j: int| 0 <= j < i ==> (#[trigger] result@[j]).0@ == log@[j].0@ && result@[j].1@ == log@[j].1@
                && value_view(result@[j].2) == value_view(log@[j].2),
        decreases log.len() - i,
    {
        let value = match &log[i].2 {
            Some(bytes) => Some(copy_bytes(bytes)),
            None => None,
        };
        result.push((log[i].0.clone(), log[i].1.clone(), value));
        i += 1;
    }
    proof {
        lemma_same_log(result@, log@);
    }
    result
}

/// A name pair table by views.
pub open spec fn pairs_view(table: Seq<(String, String)>) -> Seq<(Seq<char>, Seq<char>)> {
    table.map_values(|p: (String, String)| (p.0@, p.1@))
}

/// A list of texts by views.
pub open spec fn texts(list: Seq<String>) -> Seq<Seq<char>> {
    list.map_values(|t: String| t@)
}

/// Whether the model holds a law `id`.
pub open spec fn has_law<K>(laws: Seq<Law<K>>, id: Seq<char>) -> bool {
    exists|i: int| #[trigger] law_at(laws, id, i)
}

/// The law `id`.
pub open spec fn law_of<K>(laws: Seq<Law<K>>, id: Seq<char>) -> Law<K> {
    laws[choose|i: int| law_at(laws, id, i)]
}

/// Whether every required participant contributed.
pub open spec fn participants_ok<K>(law: Law<K>, contributions: Seq<Contribution<K>>) -> bool {
    forall|p: int| 0 <= p < law.participants@.len() ==> contributes(contributions, (#[trigger] law.participants@[p])@)
}

/// No two entries share a name.
pub open spec fn names_unique(table: Seq<(Seq<char>, real)>) -> bool {
    forall|i: int, j: int| 0 <= i < j < table.len() ==> (#[trigger] table[i]).0 != (#[trigger] table[j]).0
}

/// Whether the contributed facts are exactly the declared ones: each declared
/// with its owner and kind, none given twice, and as many as declared.
pub open spec fn facts_ok<K: Kind>(law: Law<K>, contributions: Seq<Contribution<K>>) -> bool {
    &&& forall|c: int, f: int| 0 <= c < contributions.len() && 0 <= f < contributions[c].facts@.len()
        ==> fact_declared(law.facts@, (#[trigger] contributions[c]).owner@, #[trigger] contributions[c].facts@[f])
    &&& names_unique(contributed(contributions))
    &&& contributed(contributions).len() == law.facts@.len()
}

/// The stocks after creation, by view.
pub open spec fn opened_view<K: Kind>(state: ExchangeState<K>, exchange: Exchange<K>) -> Seq<StockView> {
    stocks_view(state.stocks@ + exchange.creates@)
}

/// The amounts after creation: created stocks at zero.
pub open spec fn opened_amounts<K: Kind>(state: ExchangeState<K>, exchange: Exchange<K>) -> Seq<real> {
    reals(state.amounts@) + Seq::new(exchange.creates@.len(), |k: int| 0real)
}

/// Whether leg `i` applies: its stock is live with the role's kind, and its
/// new amount is at or above the kind's floor.
pub open spec fn leg_ok<K: Kind>(
    law: Law<K>,
    bindings: Seq<(Seq<char>, Seq<char>)>,
    deltas: Seq<(Seq<char>, real)>,
    views: Seq<StockView>,
    amounts: Seq<real>,
    i: int,
) -> bool {
    let id = bindings[i].1;
    &&& has_id(views, id)
    &&& views[index_of(views, id)].2 == law.slots@[i].1.identity()
    &&& (law.slots@[i].1.floor_value() matches Some(f) ==> amounts[index_of(views, id)] + deltas[i].1 >= f)
}

/// Whether every leg applies.
pub open spec fn legs_ok<K: Kind>(
    law: Law<K>,
    bindings: Seq<(Seq<char>, Seq<char>)>,
    deltas: Seq<(Seq<char>, real)>,
    views: Seq<StockView>,
    amounts: Seq<real>,
) -> bool {
    forall|i: int| 0 <= i < bindings.len() ==> #[trigger] leg_ok(law, bindings, deltas, views, amounts, i)
}

/// Whether one of the first `n` roles is bound to stock `id`.
pub open spec fn bound_before(bindings: Seq<(Seq<char>, Seq<char>)>, id: Seq<char>, n: int) -> bool {
    exists|c: int| 0 <= c < n && (#[trigger] bindings[c]).1 == id
}

/// The role bound to stock `id`.
pub open spec fn role_of(bindings: Seq<(Seq<char>, Seq<char>)>, id: Seq<char>) -> int {
    choose|c: int| 0 <= c < bindings.len() && (#[trigger] bindings[c]).1 == id
}

/// The amounts after the first `n` legs.
pub open spec fn legged_upto(
    bindings: Seq<(Seq<char>, Seq<char>)>,
    deltas: Seq<(Seq<char>, real)>,
    views: Seq<StockView>,
    amounts: Seq<real>,
    n: int,
) -> Seq<real> {
    Seq::new(amounts.len(), |q: int| if bound_before(bindings, views[q].0, n) {
        amounts[q] + deltas[role_of(bindings, views[q].0)].1
    } else {
        amounts[q]
    })
}

/// The amounts after every leg.
pub open spec fn legged(
    bindings: Seq<(Seq<char>, Seq<char>)>,
    deltas: Seq<(Seq<char>, real)>,
    views: Seq<StockView>,
    amounts: Seq<real>,
) -> Seq<real> {
    legged_upto(bindings, deltas, views, amounts, bindings.len() as int)
}

/// Whether `change` records leg `i`: the bound stock, its amount before and
/// its amount after.
pub open spec fn leg_change(
    change: (String, Rational, Rational),
    bindings: Seq<(Seq<char>, Seq<char>)>,
    deltas: Seq<(Seq<char>, real)>,
    views: Seq<StockView>,
    amounts: Seq<real>,
    i: int,
) -> bool {
    &&& change.0@ == bindings[i].1
    &&& change.1@ == amounts[index_of(views, bindings[i].1)]
    &&& change.2@ == change.1@ + deltas[i].1
}

/// The tables the constraints read: each role's amount before and after, the
/// deltas, the boundary inputs and the facts.
pub open spec fn leg_tables<K>(
    law: Law<K>,
    bindings: Seq<(Seq<char>, Seq<char>)>,
    deltas: Seq<(Seq<char>, real)>,
    boundaries: Seq<(Seq<char>, real)>,
    views: Seq<StockView>,
    amounts: Seq<real>,
    facts: Seq<(Seq<char>, real)>,
) -> Tables {
    (
        Seq::new(bindings.len(), |i: int| (law.slots@[i].0@, amounts[index_of(views, bindings[i].1)])),
        Seq::new(bindings.len(), |i: int| (law.slots@[i].0@, amounts[index_of(views, bindings[i].1)] + deltas[i].1)),
        deltas,
        boundaries,
        facts,
    )
}

/// Whether every constraint holds over the tables.
pub open spec fn constraints_ok(constraints: Seq<Constraint>, exchange: Seq<char>, tables: Tables) -> bool {
    forall|k: int| 0 <= k < constraints.len() ==> checked(Ok(()), #[trigger] constraints[k], exchange, tables)
}

/// A stock with a new owner and weights.
pub open spec fn moved(view: StockView, placement: Placement) -> StockView {
    (view.0, placement.owner@, view.2, view.3, named_values(placement.capacities@))
}

/// Whether a stock is acceptable: a nonblank identity, a registered owner,
/// and registered nonnegative weights on a kind with a nonnegative floor.
pub open spec fn valid_view(owners: Seq<String>, capacities: Seq<Capacity>, view: StockView) -> bool {
    &&& !is_blank(view.0)
    &&& listed(owners, view.1)
    &&& forall|w: int| 0 <= w < view.4.len() ==> {
        &&& registered(capacities, (#[trigger] view.4[w]).0)
        &&& view.4[w].1 >= 0real
        &&& (view.3 matches Some(f) && f >= 0real)
    }
}

/// Whether every moved stock is live and acceptable in its new placement.
pub open spec fn moves_ok(owners: Seq<String>, capacities: Seq<Capacity>, moves: Seq<(String, Placement)>, views: Seq<StockView>) -> bool {
    forall|m: int| 0 <= m < moves.len() ==> has_id(views, (#[trigger] moves[m]).0@)
        && valid_view(owners, capacities, moved(views[index_of(views, moves[m].0@)], moves[m].1))
}

/// The move of stock `id`.
pub open spec fn move_of(moves: Seq<(String, Placement)>, id: Seq<char>) -> int {
    choose|m: int| 0 <= m < moves.len() && (#[trigger] moves[m]).0@ == id
}

/// The stocks after the first `n` moves.
pub open spec fn moved_upto(views: Seq<StockView>, moves: Seq<(String, Placement)>, n: int) -> Seq<StockView> {
    Seq::new(views.len(), |q: int| if exists|m: int| 0 <= m < n && (#[trigger] moves[m]).0@ == views[q].0 {
        moved(views[q], moves[move_of(moves, views[q].0)].1)
    } else {
        views[q]
    })
}

/// The stocks after every move.
pub open spec fn moved_view(views: Seq<StockView>, moves: Seq<(String, Placement)>) -> Seq<StockView> {
    moved_upto(views, moves, moves.len() as int)
}

/// The stocks and amounts after removing each listed stock in order, or none
/// when one is not live or not empty.
pub open spec fn removed(views: Seq<StockView>, amounts: Seq<real>, removes: Seq<Seq<char>>) -> Option<(Seq<StockView>, Seq<real>)>
    decreases removes.len(),
{
    if removes.len() == 0 {
        Some((views, amounts))
    } else {
        match removed(views, amounts, removes.drop_last()) {
            None => None,
            Some(rest) => {
                let id = removes.last();
                let p = index_of(rest.0, id);
                if has_id(rest.0, id) && rest.1[p] == 0real {
                    Some((rest.0.remove(p), rest.1.remove(p)))
                } else {
                    None
                }
            },
        }
    }
}

/// Whether every capacity's load is within its maximum.
pub open spec fn caps_ok(capacities: Seq<Capacity>, views: Seq<StockView>, amounts: Seq<real>) -> bool {
    forall|c: int| 0 <= c < capacities.len() ==> load(views, amounts, (#[trigger] capacities[c]).id@, views.len() as int) <= capacities[c].maximum@
}

/// The first stage of a transition that refuses the request, or zero when
/// none does: the law, the participants, the facts, the created stocks, the
/// legs, the constraints, the moves, the removals, the capacities, the
/// record writes and the revision, in that order.
pub open spec fn stage_of<K: Kind>(model: ValidatedModel<K>, state: ExchangeState<K>, request: Request<K>) -> int {
    let exchange = request.exchange;
    let contributions = request.contributions@;
    if !has_law(model.laws@, exchange.law@) {
        1
    } else {
        let law = law_of(model.laws@, exchange.law@);
        if !participants_ok(law, contributions) {
            2
        } else if !facts_ok(law, contributions) {
            3
        } else if !creates_ok(state, exchange.creates@) {
            4
        } else {
            let views = opened_view(state, exchange);
            let amounts = opened_amounts(state, exchange);
            let bindings = pairs_view(exchange.bindings@);
            let deltas = quantities_view(exchange.deltas@);
            if !legs_ok(law, bindings, deltas, views, amounts) {
                5
            } else if !constraints_ok(
                law.constraints@,
                exchange.id@,
                leg_tables(law, bindings, deltas, quantities_view(exchange.boundaries@), views, amounts, contributed(contributions)),
            ) {
                6
            } else if !moves_ok(model.owners@, model.capacities@, exchange.moves@, views) {
                7
            } else {
                match removed(moved_view(views, exchange.moves@), legged(bindings, deltas, views, amounts), texts(exchange.removes@)) {
                    None => 8,
                    Some(rest) => if !caps_ok(model.capacities@, rest.0, rest.1) {
                        9
                    } else if write_all(records_view(state.records@), writes_of(contributions)) is None {
                        10
                    } else if state.revision == u64::MAX {
                        11
                    } else {
                        0
                    },
                }
            }
        }
    }
}

/// The refusals a stage gives: for the constraints, the first failing
/// constraint's error; for the capacities, one whose load exceeds its
/// maximum by the residual.
pub open spec fn stage_error<K: Kind>(model: ValidatedModel<K>, state: ExchangeState<K>, request: Request<K>, e: ExchangeError) -> bool {
    let exchange = request.exchange;
    let stage = stage_of(model, state, request);
    let law = law_of(model.laws@, exchange.law@);
    let views = opened_view(state, exchange);
    let amounts = opened_amounts(state, exchange);
    let bindings = pairs_view(exchange.bindings@);
    let deltas = quantities_view(exchange.deltas@);
    let tables = leg_tables(law, bindings, deltas, quantities_view(exchange.boundaries@), views, amounts, contributed(request.contributions@));
    &&& stage == 1 ==> e is UnknownLaw
    &&& stage == 2 ==> e is MissingParticipant
    &&& stage == 3 ==> e is Fact || e is MissingFacts
    &&& stage == 4 ==> e is StockInUse
    &&& stage == 5 ==> e is UnknownStock || e is Kinds || e is BelowFloor
    &&& stage == 6 ==> exists|k: int| 0 <= k < law.constraints@.len()
        && (forall|j: int| 0 <= j < k ==> checked(Ok(()), #[trigger] law.constraints@[j], exchange.id@, tables))
        && #[trigger] checked(Err(e), law.constraints@[k], exchange.id@, tables)
    &&& stage == 7 ==> e is UnknownStock || e is Malformed
    &&& stage == 8 ==> e is UnknownStock || e is NonemptyRemoval
    &&& stage == 9 ==> e is Capacity
    &&& stage == 10 ==> e is MissingRecord
    &&& stage == 11 ==> e is RevisionOverflow
}

/// The value names a role and has the difference kind of that role's kind.
pub open spec fn delta_of_role<K: Kind>(slots: Seq<(String, K)>, item: (String, Quantity<K>)) -> bool {
    exists|r: int| #[trigger] first_at(slots, item.0@, r) && item.1.kind.identity() == slots[r].1.difference_identity()
}

/// A canonical request carries, for each role in the law's order, a delta of
/// the role kind's difference kind (for a point kind, its difference kind
/// rather than the kind itself), given or filled with zero, and for each
/// boundary input a value of the boundary's own kind; every delta the
/// exchange gave has the difference kind of the role it names.
pub proof fn law_canonical_value_kinds<K: Kind>(
    model: ValidatedModel<K>,
    law: Law<K>,
    exchange: Exchange<K>,
    contributions: Vec<Contribution<K>>,
    out: Request<K>,
)
    requires
        canonical_request(model, law, exchange, contributions, out),
    ensures
        out.exchange.deltas@.len() == law.slots@.len(),
        forall|i: int| 0 <= i < law.slots@.len() ==> (#[trigger] out.exchange.deltas@[i]).1.kind.identity()
            == law.slots@[i].1.difference_identity(),
        out.exchange.boundaries@.len() == law.boundaries@.len(),
        forall|i: int| 0 <= i < law.boundaries@.len() ==> (#[trigger] out.exchange.boundaries@[i]).1.kind.identity()
            == law.boundaries@[i].1.identity(),
        forall|g: int| 0 <= g < exchange.deltas@.len() ==> #[trigger] delta_of_role(law.slots@, exchange.deltas@[g]),
{
    assert forall|i: int| 0 <= i < law.slots@.len() implies (#[trigger] out.exchange.deltas@[i]).1.kind.identity()
        == law.slots@[i].1.difference_identity() by {
        assert(out.exchange.deltas@[i].1.kind.identity() == expected_identity(law.slots@[i].1, true));
    }
    assert forall|i: int| 0 <= i < law.boundaries@.len() implies (#[trigger] out.exchange.boundaries@[i]).1.kind.identity()
        == law.boundaries@[i].1.identity() by {
        assert(out.exchange.boundaries@[i].1.kind.identity() == expected_identity(law.boundaries@[i].1, false));
    }
    assert forall|g: int| 0 <= g < exchange.deltas@.len() implies #[trigger] delta_of_role(law.slots@, exchange.deltas@[g]) by {
        assert(declared_value(law.slots@, exchange.deltas@[g], true));
        let r = choose|r: int| #[trigger] first_at(law.slots@, exchange.deltas@[g].0@, r)
            && exchange.deltas@[g].1.kind.identity() == expected_identity(law.slots@[r].1, true);
        assert(first_at(law.slots@, exchange.deltas@[g].0@, r));
    }
}

/// Two requests that bind one role to different stocks are not the same
/// request, when the second binds each role once.
pub proof fn law_rebinding_is_another_request<K: Kind>(a: Request<K>, b: Request<K>, i: int, j: int)
    requires
        0 <= i < a.exchange.bindings@.len(),
        0 <= j < b.exchange.bindings@.len(),
        a.exchange.bindings@[i].0@ == b.exchange.bindings@[j].0@,
        a.exchange.bindings@[i].1@ != b.exchange.bindings@[j].1@,
        forall|x: int, y: int| 0 <= x < y < b.exchange.bindings@.len() ==> (#[trigger] b.exchange.bindings@[x]).0@
            != (#[trigger] b.exchange.bindings@[y]).0@,
    ensures
        !same_request_spec(a, b),
{
    if same_request_spec(a, b) {
        let bs = b.exchange.bindings@;
        assert(a.exchange.bindings@[i].0@ == bs[i].0@ && a.exchange.bindings@[i].1@ == bs[i].1@);
        if i < j {
            assert(bs[i].0@ != bs[j].0@);
        } else if j < i {
            assert(bs[j].0@ != bs[i].0@);
        }
    }
}

/// Preparing a request under a committed identity whose committed request
/// binds one of its roles to another stock is refused as a duplicate, never
/// answered with the committed receipt.
pub proof fn law_rebinding_a_committed_identity_is_refused<K: Kind>(
    engine: Engine<K>,
    request: Request<K>,
    result: Result<Prepared<K>, ExchangeError>,
    i: int,
    j: int,
)
    requires
        engine.has_commit(request.exchange.id@),
        engine.prepared_from(request, result),
        0 <= i < engine.commits_spec()[engine.commit_at(request.exchange.id@)].0.exchange.bindings@.len(),
        0 <= j < request.exchange.bindings@.len(),
        engine.commits_spec()[engine.commit_at(request.exchange.id@)].0.exchange.bindings@[i].0@ == request.exchange.bindings@[j].0@,
        engine.commits_spec()[engine.commit_at(request.exchange.id@)].0.exchange.bindings@[i].1@ != request.exchange.bindings@[j].1@,
        forall|x: int, y: int| 0 <= x < y < request.exchange.bindings@.len() ==> (#[trigger] request.exchange.bindings@[x]).0@
            != (#[trigger] request.exchange.bindings@[y]).0@,
    ensures
        result matches Err(e) && e is Duplicate,
{
    let original = engine.commits_spec()[engine.commit_at(request.exchange.id@)];
    law_rebinding_is_another_request(original.0, request, i, j);
}

/// In a canonical request each role's delta is the amount the exchange gave
/// first for that role, or zero when it gave none, and likewise each boundary
/// input.
pub proof fn law_canonical_amounts<K: Kind>(
    model: ValidatedModel<K>,
    law: Law<K>,
    exchange: Exchange<K>,
    contributions: Vec<Contribution<K>>,
    out: Request<K>,
    i: int,
    g: int,
)
    requires
        canonical_request(model, law, exchange, contributions, out),
    ensures
        0 <= i < law.slots@.len() && first_at(exchange.deltas@, law.slots@[i].0@, g) ==> out.exchange.deltas@[i].1.amount@
            == exchange.deltas@[g].1.amount@,
        0 <= i < law.slots@.len() && !has_name(exchange.deltas@, law.slots@[i].0@) ==> out.exchange.deltas@[i].1.amount@ == 0real,
        0 <= i < law.boundaries@.len() && first_at(exchange.boundaries@, law.boundaries@[i].0@, g) ==> out.exchange.boundaries@[i].1.amount@
            == exchange.boundaries@[g].1.amount@,
        0 <= i < law.boundaries@.len() && !has_name(exchange.boundaries@, law.boundaries@[i].0@) ==> out.exchange.boundaries@[i].1.amount@
            == 0real,
{
    if 0 <= i < law.slots@.len() {
        assert(out.exchange.deltas@[i].1.amount@ == amount_or_zero(exchange.deltas@, law.slots@[i].0@));
        if first_at(exchange.deltas@, law.slots@[i].0@, g) {
            assert(has_name(exchange.deltas@, law.slots@[i].0@));
            let c = choose|c: int| first_at(exchange.deltas@, law.slots@[i].0@, c);
            lemma_first_at_unique(exchange.deltas@, law.slots@[i].0@, c, g);
        }
    }
    if 0 <= i < law.boundaries@.len() {
        assert(out.exchange.boundaries@[i].1.amount@ == amount_or_zero(exchange.boundaries@, law.boundaries@[i].0@));
        if first_at(exchange.boundaries@, law.boundaries@[i].0@, g) {
            assert(has_name(exchange.boundaries@, law.boundaries@[i].0@));
            let c = choose|c: int| first_at(exchange.boundaries@, law.boundaries@[i].0@, c);
            lemma_first_at_unique(exchange.boundaries@, law.boundaries@[i].0@, c, g);
        }
    }
}

/// Two value tables that give one name different amounts are not the same
/// table, when the second names each entry once.
proof fn lemma_other_amount<K: Kind>(a: Seq<(String, Quantity<K>)>, b: Seq<(String, Quantity<K>)>, i: int, j: int)
    requires
        0 <= i < a.len(),
        0 <= j < b.len(),
        a[i].0@ == b[j].0@,
        a[i].1.amount@ != b[j].1.amount@,
        forall|x: int, y: int| 0 <= x < y < b.len() ==> (#[trigger] b[x]).0@ != (#[trigger] b[y]).0@,
    ensures
        !same_quantities_spec(a, b),
{
    if same_quantities_spec(a, b) {
        assert(a[i].0@ == b[i].0@ && a[i].1.amount@ == b[i].1.amount@);
        if i < j {
            assert(b[i].0@ != b[j].0@);
        } else if j < i {
            assert(b[j].0@ != b[i].0@);
        }
    }
}

/// A request is the same as itself; requests with other identities, other
/// laws, or that give one role (or boundary input) another amount are not
/// the same, when the second names each role and input once.
pub proof fn law_request_identity<K: Kind>(a: Request<K>, b: Request<K>, i: int, j: int)
    ensures
        a.exchange.id@ != b.exchange.id@ ==> !same_request_spec(a, b),
        a.exchange.law@ != b.exchange.law@ ==> !same_request_spec(a, b),
        (0 <= i < a.exchange.deltas@.len() && 0 <= j < b.exchange.deltas@.len() && a.exchange.deltas@[i].0@ == b.exchange.deltas@[j].0@
            && a.exchange.deltas@[i].1.amount@ != b.exchange.deltas@[j].1.amount@ && (forall|x: int, y: int|
            0 <= x < y < b.exchange.deltas@.len() ==> (#[trigger] b.exchange.deltas@[x]).0@ != (#[trigger] b.exchange.deltas@[y]).0@))
            ==> !same_request_spec(a, b),
        (0 <= i < a.exchange.boundaries@.len() && 0 <= j < b.exchange.boundaries@.len() && a.exchange.boundaries@[i].0@
            == b.exchange.boundaries@[j].0@ && a.exchange.boundaries@[i].1.amount@ != b.exchange.boundaries@[j].1.amount@ && (forall|x: int, y: int|
            0 <= x < y < b.exchange.boundaries@.len() ==> (#[trigger] b.exchange.boundaries@[x]).0@ != (#[trigger] b.exchange.boundaries@[y]).0@))
            ==> !same_request_spec(a, b),
        a.contributions@.len() != b.contributions@.len() ==> !same_request_spec(a, b),
{
    if 0 <= i < a.exchange.deltas@.len() && 0 <= j < b.exchange.deltas@.len() && a.exchange.deltas@[i].0@ == b.exchange.deltas@[j].0@
        && a.exchange.deltas@[i].1.amount@ != b.exchange.deltas@[j].1.amount@ && (forall|x: int, y: int|
        0 <= x < y < b.exchange.deltas@.len() ==> (#[trigger] b.exchange.deltas@[x]).0@ != (#[trigger] b.exchange.deltas@[y]).0@) {
        lemma_other_amount(a.exchange.deltas@, b.exchange.deltas@, i, j);
    }
    if 0 <= i < a.exchange.boundaries@.len() && 0 <= j < b.exchange.boundaries@.len() && a.exchange.boundaries@[i].0@
        == b.exchange.boundaries@[j].0@ && a.exchange.boundaries@[i].1.amount@ != b.exchange.boundaries@[j].1.amount@ && (forall|x: int, y: int|
        0 <= x < y < b.exchange.boundaries@.len() ==> (#[trigger] b.exchange.boundaries@[x]).0@ != (#[trigger] b.exchange.boundaries@[y]).0@) {
        lemma_other_amount(a.exchange.boundaries@, b.exchange.boundaries@, i, j);
    }
}

} // verus!
