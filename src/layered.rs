//! Solving a basket against a graph of layers.
use vstd::prelude::*;
use crate::graph::{EdgeKind, Layer, OutputMode, PromotionGraph, promo_key, unique_at};
use crate::items::{Item, ItemGroup, sum_prices};
use crate::money::{Currency, Money, fits_i64};
use crate::promotions::{Promotion, PromotionKey};
use crate::solver::{
    Bundle, SolveError, admissible, within_budget, bundle_saving, count_for, item_error, layer_error, lemma_final_bounds, prices_ok,
    solve_layer, spent_for, valid_bundle,
};
use crate::tags::TagCollection;

verus! {

/// One promotion redeemed against one item in one layer.
#[derive(Clone, Copy, Debug, PartialEq, Eq, Structural)]
pub struct PromotionRedemption {
    pub promotion_key: PromotionKey,
    pub item_index: usize,
    /// The bundle's index among the bundles of its promotion in the layer; 0 for a direct discount.
    pub redemption_idx: usize,
    pub original_price: Money,
    pub final_price: Money,
}

/// The outcome of solving a basket against a graph.
#[derive(Clone, Debug)]
pub struct LayeredSolverResult {
    pub total: Money,
    /// For each item, by index, its redemptions in layer order; empty for an item
    /// that no layer redeemed.
    pub item_redemptions: Vec<Vec<PromotionRedemption>>,
    /// The indices of the items that no layer redeemed, ascending.
    pub full_price_items: Vec<usize>,
}

/// Whether `r` records item `i` of `items` going from its price to a price no
/// higher and no lower than zero.
pub open spec fn redemption_ok(items: Seq<Item>, currency: Currency, i: int, r: PromotionRedemption) -> bool {
    &&& r.item_index == i
    &&& r.original_price == items[i].price
    &&& r.final_price.currency == currency
    &&& 0 <= r.final_price.minor <= r.original_price.minor
}

/// What item `i` costs in the end: the final price of its last redemption, or its price.
pub open spec fn item_final(items: Seq<Item>, reds: Seq<Vec<PromotionRedemption>>, i: int) -> int {
    if reds[i]@.len() > 0 {
        reds[i]@.last().final_price.minor as int
    } else {
        items[i].price.minor as int
    }
}

/// The sum of what the first `k` items cost in the end.
pub open spec fn sum_finals(items: Seq<Item>, reds: Seq<Vec<PromotionRedemption>>, k: int) -> int
    decreases k,
{
    if k <= 0 {
        0
    } else {
        sum_finals(items, reds, k - 1) + item_final(items, reds, k - 1)
    }
}

/// Whether `res` is a well-formed result for `items` in `currency`.
pub open spec fn result_ok(items: Seq<Item>, currency: Currency, res: LayeredSolverResult) -> bool {
    let reds = res.item_redemptions@;
    &&& reds.len() == items.len()
    &&& forall|i: int| 0 <= i < reds.len() ==> (#[trigger] reds[i])@.len() <= 1
    &&& forall|i: int, j: int| 0 <= i < reds.len() && 0 <= j < reds[i]@.len() ==> redemption_ok(items, currency, i, #[trigger] reds[i]@[j])
    &&& res.full_price_items@.no_duplicates()
    &&& forall|k: int| 0 <= k < res.full_price_items@.len() ==> (#[trigger] res.full_price_items@[k]) < items.len()
    &&& forall|i: int| 0 <= i < items.len() ==> (res.full_price_items@.contains(i as usize) <==> (#[trigger] reds[i])@.len() == 0)
    &&& fits_i64(sum_finals(items, reds, items.len() as int))
    &&& res.total == (Money { minor: sum_finals(items, reds, items.len() as int) as i64, currency })
}

/// A copy of a tag collection.
fn copy_tags(t: &TagCollection) -> (r: TagCollection)
    ensures
        r@ == t@,
        r.tags@.len() == t.tags@.len(),
        forall|k: int| 0 <= k < t.tags@.len() ==> (#[trigger] r.tags@[k])@ == t.tags@[k]@,
{
    let mut tags: Vec<String> = Vec::new();
    let mut k: usize = 0;
    while k < t.tags.len()
        invariant
            k <= t.tags@.len(),
            tags@.len() == k,
            forall|j: int| 0 <= j < k ==> (#[trigger] tags@[j])@ == t.tags@[j]@,
        decreases t.tags@.len() - k,
    {
        tags.push(t.tags[k].clone());
        k += 1;
    }
    let r = TagCollection { tags };
    assert(r@ =~= t@) by {
        assert forall|x: Seq<char>| r@.contains(x) <==> t@.contains(x) by {
            if r@.contains(x) {
                let j = choose|j: int| 0 <= j < r.tags@.len() && (#[trigger] r.tags@[j])@ == x;
                assert(t.tags@[j]@ == x);
            }
            if t@.contains(x) {
                let j = choose|j: int| 0 <= j < t.tags@.len() && (#[trigger] t.tags@[j])@ == x;
                assert(r.tags@[j]@ == x);
            }
        }
    }
    r
}

/// A copy of an item.
pub fn copy_item(item: &Item) -> (r: Item)
    ensures
        r.product == item.product,
        r.price == item.price,
        r.tags@ == item.tags@,
{
    Item { product: item.product, price: item.price, tags: copy_tags(&item.tags) }
}

/// The layer that an item leaving layer `l` goes to, if any.
fn next_layer(graph: &PromotionGraph, l: usize, item: &Item) -> (r: Option<usize>)
    requires
        graph.wf(),
        l < graph.layers@.len(),
    ensures
        r is Some ==> r->Some_0 < graph.layers@.len(),
{
    let split = graph.layers[l].output_mode == OutputMode::Split;
    let mut default: Option<usize> = None;
    let mut k: usize = 0;
    while k < graph.edges.len()
        invariant
            graph.wf(),
            k <= graph.edges@.len(),
            default is Some ==> default->Some_0 < graph.layers@.len(),
        decreases graph.edges@.len() - k,
    {
        let e = &graph.edges[k];
        assert(crate::graph::edge_ok(graph.layers@, graph.edges@[k as int]));
        if e.from == l {
            match &e.kind {
                EdgeKind::PassThrough => {
                    if !split {
                        return Some(e.to);
                    }
                },
                EdgeKind::Split(predicate) => {
                    if split && predicate.matches(&item.tags) {
                        return Some(e.to);
                    }
                },
                EdgeKind::SplitDefault => {
                    if split && default.is_none() {
                        default = Some(e.to);
                    }
                },
            }
        }
        k += 1;
    }
    default
}

proof fn lemma_sum_finals_frame(items: Seq<Item>, a: Seq<Vec<PromotionRedemption>>, b: Seq<Vec<PromotionRedemption>>, k: int)
    requires
        0 <= k <= a.len(),
        k <= b.len(),
        forall|x: int| 0 <= x < k ==> #[trigger] a[x] == b[x],
    ensures
        sum_finals(items, a, k) == sum_finals(items, b, k),
    decreases k,
{
    if k > 0 {
        lemma_sum_finals_frame(items, a, b, k - 1);
        assert(a[k - 1] == b[k - 1]);
    }
}

/// Per item, the redemption it received, if any, and whether its price is in range.
pub open spec fn redemptions_ok(items: Seq<Item>, currency: Currency, red: Seq<Option<PromotionRedemption>>) -> bool {
    &&& red.len() == items.len()
    &&& forall|i: int| 0 <= i < red.len() && (#[trigger] red[i]) is Some ==> redemption_ok(items, currency, i, red[i]->Some_0)
}

/// Turns the redemption of each item into the result.
fn assemble(items: &Vec<Item>, currency: Currency, red: &Vec<Option<PromotionRedemption>>) -> (r: LayeredSolverResult)
    requires
        redemptions_ok(items@, currency, red@),
        prices_ok(items@, currency),
        fits_i64(sum_prices(items@)),
    ensures
        result_ok(items@, currency, r),
        redemptions_of(r) == red@,
{
    let n = items.len();
    let mut reds: Vec<Vec<PromotionRedemption>> = Vec::new();
    let mut full: Vec<usize> = Vec::new();
    let mut acc: i128 = 0;
    let mut i: usize = 0;
    while i < n
        invariant
            n == items@.len(),
            i <= n,
            redemptions_ok(items@, currency, red@),
            prices_ok(items@, currency),
            reds@.len() == i,
            forall|x: int| 0 <= x < i ==> (#[trigger] reds@[x])@.len() <= 1,
            forall|x: int, j: int| 0 <= x < i && 0 <= j < reds@[x]@.len() ==> redemption_ok(items@, currency, x, #[trigger] reds@[x]@[j]),
            forall|a: int, b: int| 0 <= a < b < full@.len() ==> full@[a] < full@[b],
            forall|k: int| 0 <= k < full@.len() ==> (#[trigger] full@[k]) < i,
            forall|x: int| 0 <= x < i ==> (full@.contains(x as usize) <==> (#[trigger] reds@[x])@.len() == 0),
            acc == sum_finals(items@, reds@, i as int),
            0 <= acc <= sum_prices(items@.subrange(0, i as int)),
            acc <= i * 0x8000_0000_0000_0000,
            red@.len() == n,
            forall|x: int| 0 <= x < i ==> (#[trigger] reds@[x])@ == if red@[x] is Some {
                seq![red@[x]->Some_0]
            } else {
                Seq::<PromotionRedemption>::empty()
            },
        decreases n - i,
    {
        proof {
            assert((i + 1) * 0x8000_0000_0000_0000 <= 0xffff_ffff_ffff_ffff * 0x8000_0000_0000_0000) by (nonlinear_arith)
                requires i + 1 <= 0xffff_ffff_ffff_ffff;
        }
        let ghost before = reds@;
        let ghost full0 = full@;
        assert(items@.subrange(0, i + 1).drop_last() =~= items@.subrange(0, i as int));
        match red[i] {
            Some(r) => {
                let mut v: Vec<PromotionRedemption> = Vec::new();
                v.push(r);
                reds.push(v);
                acc = acc + r.final_price.minor as i128;
            },
            None => {
                reds.push(Vec::new());
                full.push(i);
                acc = acc + items[i].price.minor as i128;
                proof {
                    assert forall|x: usize| x < i implies (#[trigger] full@.contains(x) <==> full0.contains(x)) by {
                        if full@.contains(x) {
                            let k = choose|k: int| 0 <= k < full@.len() && full@[k] == x;
                            if k < full0.len() {
                                assert(full0[k] == x);
                            }
                        }
                        if full0.contains(x) {
                            let k = choose|k: int| 0 <= k < full0.len() && full0[k] == x;
                            assert(full@[k] == x);
                        }
                    }
                    assert(full@[full0.len() as int] == i);
                }
            },
        }
        proof {
            lemma_sum_finals_frame(items@, before, reds@, i as int);
            assert forall|x: int| 0 <= x < i implies (#[trigger] reds@[x]) == before[x] by {}
            if red@[i as int] is Some {
                assert(!full@.contains(i));
            }
            assert(reds@[i as int]@ =~= if red@[i as int] is Some {
                seq![red@[i as int]->Some_0]
            } else {
                Seq::<PromotionRedemption>::empty()
            });
        }
        i += 1;
    }
    assert(items@.subrange(0, n as int) =~= items@);
    proof {
        assert(full@.no_duplicates()) by {
            assert forall|a: int, b: int| 0 <= a < full@.len() && 0 <= b < full@.len() && a != b implies full@[a] != full@[b] by {
                if a < b {
                    assert(full@[a] < full@[b]);
                } else {
                    assert(full@[b] < full@[a]);
                }
            }
        }
    }
    let res = LayeredSolverResult { total: Money { minor: acc as i64, currency }, item_redemptions: reds, full_price_items: full };
    assert(redemptions_of(res) =~= red@) by {
        assert forall|x: int| 0 <= x < n implies redemptions_of(res)[x] == red@[x] by {
            assert(res.item_redemptions@[x]@ == if red@[x] is Some {
                seq![red@[x]->Some_0]
            } else {
                Seq::<PromotionRedemption>::empty()
            });
        }
    }
    res
}

/// What one redemption saves.
pub open spec fn redemption_saving(r: PromotionRedemption) -> int {
    r.original_price.minor - r.final_price.minor
}

/// Whether item `i`'s redemption, if any, is under `key`.
pub open spec fn under_key(red: Seq<Option<PromotionRedemption>>, key: PromotionKey, i: int) -> bool {
    red[i] is Some && red[i]->Some_0.promotion_key == key
}

/// How many of the first `n` items are redeemed under `key`.
pub open spec fn key_count(red: Seq<Option<PromotionRedemption>>, key: PromotionKey, n: int) -> int
    decreases n,
{
    if n <= 0 {
        0
    } else {
        key_count(red, key, n - 1) + if under_key(red, key, n - 1) { 1int } else { 0int }
    }
}

/// What the redemptions under `key` of the first `n` items save together.
pub open spec fn key_savings(red: Seq<Option<PromotionRedemption>>, key: PromotionKey, n: int) -> int
    decreases n,
{
    if n <= 0 {
        0
    } else {
        key_savings(red, key, n - 1) + if under_key(red, key, n - 1) { redemption_saving(red[n - 1]->Some_0) } else { 0int }
    }
}

proof fn lemma_key_update(red: Seq<Option<PromotionRedemption>>, key: PromotionKey, j: int, r: PromotionRedemption, n: int)
    requires
        0 <= j < red.len(),
        0 <= n <= red.len(),
        red[j] is None,
    ensures
        key_count(red.update(j, Some(r)), key, n) == key_count(red, key, n) + if j < n && r.promotion_key == key { 1int } else { 0int },
        key_savings(red.update(j, Some(r)), key, n) == key_savings(red, key, n) + if j < n && r.promotion_key == key {
            redemption_saving(r)
        } else {
            0int
        },
    decreases n,
{
    if n > 0 {
        lemma_key_update(red, key, j, r, n - 1);
    }
}

proof fn lemma_key_none(red: Seq<Option<PromotionRedemption>>, key: PromotionKey, n: int)
    requires
        0 <= n <= red.len(),
        forall|i: int| 0 <= i < n ==> !#[trigger] under_key(red, key, i),
    ensures
        key_count(red, key, n) == 0,
        key_savings(red, key, n) == 0,
    decreases n,
{
    if n > 0 {
        lemma_key_none(red, key, n - 1);
    }
}

/// Whether the redemptions of `red` keep promotion `p`'s budget: bundle indices
/// under its redemption limit, at most that many items for a direct discount,
/// and savings within its monetary limit.
pub open spec fn budget_kept(p: Promotion, red: Seq<Option<PromotionRedemption>>, n: int) -> bool {
    let b = p.budget_of();
    let key = p.key_of();
    &&& b.redemption_limit is Some ==> forall|i: int| 0 <= i < n && #[trigger] under_key(red, key, i)
        ==> red[i]->Some_0.redemption_idx < b.redemption_limit->Some_0
    &&& b.redemption_limit is Some && p is DirectDiscount ==> key_count(red, key, n) <= b.redemption_limit->Some_0
    &&& b.monetary_limit is Some ==> key_savings(red, key, n) <= b.monetary_limit->Some_0.minor
}

/// The redemption of each item of a result, if any.
pub open spec fn redemptions_of(res: LayeredSolverResult) -> Seq<Option<PromotionRedemption>> {
    Seq::new(
        res.item_redemptions@.len(),
        |i: int| if res.item_redemptions@[i]@.len() > 0 { Some(res.item_redemptions@[i]@[0]) } else { None },
    )
}

/// Whether a result keeps the budget of every promotion of `graph`.
pub open spec fn budgets_kept(graph: &PromotionGraph, res: LayeredSolverResult) -> bool {
    forall|l: int, q: int| 0 <= l < graph.spec_layers().len() && 0 <= q < graph.spec_layers()[l].promotions@.len()
        ==> #[trigger] budget_kept(graph.spec_layers()[l].promotions@[q], redemptions_of(res), res.item_redemptions@.len() as int)
}

/// Whether `key` is the key of a promotion of one of the first `k` layers of `order`.
spec fn key_visited(layers: Seq<Layer>, order: Seq<usize>, key: PromotionKey, k: int) -> bool {
    exists|k2: int, q: int| 0 <= k2 < k && 0 <= q < layers[order[k2] as int].promotions@.len()
        && #[trigger] promo_key(layers, order[k2] as int, q) == key
}

/// Whether every redemption is under a key of the first `k` layers of `order`.
spec fn keys_visited(layers: Seq<Layer>, order: Seq<usize>, red: Seq<Option<PromotionRedemption>>, n: int, k: int) -> bool {
    forall|x: int| 0 <= x < n && (#[trigger] red[x]) is Some ==> key_visited(layers, order, red[x]->Some_0.promotion_key, k)
}

/// Whether the promotions of the first `k` layers of `order` keep their budgets.
spec fn kept_before(layers: Seq<Layer>, order: Seq<usize>, red: Seq<Option<PromotionRedemption>>, n: int, k: int) -> bool {
    forall|k2: int, q: int| 0 <= k2 < k && 0 <= q < layers[order[k2] as int].promotions@.len()
        ==> #[trigger] budget_kept(layers[order[k2] as int].promotions@[q], red, n)
}

/// The accounts of promotion `q` of a layer once the bundles `done` are recorded.
spec fn acc_at(red: Seq<Option<PromotionRedemption>>, n: int, promos: Seq<Promotion>, items: Seq<Item>, done: Seq<Bundle>, q: int) -> bool {
    let key = promos[q].key_of();
    &&& key_savings(red, key, n) == spent_for(items, done, q)
    &&& promos[q] is DirectDiscount ==> key_count(red, key, n) == count_for(done, q)
    &&& forall|i: int| 0 <= i < n && #[trigger] under_key(red, key, i) ==> red[i]->Some_0.redemption_idx < count_for(done, q)
}

/// Whether every redemption is under a key of an earlier layer or of `promos`.
spec fn keys_known(layers: Seq<Layer>, order: Seq<usize>, k: int, promos: Seq<Promotion>, red: Seq<Option<PromotionRedemption>>, n: int) -> bool {
    forall|x: int| 0 <= x < n && (#[trigger] red[x]) is Some ==> key_visited(layers, order, red[x]->Some_0.promotion_key, k)
        || exists|q: int| 0 <= q < promos.len() && red[x]->Some_0.promotion_key == #[trigger] promos[q].key_of()
}

/// Keys of the layer at position `k` of the order differ from those of earlier
/// layers and from each other.
proof fn lemma_keys_apart(graph: &PromotionGraph, k: int)
    requires
        graph.wf(),
        0 <= k < graph.order@.len(),
    ensures
        forall|q: int| 0 <= q < graph.layers@[graph.order@[k] as int].promotions@.len() ==>
            !key_visited(graph.layers@, graph.order@, #[trigger] graph.layers@[graph.order@[k] as int].promotions@[q].key_of(), k),
        forall|q1: int, q2: int| 0 <= q1 < graph.layers@[graph.order@[k] as int].promotions@.len()
            && 0 <= q2 < graph.layers@[graph.order@[k] as int].promotions@.len()
            && (#[trigger] graph.layers@[graph.order@[k] as int].promotions@[q1]).key_of()
                == (#[trigger] graph.layers@[graph.order@[k] as int].promotions@[q2]).key_of() ==> q1 == q2,
{
    let layers = graph.layers@;
    let order = graph.order@;
    let l = order[k] as int;
    assert(graph.rank@[order[k] as int] == k);
    assert forall|q: int| 0 <= q < layers[l].promotions@.len() implies
        !key_visited(layers, order, #[trigger] layers[l].promotions@[q].key_of(), k) by {
        if key_visited(layers, order, layers[l].promotions@[q].key_of(), k) {
            let (k2, q2) = choose|k2: int, q2: int| 0 <= k2 < k && 0 <= q2 < layers[order[k2] as int].promotions@.len()
                && #[trigger] promo_key(layers, order[k2] as int, q2) == layers[l].promotions@[q].key_of();
            assert(order[k2] < layers.len());
            assert(unique_at(layers, order[k2] as int, q2));
            assert(promo_key(layers, l, q) == promo_key(layers, order[k2] as int, q2));
            assert(graph.rank@[order[k2] as int] == k2);
        }
    }
    assert forall|q1: int, q2: int| 0 <= q1 < layers[l].promotions@.len() && 0 <= q2 < layers[l].promotions@.len()
        && (#[trigger] layers[l].promotions@[q1]).key_of() == (#[trigger] layers[l].promotions@[q2]).key_of() implies q1 == q2 by {
        assert(unique_at(layers, l, q1));
        assert(promo_key(layers, l, q2) == promo_key(layers, l, q1));
    }
}

/// Whether every layer of `graph` is configured well for the items of a basket.
pub open spec fn layers_ok(graph: &PromotionGraph, items: Seq<Item>, currency: Currency) -> bool {
    forall|l: int| 0 <= l < graph.spec_layers().len() ==> layer_error((#[trigger] graph.spec_layers()[l]).promotions@, items, currency) is None
}

/// Solves `group` against `graph`: every layer, in order from the root, solves
/// the items that reached it and are not yet redeemed; redeemed items stay at
/// the price their layer gave them; each item then follows its layer's edges.
/// Every promotion of the graph keeps its budget over the whole result.
pub fn solve(graph: &PromotionGraph, group: &ItemGroup) -> (r: Result<LayeredSolverResult, SolveError>)
    requires
        graph.wf(),
    ensures
        item_error(group.items@, group.currency) is Some
            ==> r == Err::<LayeredSolverResult, SolveError>(item_error(group.items@, group.currency)->Some_0),
        item_error(group.items@, group.currency) is None && !fits_i64(sum_prices(group.items@))
            ==> r == Err::<LayeredSolverResult, SolveError>(SolveError::Overflow),
        item_error(group.items@, group.currency) is None && fits_i64(sum_prices(group.items@))
            && layers_ok(graph, group.items@, group.currency) ==> r is Ok,
        r is Ok ==> result_ok(group.items@, group.currency, r->Ok_0),
        r is Ok ==> prices_ok(group.items@, group.currency) && fits_i64(sum_prices(group.items@)),
        r is Ok ==> budgets_kept(graph, r->Ok_0),
{
    let items = &group.items;
    let currency = group.currency;
    let n = items.len();
    let ghost lok = layers_ok(graph, items@, currency);
    match crate::solver::check_items(items, currency) {
        Some(e) => {
            return Err(e);
        },
        None => {},
    }
    proof {
        crate::solver::lemma_item_error(items@, currency);
        assert(crate::items::all_in_currency(items@, currency)) by {
            assert forall|i: int| 0 <= i < items@.len() implies (#[trigger] items@[i]).price.currency == currency by {}
        }
    }
    if crate::items::total_price(items.as_slice(), currency).is_err() {
        return Err(SolveError::Overflow);
    }
    let mut position: Vec<Option<usize>> = Vec::new();
    let mut red: Vec<Option<PromotionRedemption>> = Vec::new();
    let mut i: usize = 0;
    while i < n
        invariant
            n == items@.len(),
            i <= n,
            graph.wf(),
            position@.len() == i,
            red@.len() == i,
            forall|x: int| 0 <= x < i ==> (#[trigger] position@[x]) == Some(graph.root),
            forall|x: int| 0 <= x < i ==> (#[trigger] red@[x]) is None,
        decreases n - i,
    {
        position.push(Some(graph.root));
        red.push(None);
        i += 1;
    }
    let mut k: usize = 0;
    while k < graph.order.len()
        invariant
            n == items@.len(),
            item_error(group.items@, group.currency) is None,
            fits_i64(sum_prices(group.items@)),
            items == &group.items,
            currency == group.currency,
            lok == layers_ok(graph, items@, currency),
            graph.wf(),
            prices_ok(items@, currency),
            position@.len() == n,
            forall|x: int| 0 <= x < n && (#[trigger] position@[x]) is Some ==> position@[x]->Some_0 < graph.layers@.len(),
            redemptions_ok(items@, currency, red@),
            k <= graph.order@.len(),
            keys_visited(graph.layers@, graph.order@, red@, n as int, k as int),
            kept_before(graph.layers@, graph.order@, red@, n as int, k as int),
        decreases graph.order@.len() - k,
    {
        let l = graph.order[k];
        let layer = &graph.layers[l];
        let mut free: Vec<usize> = Vec::new();
        let mut layer_items: Vec<Item> = Vec::new();
        let mut x: usize = 0;
        while x < n
            invariant
                n == items@.len(),
                x <= n,
                prices_ok(items@, currency),
                red@.len() == n,
                position@.len() == n,
                free@.len() == layer_items@.len(),
                forall|m: int| 0 <= m < free@.len() ==> (#[trigger] free@[m]) < x && red@[free@[m] as int] is None
                    && layer_items@[m].price == items@[free@[m] as int].price
                    && layer_items@[m].tags@ == items@[free@[m] as int].tags@,
                forall|a: int, b: int| 0 <= a < b < free@.len() ==> free@[a] < free@[b],
                prices_ok(layer_items@, currency),
            decreases n - x,
        {
            let here = match position[x] {
                Some(p) => p == l,
                None => false,
            };
            if here && red[x].is_none() {
                free.push(x);
                layer_items.push(copy_item(&items[x]));
            }
            x += 1;
        }
        proof {
            assert(crate::solver::drawn_from(layer_items@, items@)) by {
                assert forall|m: int| 0 <= m < layer_items@.len() implies exists|i: int|
                    0 <= i < items@.len() && (#[trigger] layer_items@[m]).price == items@[i].price
                        && layer_items@[m].tags@ == items@[i].tags@ by {
                    assert(free@[m] < n);
                }
            }
            crate::solver::lemma_item_error(layer_items@, currency);
            if lok {
                assert(layer_error(graph.layers@[l as int].promotions@, items@, currency) is None);
                crate::solver::lemma_layer_error_sub(layer.promotions@, layer_items@, items@, currency);
            }
        }
        let bundles = match solve_layer(&layer.promotions, &layer_items, currency) {
            Ok(b) => b,
            Err(e) => {
                return Err(e);
            },
        };
        let ghost promos = layer.promotions@;
        proof {
            lemma_keys_apart(graph, k as int);
            assert forall|q: int| 0 <= q < promos.len() implies #[trigger] acc_at(red@, n as int, promos, layer_items@, bundles@.take(0), q) by {
                let key = promos[q].key_of();
                assert(promos[q] == graph.layers@[graph.order@[k as int] as int].promotions@[q]);
                assert forall|i: int| 0 <= i < n implies !#[trigger] under_key(red@, key, i) by {
                    if under_key(red@, key, i) {
                        assert(red@[i] is Some);
                    }
                }
                lemma_key_none(red@, key, n as int);
            }
            assert(keys_known(graph.layers@, graph.order@, k as int, promos, red@, n as int));
        }
        let np = layer.promotions.len();
        let mut counters: Vec<usize> = Vec::new();
        let mut q: usize = 0;
        while q < np
            invariant
                q <= np,
                counters@.len() == q,
                forall|c: int| 0 <= c < q ==> #[trigger] counters@[c] == 0,
            decreases np - q,
        {
            counters.push(0);
            q += 1;
        }
        let nf: usize = free.len();
        let mut bi: usize = 0;
        assert(bundles@.take(0) =~= Seq::<crate::solver::Bundle>::empty());
        while bi < bundles.len()
            invariant
                n == items@.len(),
                item_error(group.items@, group.currency) is None,
                fits_i64(sum_prices(group.items@)),
                items == &group.items,
                currency == group.currency,
                prices_ok(items@, currency),
                prices_ok(layer_items@, currency),
                layer_error(layer.promotions@, layer_items@, currency) is None,
                admissible(layer.promotions@, layer_items@, bundles@),
                bi <= bundles@.len(),
                counters@.len() == layer.promotions@.len(),
                forall|c: int| 0 <= c < counters@.len() ==> #[trigger] counters@[c] <= bi,
                forall|c: int| 0 <= c < counters@.len() ==> #[trigger] counters@[c] == count_for(bundles@.take(bi as int), c),
                graph.wf(),
                k < graph.order@.len(),
                l == graph.order@[k as int],
                promos == graph.layers@[l as int].promotions@,
                promos == layer.promotions@,
                forall|q: int| 0 <= q < promos.len() ==> #[trigger] acc_at(red@, n as int, promos, layer_items@, bundles@.take(bi as int), q),
                kept_before(graph.layers@, graph.order@, red@, n as int, k as int),
                keys_known(graph.layers@, graph.order@, k as int, promos, red@, n as int),
                nf == free@.len(),
                free@.len() == layer_items@.len(),
                forall|m: int| 0 <= m < free@.len() ==> (#[trigger] free@[m]) < n && layer_items@[m].price == items@[free@[m] as int].price,
                forall|a: int, b: int| 0 <= a < b < free@.len() ==> free@[a] < free@[b],
                forall|m: int| 0 <= m < free@.len() ==> (red@[(#[trigger] free@[m]) as int] is Some <==> crate::solver::taken(bundles@.take(bi as int), m)),
                redemptions_ok(items@, currency, red@),
            decreases bundles@.len() - bi,
        {
            let b = &bundles[bi];
            assert(valid_bundle(layer.promotions@, layer_items@, bundles@[bi as int]));
            let p = b.promotion;
            let key = layer.promotions[p].key();
            let idx: usize = match &layer.promotions[p] {
                Promotion::DirectDiscount(_) => 0,
                _ => counters[p],
            };
            if counters[p] == usize::MAX {
                return Err(SolveError::Internal);
            }
            let next = counters[p] + 1;
            counters.set(p, next);
            let ghost done = bundles@.take(bi as int);
            proof {
                assert(acc_at(red@, n as int, promos, layer_items@, done, p as int));
                assert(b.members@.take(0) =~= Seq::<usize>::empty());
                assert(b.finals@.take(0) =~= Seq::<i64>::empty());
            }
            let mut j: usize = 0;
            while j < b.members.len()
                invariant
                    n == items@.len(),
                    prices_ok(items@, currency),
                    prices_ok(layer_items@, currency),
                    layer_error(layer.promotions@, layer_items@, currency) is None,
                    admissible(layer.promotions@, layer_items@, bundles@),
                    bi < bundles@.len(),
                    j <= b.members@.len(),
                    b == bundles@[bi as int],
                    valid_bundle(layer.promotions@, layer_items@, *b),
                    nf == free@.len(),
                    free@.len() == layer_items@.len(),
                    forall|m: int| 0 <= m < free@.len() ==> (#[trigger] free@[m]) < n && layer_items@[m].price == items@[free@[m] as int].price,
                    forall|a: int, b: int| 0 <= a < b < free@.len() ==> free@[a] < free@[b],
                    forall|m: int| 0 <= m < free@.len() ==> (red@[(#[trigger] free@[m]) as int] is Some <==> (
                        crate::solver::taken(bundles@.take(bi as int), m) || b.members@.take(j as int).contains(m as usize))),
                    redemptions_ok(items@, currency, red@),
                    graph.wf(),
                    k < graph.order@.len(),
                    l == graph.order@[k as int],
                    promos == graph.layers@[l as int].promotions@,
                    promos == layer.promotions@,
                    done == bundles@.take(bi as int),
                    p == b.promotion,
                    p < promos.len(),
                    key == promos[p as int].key_of(),
                    idx as int == if promos[p as int] is DirectDiscount { 0int } else { count_for(done, p as int) as int },
                    key_savings(red@, key, n as int) == spent_for(layer_items@, done, p as int)
                        + bundle_saving(layer_items@, b.members@.take(j as int), b.finals@.take(j as int)),
                    promos[p as int] is DirectDiscount ==> key_count(red@, key, n as int) == count_for(done, p as int) + j,
                    forall|i: int| 0 <= i < n && #[trigger] under_key(red@, key, i) ==> red@[i]->Some_0.redemption_idx < count_for(done, p as int) + 1,
                    forall|q: int| 0 <= q < promos.len() && q != p ==> #[trigger] acc_at(red@, n as int, promos, layer_items@, done, q),
                    kept_before(graph.layers@, graph.order@, red@, n as int, k as int),
                    keys_known(graph.layers@, graph.order@, k as int, promos, red@, n as int),
                decreases b.members@.len() - j,
            {
                let m = b.members[j];
                let it = free[m];
                proof {
                    assert(m < layer_items@.len());
                    if crate::solver::taken(bundles@.take(bi as int), m as int) {
                        let (kk, jj) = choose|kk: int, jj: int| 0 <= kk < bundles@.take(bi as int).len()
                            && 0 <= jj < bundles@.take(bi as int)[kk].members@.len()
                            && (#[trigger] bundles@.take(bi as int)[kk].members@[jj]) == m as int;
                        assert(bundles@.take(bi as int)[kk] == bundles@[kk]);
                        assert(crate::solver::disjoint(bundles@[kk], bundles@[bi as int]));
                    }
                    if b.members@.take(j as int).contains(m) {
                        let w = choose|w: int| 0 <= w < j && #[trigger] b.members@.take(j as int)[w] == m;
                        assert(b.members@[w] == b.members@[j as int]);
                    }
                }
                if red[it].is_some() {
                    return Err(SolveError::Internal);
                }
                proof {
                    lemma_final_bounds(layer.promotions@, layer_items@, currency, *b, j as int);
                }
                let r = PromotionRedemption {
                    promotion_key: key,
                    item_index: it,
                    redemption_idx: idx,
                    original_price: items[it].price,
                    final_price: Money { minor: b.finals[j], currency },
                };
                let ghost red0 = red@;
                red.set(it, Some(r));
                proof {
                    lemma_keys_apart(graph, k as int);
                    let layers = graph.layers@;
                    let order = graph.order@;
                    lemma_key_update(red0, key, it as int, r, n as int);
                    assert(b.members@.take(j + 1).drop_last() =~= b.members@.take(j as int));
                    assert(b.finals@.take(j + 1).drop_last() =~= b.finals@.take(j as int));
                    assert(b.members@.take(j + 1).last() == m);
                    assert(b.finals@.take(j + 1).last() == b.finals@[j as int]);
                    assert(layer_items@[m as int].price == items@[it as int].price);
                    assert(redemption_saving(r) == layer_items@[m as int].price.minor - b.finals@[j as int]);
                    assert(bundle_saving(layer_items@, b.members@.take(j + 1), b.finals@.take(j + 1))
                        == bundle_saving(layer_items@, b.members@.take(j as int), b.finals@.take(j as int))
                            + layer_items@[m as int].price.minor - b.finals@[j as int]);
                    assert(r.redemption_idx == idx);
                    assert forall|i: int| 0 <= i < n && #[trigger] under_key(red@, key, i) implies red@[i]->Some_0.redemption_idx
                        < count_for(done, p as int) + 1 by {
                        if i != it {
                            assert(red@[i] == red0[i]);
                            assert(under_key(red0, key, i));
                        }
                    }
                    assert forall|q: int| 0 <= q < promos.len() && q != p implies #[trigger] acc_at(red@, n as int, promos, layer_items@, done, q) by {
                        let kq = promos[q].key_of();
                        assert(kq != key);
                        lemma_key_update(red0, kq, it as int, r, n as int);
                        assert(acc_at(red0, n as int, promos, layer_items@, done, q));
                        assert forall|i: int| 0 <= i < n && #[trigger] under_key(red@, kq, i) implies red@[i]->Some_0.redemption_idx
                            < count_for(done, q) by {
                            if i != it {
                                assert(red@[i] == red0[i]);
                                assert(under_key(red0, kq, i));
                            }
                        }
                    }
                    assert forall|k2: int, q2: int| 0 <= k2 < k && 0 <= q2 < layers[order[k2] as int].promotions@.len()
                        implies #[trigger] budget_kept(layers[order[k2] as int].promotions@[q2], red@, n as int) by {
                        let pp = layers[order[k2] as int].promotions@[q2];
                        assert(promo_key(layers, order[k2] as int, q2) == pp.key_of());
                        assert(key_visited(layers, order, pp.key_of(), k as int));
                        assert(!key_visited(layers, order, promos[p as int].key_of(), k as int));
                        lemma_key_update(red0, pp.key_of(), it as int, r, n as int);
                        assert(budget_kept(pp, red0, n as int));
                        assert forall|i: int| 0 <= i < n && #[trigger] under_key(red@, pp.key_of(), i) implies under_key(red0, pp.key_of(), i)
                            && red@[i] == red0[i] by {
                            if i == it {
                                assert(red@[i]->Some_0.promotion_key == key);
                            }
                        }
                    }
                    assert forall|x: int| 0 <= x < n && (#[trigger] red@[x]) is Some implies key_visited(layers, order, red@[x]->Some_0.promotion_key, k as int)
                        || exists|q: int| 0 <= q < promos.len() && red@[x]->Some_0.promotion_key == #[trigger] promos[q].key_of() by {
                        if x == it {
                            assert(red@[x]->Some_0.promotion_key == promos[p as int].key_of());
                        } else {
                            assert(red@[x] == red0[x]);
                        }
                    }
                }
                proof {
                    assert forall|m2: int| 0 <= m2 < free@.len() implies (red@[(#[trigger] free@[m2]) as int] is Some <==> (
                        crate::solver::taken(bundles@.take(bi as int), m2) || b.members@.take(j + 1).contains(m2 as usize))) by {
                        assert(b.members@.take(j + 1) =~= b.members@.take(j as int).push(m));
                        if m2 != m {
                            if m2 < m {
                                assert(free@[m2] < free@[m as int]);
                            } else {
                                assert(free@[m as int] < free@[m2]);
                            }
                            assert(red@[free@[m2] as int] == red0[free@[m2] as int]);
                            if b.members@.take(j + 1).contains(m2 as usize) {
                                let w = choose|w: int| 0 <= w < j + 1 && #[trigger] b.members@.take(j + 1)[w] == m2 as usize;
                                assert(b.members@.take(j as int)[w] == m2 as usize);
                            }
                        } else {
                            assert(b.members@.take(j + 1)[j as int] == m);
                        }
                    }
                }
                j += 1;
            }
            proof {
                assert(b.members@.take(b.members@.len() as int) =~= b.members@);
                assert(bundles@.take(bi + 1) =~= bundles@.take(bi as int).push(bundles@[bi as int]));
                assert forall|m: int| 0 <= m < free@.len() implies (red@[(#[trigger] free@[m]) as int] is Some <==> crate::solver::taken(bundles@.take(bi + 1), m)) by {
                    assert(m < layer_items@.len());
                    crate::search::lemma_taken_push(bundles@.take(bi as int), bundles@[bi as int], m as usize);
                }
                let done1 = bundles@.take(bi + 1);
                assert(done1.drop_last() =~= done);
                assert(done1.last() == bundles@[bi as int]);
                assert(b.finals@.take(b.finals@.len() as int) =~= b.finals@);
                assert forall|q: int| 0 <= q < promos.len() implies #[trigger] acc_at(red@, n as int, promos, layer_items@, done1, q) by {
                    assert(count_for(done1, q) == count_for(done, q) + if b.promotion == q { 1nat } else { 0nat });
                    if q != p {
                        assert(acc_at(red@, n as int, promos, layer_items@, done, q));
                    }
                }
                assert forall|c: int| 0 <= c < counters@.len() implies #[trigger] counters@[c] == count_for(done1, c) by {
                    assert(count_for(done1, c) == count_for(done, c) + if b.promotion == c { 1nat } else { 0nat });
                }
            }
            bi += 1;
        }
        proof {
            let layers = graph.layers@;
            let order = graph.order@;
            assert(bundles@.take(bundles@.len() as int) =~= bundles@);
            assert forall|q2: int| 0 <= q2 < promos.len() implies #[trigger] budget_kept(promos[q2], red@, n as int) by {
                assert(acc_at(red@, n as int, promos, layer_items@, bundles@, q2));
                assert(within_budget(promos[q2].budget_of(), count_for(bundles@, q2), spent_for(layer_items@, bundles@, q2)));
            }
            assert forall|k2: int, q: int| 0 <= k2 < k + 1 && 0 <= q < layers[order[k2] as int].promotions@.len()
                implies #[trigger] budget_kept(layers[order[k2] as int].promotions@[q], red@, n as int) by {
                if k2 == k {
                    assert(layers[order[k2] as int].promotions@[q] == promos[q]);
                }
            }
            assert forall|x2: int| 0 <= x2 < n && (#[trigger] red@[x2]) is Some implies key_visited(layers, order, red@[x2]->Some_0.promotion_key, k + 1) by {
                let key2 = red@[x2]->Some_0.promotion_key;
                if key_visited(layers, order, key2, k as int) {
                    let (k3, q3) = choose|k3: int, q3: int| 0 <= k3 < k && 0 <= q3 < layers[order[k3] as int].promotions@.len()
                        && #[trigger] promo_key(layers, order[k3] as int, q3) == key2;
                    assert(promo_key(layers, order[k3] as int, q3) == key2);
                } else {
                    let q3 = choose|q3: int| 0 <= q3 < promos.len() && key2 == #[trigger] promos[q3].key_of();
                    assert(promo_key(layers, order[k as int] as int, q3) == key2);
                }
            }
        }
        let mut x: usize = 0;
        while x < n
            invariant
                n == items@.len(),
                graph.wf(),
                l < graph.layers@.len(),
                position@.len() == n,
                forall|y: int| 0 <= y < n && (#[trigger] position@[y]) is Some ==> position@[y]->Some_0 < graph.layers@.len(),
            decreases n - x,
        {
            let here = match position[x] {
                Some(p) => p == l,
                None => false,
            };
            if here {
                let next = next_layer(graph, l, &items[x]);
                position.set(x, next);
            }
            x += 1;
        }
        k += 1;
    }
    let res = assemble(items, currency, &red);
    proof {
        let order = graph.order@;
        assert forall|l: int, q: int| 0 <= l < graph.spec_layers().len() && 0 <= q < graph.spec_layers()[l].promotions@.len()
            implies #[trigger] budget_kept(graph.spec_layers()[l].promotions@[q], redemptions_of(res), res.item_redemptions@.len() as int) by {
            let k2 = graph.rank@[l] as int;
            assert(order[k2] == l);
        }
    }
    Ok(res)
}

} // verus!
