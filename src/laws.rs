//! Properties that every solve and every receipt have.
use vstd::prelude::*;
use crate::items::{Item, sum_prices};
use crate::layered::{LayeredSolverResult, PromotionRedemption, item_final, result_ok, sum_finals};
use crate::money::Currency;
use crate::receipt::{Receipt, flatten, savings_sum};
use crate::promotions::Promotion;
use crate::solver::{Bundle, admissible, count_for, prices_ok, spent_for, within_budget};

verus! {

proof fn lemma_finals_bounded(items: Seq<Item>, currency: Currency, res: LayeredSolverResult, k: int)
    requires
        result_ok(items, currency, res),
        prices_ok(items, currency),
        0 <= k <= items.len(),
    ensures
        0 <= sum_finals(items, res.item_redemptions@, k) <= sum_prices(items.subrange(0, k)),
    decreases k,
{
    if k > 0 {
        lemma_finals_bounded(items, currency, res, k - 1);
        assert(items.subrange(0, k).drop_last() =~= items.subrange(0, k - 1));
        let reds = res.item_redemptions@;
        assert(reds[k - 1]@.len() <= 1);
        if reds[k - 1]@.len() > 0 {
            assert(reds[k - 1]@.last() == reds[k - 1]@[0]);
            assert(crate::layered::redemption_ok(items, currency, k - 1, reds[k - 1]@[0]));
        }
        assert(items[k - 1].price.minor >= 0);
    }
}

/// A solve never charges more than the undiscounted basket.
pub proof fn law_total_at_most_subtotal(items: Seq<Item>, currency: Currency, res: LayeredSolverResult)
    requires
        result_ok(items, currency, res),
        prices_ok(items, currency),
    ensures
        res.total.minor <= sum_prices(items),
{
    lemma_finals_bounded(items, currency, res, items.len() as int);
    assert(items.subrange(0, items.len() as int) =~= items);
}

/// A solve never charges less than nothing.
pub proof fn law_total_nonnegative(items: Seq<Item>, currency: Currency, res: LayeredSolverResult)
    requires
        result_ok(items, currency, res),
        prices_ok(items, currency),
    ensures
        res.total.minor >= 0,
{
    lemma_finals_bounded(items, currency, res, items.len() as int);
}

/// The total is in the basket's currency.
pub proof fn law_total_currency(items: Seq<Item>, currency: Currency, res: LayeredSolverResult)
    requires
        result_ok(items, currency, res),
    ensures
        res.total.currency == currency,
{
}

/// Every item is either redeemed or at full price, never both, and is listed
/// at full price at most once.
pub proof fn law_each_item_once(items: Seq<Item>, currency: Currency, res: LayeredSolverResult)
    requires
        result_ok(items, currency, res),
    ensures
        forall|i: usize| i < items.len() ==> (#[trigger] res.full_price_items@.contains(i)) != (res.item_redemptions@[i as int]@.len() > 0),
        res.full_price_items@.no_duplicates(),
        forall|k: int| 0 <= k < res.full_price_items@.len() ==> (#[trigger] res.full_price_items@[k]) < items.len(),
{
    assert forall|i: usize| i < items.len() implies (#[trigger] res.full_price_items@.contains(i)) != (res.item_redemptions@[i as int]@.len() > 0) by {
        assert(res.full_price_items@.contains((i as int) as usize) <==> res.item_redemptions@[i as int]@.len() == 0);
    }
}

proof fn lemma_savings_concat(a: Seq<PromotionRedemption>, b: Seq<PromotionRedemption>)
    ensures
        savings_sum(a + b) == savings_sum(a) + savings_sum(b),
    decreases b.len(),
{
    if b.len() > 0 {
        lemma_savings_concat(a, b.drop_last());
        assert((a + b).drop_last() =~= a + b.drop_last());
        assert((a + b).last() == b.last());
    } else {
        assert(a + b =~= a);
    }
}

proof fn lemma_savings_prefix(items: Seq<Item>, currency: Currency, res: LayeredSolverResult, k: int)
    requires
        result_ok(items, currency, res),
        0 <= k <= items.len(),
    ensures
        savings_sum(flatten(res.item_redemptions@, k)) == sum_prices(items.subrange(0, k)) - sum_finals(items, res.item_redemptions@, k),
    decreases k,
{
    if k > 0 {
        let reds = res.item_redemptions@;
        lemma_savings_prefix(items, currency, res, k - 1);
        lemma_savings_concat(flatten(reds, k - 1), reds[k - 1]@);
        assert(items.subrange(0, k).drop_last() =~= items.subrange(0, k - 1));
        assert(reds[k - 1]@.len() <= 1);
        if reds[k - 1]@.len() > 0 {
            let r = reds[k - 1]@[0];
            assert(crate::layered::redemption_ok(items, currency, k - 1, r));
            assert(reds[k - 1]@.drop_last() =~= Seq::<PromotionRedemption>::empty());
            assert(reds[k - 1]@.last() == r);
            assert(savings_sum(reds[k - 1]@.drop_last()) == 0);
            assert(savings_sum(reds[k - 1]@) == r.original_price.minor - r.final_price.minor);
        } else {
            assert(savings_sum(reds[k - 1]@) == 0);
        }
        assert(item_final(items, reds, k - 1) == if reds[k - 1]@.len() > 0 {
            reds[k - 1]@.last().final_price.minor as int
        } else {
            items[k - 1].price.minor as int
        });
    }
}

/// On a receipt of a solve, the subtotal less the total is what the listed
/// redemptions save.
pub proof fn law_receipt_savings(items: Seq<Item>, currency: Currency, res: LayeredSolverResult, receipt: Receipt)
    requires
        result_ok(items, currency, res),
        receipt.subtotal.minor == sum_prices(items),
        receipt.total == res.total,
        savings_sum(receipt.promotion_redemptions@) == savings_sum(flatten(res.item_redemptions@, items.len() as int)),
    ensures
        receipt.subtotal.minor - receipt.total.minor == savings_sum(receipt.promotion_redemptions@),
{
    lemma_savings_prefix(items, currency, res, items.len() as int);
    assert(items.subrange(0, items.len() as int) =~= items);
}

/// In an assignment that a layer solve returns, no promotion forms more
/// bundles than its redemption limit, nor saves more than its monetary limit.
pub proof fn law_layer_within_budget(promos: Seq<Promotion>, items: Seq<Item>, bs: Seq<Bundle>)
    requires
        admissible(promos, items, bs),
    ensures
        forall|p: int| 0 <= p < promos.len() ==> {
            let b = #[trigger] promos[p].budget_of();
            &&& b.redemption_limit is Some ==> count_for(bs, p) <= b.redemption_limit->Some_0
            &&& b.monetary_limit is Some ==> spent_for(items, bs, p) <= b.monetary_limit->Some_0.minor
        },
{
    assert forall|p: int| 0 <= p < promos.len() implies within_budget(#[trigger] promos[p].budget_of(), count_for(bs, p), spent_for(items, bs, p)) by {}
}

} // verus!
