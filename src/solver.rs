//! The per-layer solver: the best admissible set of bundles of one layer.
use vstd::prelude::*;
use crate::discounts::{Discount, discounted};
use crate::items::{Item, sorted_by_price_desc};
use crate::money::{Currency, percentage_of};
use crate::promotions::{
    MixAndMatchKind, MixAndMatchPromotion, PositionalDiscountPromotion, Promotion, PromotionBudget,
    PromotionKey, qualifies,
};
use crate::tags::TagCollection;
use crate::candidates::gather_candidates;
use crate::search::{
    candidate_order, copy_bundle, lemma_same_admissible, lowest_member, same_bundles, saving_of, savings_ok, search,
};

verus! {

/// Why a solve failed.
#[derive(Clone, Copy, Debug, PartialEq, Eq, Structural)]
pub enum SolveError {
    /// A discount, a bundle price or a budget of the promotion cannot be evaluated
    /// on this basket (wrong currency, a price it would raise or make negative,
    /// an invalid percentage).
    InvalidPromotion(PromotionKey),
    /// The promotion's structure admits no bundle by construction (a positional
    /// size of zero, positions outside `1..=size` or repeated, no slots).
    Infeasible(PromotionKey),
    /// An item is priced in another currency than the basket.
    CurrencyMismatch,
    /// An item has a negative price.
    NegativePrice,
    /// A sum of prices does not fit in 64 bits.
    Overflow,
    /// An invariant of the engine did not hold; never expected.
    Internal,
}

/// One bundle of a layer: the index of its promotion, the indices of its items
/// and the price of each item after the promotion.
#[derive(Clone, Debug)]
pub struct Bundle {
    pub promotion: usize,
    pub members: Vec<usize>,
    pub finals: Vec<i64>,
}

/// Whether `d` can be applied to every item of `items` that qualifies for `tags`.
pub open spec fn discount_ok_on(d: Discount, tags: TagCollection, items: Seq<Item>) -> bool {
    forall|i: int| 0 <= i < items.len() && qualifies(tags, #[trigger] items[i]) ==> discounted(d, items[i].price) is Ok
}

/// Whether a budget's monetary limit, if any, is in `currency` and not negative.
pub open spec fn budget_ok(b: PromotionBudget, currency: Currency) -> bool {
    b.monetary_limit is Some ==> b.monetary_limit->Some_0.currency == currency && b.monetary_limit->Some_0.minor >= 0
}

/// Whether the positions are distinct ordinals in `1..=size`, with `size > 0`.
pub open spec fn positions_ok(p: PositionalDiscountPromotion) -> bool {
    &&& p.size > 0
    &&& p.positions@.no_duplicates()
    &&& forall|j: int| 0 <= j < p.positions@.len() ==> 1 <= #[trigger] p.positions@[j] <= p.size
}

/// Whether the mix-and-match pricing can be evaluated on `items`.
pub open spec fn mix_kind_ok(p: MixAndMatchPromotion, items: Seq<Item>, currency: Currency) -> bool {
    match p.kind {
        MixAndMatchKind::BundleTotal(m) => m.currency == currency && m.minor >= 0,
        MixAndMatchKind::PercentOffBundleTotal(pct) => pct.wf(),
        MixAndMatchKind::EachItem(d) => forall|s: int| 0 <= s < p.slots@.len() ==> discount_ok_on(d, #[trigger] p.slots@[s], items),
    }
}

/// The configuration error of one promotion on `items`, if any.
pub open spec fn promotion_error(p: Promotion, items: Seq<Item>, currency: Currency) -> Option<SolveError> {
    let key = p.key_of();
    match p {
        Promotion::DirectDiscount(d) => {
            if !budget_ok(d.budget, currency) || !discount_ok_on(d.discount, d.tags, items) {
                Some(SolveError::InvalidPromotion(key))
            } else {
                None
            }
        },
        Promotion::PositionalDiscount(d) => {
            if !positions_ok(d) {
                Some(SolveError::Infeasible(key))
            } else if !budget_ok(d.budget, currency) || !discount_ok_on(d.discount, d.tags, items) {
                Some(SolveError::InvalidPromotion(key))
            } else {
                None
            }
        },
        Promotion::MixAndMatchDiscount(d) => {
            if d.slots@.len() == 0 {
                Some(SolveError::Infeasible(key))
            } else if !budget_ok(d.budget, currency) || !mix_kind_ok(d, items, currency) {
                Some(SolveError::InvalidPromotion(key))
            } else {
                None
            }
        },
    }
}

/// The error of the first promotion of `promos` that has one.
pub open spec fn layer_error(promos: Seq<Promotion>, items: Seq<Item>, currency: Currency) -> Option<SolveError>
    decreases promos.len(),
{
    if promos.len() == 0 {
        None
    } else if promotion_error(promos[0], items, currency) is Some {
        promotion_error(promos[0], items, currency)
    } else {
        layer_error(promos.drop_first(), items, currency)
    }
}

/// What a mix-and-match bundle whose items cost `total` is to cost after the
/// promotion, for the kinds that price whole bundles; never more than `total`.
pub open spec fn bundle_target(kind: MixAndMatchKind, total: int) -> int {
    match kind {
        MixAndMatchKind::BundleTotal(m) => if m.minor <= total { m.minor as int } else { total },
        MixAndMatchKind::PercentOffBundleTotal(pct) => total - percentage_of(total, pct),
        MixAndMatchKind::EachItem(_) => total,
    }
}

/// The sum of the first `k` prices of the members.
pub open spec fn prefix_price(items: Seq<Item>, members: Seq<usize>, k: int) -> int
    decreases k,
{
    if k <= 0 {
        0
    } else {
        prefix_price(items, members, k - 1) + items[members[k - 1] as int].price.minor
    }
}

/// What slot `j` pays when the slots pay `target` in order, each at most its price.
pub open spec fn pay_in_order(target: int, paid_before: int, price: int) -> int {
    let left = if target > paid_before { target - paid_before } else { 0 };
    if price < left { price } else { left }
}

/// The price of member `j` after the bundle's promotion.
pub open spec fn member_final(p: Promotion, items: Seq<Item>, members: Seq<usize>, j: int) -> int {
    let price = items[members[j] as int].price;
    match p {
        Promotion::DirectDiscount(d) => discounted(d.discount, price)->Ok_0.minor as int,
        Promotion::PositionalDiscount(d) => {
            if d.positions@.contains((j + 1) as u16) {
                discounted(d.discount, price)->Ok_0.minor as int
            } else {
                price.minor as int
            }
        },
        Promotion::MixAndMatchDiscount(d) => {
            match d.kind {
                MixAndMatchKind::EachItem(disc) => discounted(disc, price)->Ok_0.minor as int,
                _ => {
                    let target = bundle_target(d.kind, prefix_price(items, members, members.len() as int));
                    let before = prefix_price(items, members, j);
                    pay_in_order(target, if before < target { before } else { target }, price.minor as int)
                },
            }
        },
    }
}

/// Whether `members` form a bundle of `p`: how many, which items, in which order.
pub open spec fn bundle_shape(p: Promotion, items: Seq<Item>, members: Seq<usize>) -> bool {
    match p {
        Promotion::DirectDiscount(d) => members.len() == 1 && qualifies(d.tags, items[members[0] as int]),
        Promotion::PositionalDiscount(d) => {
            &&& members.len() == d.size
            &&& forall|j: int| 0 <= j < members.len() ==> qualifies(d.tags, #[trigger] items[members[j] as int])
            &&& sorted_by_price_desc(items, members)
        },
        Promotion::MixAndMatchDiscount(d) => {
            &&& members.len() == d.slots@.len()
            &&& forall|j: int| 0 <= j < members.len() ==> qualifies(#[trigger] d.slots@[j], items[members[j] as int])
        },
    }
}

/// Whether `b` is a bundle of the layer with promotions `promos` over `items`,
/// priced as its promotion prices it.
pub open spec fn valid_bundle(promos: Seq<Promotion>, items: Seq<Item>, b: Bundle) -> bool {
    &&& b.promotion < promos.len()
    &&& b.members@.len() > 0
    &&& b.members@.len() == b.finals@.len()
    &&& b.members@.no_duplicates()
    &&& forall|j: int| 0 <= j < b.members@.len() ==> (#[trigger] b.members@[j]) < items.len()
    &&& bundle_shape(promos[b.promotion as int], items, b.members@)
    &&& forall|j: int| 0 <= j < b.members@.len() ==> #[trigger] b.finals@[j] == member_final(promos[b.promotion as int], items, b.members@, j)
}

/// What a bundle saves: the sum over its members of price less final price.
pub open spec fn bundle_saving(items: Seq<Item>, members: Seq<usize>, finals: Seq<i64>) -> int
    decreases members.len(),
{
    if members.len() == 0 || finals.len() == 0 {
        0
    } else {
        bundle_saving(items, members.drop_last(), finals.drop_last()) + items[members.last() as int].price.minor - finals.last()
    }
}

fn check_discount_on(d: &Discount, tags: &TagCollection, items: &Vec<Item>) -> (r: bool)
    ensures
        r == discount_ok_on(*d, *tags, items@),
{
    let mut i: usize = 0;
    while i < items.len()
        invariant
            i <= items@.len(),
            forall|k: int| 0 <= k < i && qualifies(*tags, #[trigger] items@[k]) ==> discounted(*d, items@[k].price) is Ok,
        decreases items@.len() - i,
    {
        if tags.is_subset_of(&items[i].tags) && d.apply(items[i].price).is_err() {
            return false;
        }
        i += 1;
    }
    true
}

fn check_budget(b: &PromotionBudget, currency: Currency) -> (r: bool)
    ensures
        r == budget_ok(*b, currency),
{
    match &b.monetary_limit {
        Some(m) => m.currency == currency && m.minor >= 0,
        None => true,
    }
}

fn check_positions(p: &PositionalDiscountPromotion) -> (r: bool)
    ensures
        r == positions_ok(*p),
{
    if p.size == 0 {
        return false;
    }
    let mut i: usize = 0;
    while i < p.positions.len()
        invariant
            i <= p.positions@.len(),
            forall|j: int| 0 <= j < i ==> 1 <= #[trigger] p.positions@[j] <= p.size,
            forall|a: int, b: int| 0 <= a < b < i ==> p.positions@[a] != p.positions@[b],
        decreases p.positions@.len() - i,
    {
        if p.positions[i] < 1 || p.positions[i] > p.size {
            return false;
        }
        let mut k: usize = 0;
        while k < i
            invariant
                k <= i < p.positions@.len(),
                forall|a: int| 0 <= a < k ==> p.positions@[a] != p.positions@[i as int],
            decreases i - k,
        {
            if p.positions[k] == p.positions[i] {
                return false;
            }
            k += 1;
        }
        i += 1;
    }
    true
}

fn check_mix_kind(p: &MixAndMatchPromotion, items: &Vec<Item>, currency: Currency) -> (r: bool)
    ensures
        r == mix_kind_ok(*p, items@, currency),
{
    match &p.kind {
        MixAndMatchKind::BundleTotal(m) => m.currency == currency && m.minor >= 0,
        MixAndMatchKind::PercentOffBundleTotal(pct) => 0 < pct.denominator && pct.numerator <= pct.denominator,
        MixAndMatchKind::EachItem(d) => {
            let mut s: usize = 0;
            while s < p.slots.len()
                invariant
                    s <= p.slots@.len(),
                    p.kind == MixAndMatchKind::EachItem(*d),
                    forall|t: int| 0 <= t < s ==> discount_ok_on(*d, #[trigger] p.slots@[t], items@),
                decreases p.slots@.len() - s,
            {
                if !check_discount_on(d, &p.slots[s], items) {
                    assert(!discount_ok_on(*d, p.slots@[s as int], items@));
                    return false;
                }
                s += 1;
            }
            true
        },
    }
}

/// The configuration error of `p` on `items`, if any.
pub fn check_promotion(p: &Promotion, items: &Vec<Item>, currency: Currency) -> (r: Option<SolveError>)
    ensures
        r == promotion_error(*p, items@, currency),
{
    let key = p.key();
    match p {
        Promotion::DirectDiscount(d) => {
            if !check_budget(&d.budget, currency) || !check_discount_on(&d.discount, &d.tags, items) {
                Some(SolveError::InvalidPromotion(key))
            } else {
                None
            }
        },
        Promotion::PositionalDiscount(d) => {
            if !check_positions(d) {
                Some(SolveError::Infeasible(key))
            } else if !check_budget(&d.budget, currency) || !check_discount_on(&d.discount, &d.tags, items) {
                Some(SolveError::InvalidPromotion(key))
            } else {
                None
            }
        },
        Promotion::MixAndMatchDiscount(d) => {
            if d.slots.len() == 0 {
                Some(SolveError::Infeasible(key))
            } else if !check_budget(&d.budget, currency) || !check_mix_kind(d, items, currency) {
                Some(SolveError::InvalidPromotion(key))
            } else {
                None
            }
        },
    }
}

/// The error of the first misconfigured promotion of a layer, if any.
pub fn check_layer(promos: &Vec<Promotion>, items: &Vec<Item>, currency: Currency) -> (r: Option<SolveError>)
    ensures
        r == layer_error(promos@, items@, currency),
{
    let mut i: usize = 0;
    assert(promos@.subrange(0, promos@.len() as int) =~= promos@);
    while i < promos.len()
        invariant
            i <= promos@.len(),
            layer_error(promos@, items@, currency) == layer_error(promos@.subrange(i as int, promos@.len() as int), items@, currency),
        decreases promos@.len() - i,
    {
        let ghost rest = promos@.subrange(i as int, promos@.len() as int);
        assert(rest[0] == promos@[i as int]);
        assert(rest.drop_first() =~= promos@.subrange(i + 1, promos@.len() as int));
        let e = check_promotion(&promos[i], items, currency);
        if e.is_some() {
            return e;
        }
        i += 1;
    }
    assert(promos@.subrange(i as int, promos@.len() as int).len() == 0);
    None
}

/// Whether every bundle of `s` is a valid bundle of the layer.
pub open spec fn all_valid(promos: Seq<Promotion>, items: Seq<Item>, s: Seq<Bundle>) -> bool {
    forall|k: int| 0 <= k < s.len() ==> valid_bundle(promos, items, #[trigger] s[k])
}

/// Whether every item is priced in `currency`, at zero or more.
pub open spec fn prices_ok(items: Seq<Item>, currency: Currency) -> bool {
    forall|i: int| 0 <= i < items.len() ==> (#[trigger] items[i]).price.currency == currency && items[i].price.minor >= 0
}

/// The number of bundles of promotion `p` in `bs`.
pub open spec fn count_for(bs: Seq<Bundle>, p: int) -> nat
    decreases bs.len(),
{
    if bs.len() == 0 {
        0
    } else {
        count_for(bs.drop_last(), p) + if bs.last().promotion == p { 1nat } else { 0nat }
    }
}

/// What the bundles of promotion `p` in `bs` save together.
pub open spec fn spent_for(items: Seq<Item>, bs: Seq<Bundle>, p: int) -> int
    decreases bs.len(),
{
    if bs.len() == 0 {
        0
    } else {
        spent_for(items, bs.drop_last(), p) + if bs.last().promotion == p {
            bundle_saving(items, bs.last().members@, bs.last().finals@)
        } else {
            0
        }
    }
}

/// What all bundles of `bs` save together.
pub open spec fn total_saving(items: Seq<Item>, bs: Seq<Bundle>) -> int
    decreases bs.len(),
{
    if bs.len() == 0 {
        0
    } else {
        total_saving(items, bs.drop_last()) + bundle_saving(items, bs.last().members@, bs.last().finals@)
    }
}

/// Whether `count` redemptions saving `spent` stay within the budget.
pub open spec fn within_budget(b: PromotionBudget, count: nat, spent: int) -> bool {
    &&& (b.redemption_limit is Some ==> count <= b.redemption_limit->Some_0)
    &&& (b.monetary_limit is Some ==> spent <= b.monetary_limit->Some_0.minor)
}

/// Whether two bundles share no item.
pub open spec fn disjoint(a: Bundle, b: Bundle) -> bool {
    forall|x: int, y: int| 0 <= x < a.members@.len() && 0 <= y < b.members@.len() ==> a.members@[x] != b.members@[y]
}

/// Whether `bs` is an admissible assignment of one layer: valid bundles, no item
/// in two of them, every budget honoured.
pub open spec fn admissible(promos: Seq<Promotion>, items: Seq<Item>, bs: Seq<Bundle>) -> bool {
    &&& all_valid(promos, items, bs)
    &&& forall|a: int, b: int| 0 <= a < bs.len() && 0 <= b < bs.len() && a != b ==> disjoint(#[trigger] bs[a], #[trigger] bs[b])
    &&& forall|p: int| 0 <= p < promos.len() ==> within_budget(#[trigger] promos[p].budget_of(), count_for(bs, p), spent_for(items, bs, p))
}

/// The bundles of `cands` at the indices `chosen`.
pub open spec fn picked(cands: Seq<Bundle>, chosen: Seq<usize>) -> Seq<Bundle> {
    chosen.map_values(|k: usize| cands[k as int])
}

/// Whether item `i` is in a bundle of `bs`.
pub open spec fn taken(bs: Seq<Bundle>, i: int) -> bool {
    exists|k: int, j: int| 0 <= k < bs.len() && 0 <= j < bs[k].members@.len() && (#[trigger] bs[k].members@[j]) == i
}

/// The error of the first item that is in another currency or has a negative price.
pub open spec fn item_error(items: Seq<Item>, currency: Currency) -> Option<SolveError>
    decreases items.len(),
{
    if items.len() == 0 {
        None
    } else if items[0].price.currency != currency {
        Some(SolveError::CurrencyMismatch)
    } else if items[0].price.minor < 0 {
        Some(SolveError::NegativePrice)
    } else {
        item_error(items.drop_first(), currency)
    }
}

pub proof fn lemma_item_error(items: Seq<Item>, currency: Currency)
    ensures
        item_error(items, currency) is None <==> prices_ok(items, currency),
    decreases items.len(),
{
    if items.len() > 0 {
        lemma_item_error(items.drop_first(), currency);
        if prices_ok(items.drop_first(), currency) && items[0].price.currency == currency && items[0].price.minor >= 0 {
            assert forall|i: int| 0 <= i < items.len() implies (#[trigger] items[i]).price.currency == currency && items[i].price.minor >= 0 by {
                if i > 0 {
                    assert(items[i] == items.drop_first()[i - 1]);
                }
            }
        }
        if prices_ok(items, currency) {
            assert forall|i: int| 0 <= i < items.drop_first().len() implies (#[trigger] items.drop_first()[i]).price.currency == currency
                && items.drop_first()[i].price.minor >= 0 by {
                assert(items.drop_first()[i] == items[i + 1]);
            }
        }
    }
}

/// The error of the first item in another currency or with a negative price, if any.
pub fn check_items(items: &Vec<Item>, currency: Currency) -> (r: Option<SolveError>)
    ensures
        r == item_error(items@, currency),
{
    let mut i: usize = 0;
    assert(items@.subrange(0, items@.len() as int) =~= items@);
    while i < items.len()
        invariant
            i <= items@.len(),
            item_error(items@, currency) == item_error(items@.subrange(i as int, items@.len() as int), currency),
        decreases items@.len() - i,
    {
        let ghost rest = items@.subrange(i as int, items@.len() as int);
        assert(rest[0] == items@[i as int]);
        assert(rest.drop_first() =~= items@.subrange(i + 1, items@.len() as int));
        if items[i].price.currency != currency {
            return Some(SolveError::CurrencyMismatch);
        }
        if items[i].price.minor < 0 {
            return Some(SolveError::NegativePrice);
        }
        i += 1;
    }
    None
}

pub proof fn lemma_layer_error_none(promos: Seq<Promotion>, items: Seq<Item>, currency: Currency)
    requires
        layer_error(promos, items, currency) is None,
    ensures
        forall|k: int| 0 <= k < promos.len() ==> promotion_error(#[trigger] promos[k], items, currency) is None,
    decreases promos.len(),
{
    if promos.len() > 0 {
        lemma_layer_error_none(promos.drop_first(), items, currency);
        assert forall|k: int| 0 <= k < promos.len() implies promotion_error(#[trigger] promos[k], items, currency) is None by {
            if k > 0 {
                assert(promos[k] == promos.drop_first()[k - 1]);
            }
        }
    }
}

/// A valid bundle of a well-configured layer never raises a price nor makes it negative.
pub proof fn lemma_final_bounds(promos: Seq<Promotion>, items: Seq<Item>, currency: Currency, b: Bundle, j: int)
    requires
        prices_ok(items, currency),
        layer_error(promos, items, currency) is None,
        valid_bundle(promos, items, b),
        0 <= j < b.members@.len(),
    ensures
        0 <= b.finals@[j] <= items[b.members@[j] as int].price.minor,
{
    lemma_layer_error_none(promos, items, currency);
    let p = promos[b.promotion as int];
    assert(promotion_error(p, items, currency) is None);
    let m = b.members@[j] as int;
    assert(b.members@[j] < items.len());
    let price = items[m].price;
    assert(price.minor >= 0);
    crate::discounts::lemma_discount_lowers(
        match p {
            Promotion::DirectDiscount(d) => d.discount,
            Promotion::PositionalDiscount(d) => d.discount,
            Promotion::MixAndMatchDiscount(d) => match d.kind {
                MixAndMatchKind::EachItem(disc) => disc,
                _ => Discount::AmountOff(price),
            },
        },
        price,
    );
    match p {
        Promotion::DirectDiscount(d) => {
            assert(qualifies(d.tags, items[m]));
        },
        Promotion::PositionalDiscount(d) => {
            assert(qualifies(d.tags, items[b.members@[j] as int]));
        },
        Promotion::MixAndMatchDiscount(d) => {
            assert(qualifies(d.slots@[j], items[b.members@[j] as int]));
            match d.kind {
                MixAndMatchKind::EachItem(disc) => {
                    assert(discount_ok_on(disc, d.slots@[j], items));
                },
                _ => {},
            }
        },
    }
    assert(b.finals@[j] == member_final(p, items, b.members@, j));
}

/// The best assignment of one layer: the bundles that promotions `promos` form
/// over `items`, each item in at most one bundle and every budget honoured.
/// A branch-and-bound search over all candidate bundles looks for the largest
/// saving; on equal savings fewer bundles win, and on a full tie the first
/// found, in the order of the items and of the promotions. Admissibility is
/// proved; that the saving is the largest is what the search aims at, not a
/// proved property.
pub fn solve_layer(promos: &Vec<Promotion>, items: &Vec<Item>, currency: Currency) -> (r: Result<Vec<Bundle>, SolveError>)
    ensures
        item_error(items@, currency) is Some ==> r == Err::<Vec<Bundle>, SolveError>(item_error(items@, currency)->Some_0),
        item_error(items@, currency) is None && layer_error(promos@, items@, currency) is Some
            ==> r == Err::<Vec<Bundle>, SolveError>(layer_error(promos@, items@, currency)->Some_0),
        item_error(items@, currency) is None && layer_error(promos@, items@, currency) is None
            ==> r is Ok && admissible(promos@, items@, r->Ok_0@),
        r is Ok ==> item_error(items@, currency) is None && layer_error(promos@, items@, currency) is None,
{
    match check_items(items, currency) {
        Some(e) => {
            return Err(e);
        },
        None => {},
    }
    proof {
        lemma_item_error(items@, currency);
    }
    match check_layer(promos, items, currency) {
        Some(e) => {
            return Err(e);
        },
        None => {},
    }
    proof {
        lemma_layer_error_none(promos@, items@, currency);
    }
    let all = gather_candidates(promos, items, currency);
    let mut found: Vec<Bundle> = Vec::new();
    let mut found_savings: Vec<i128> = Vec::new();
    let mut found_lows: Vec<usize> = Vec::new();
    let mut k: usize = 0;
    while k < all.len()
        invariant
            k <= all@.len(),
            all_valid(promos@, items@, all@),
            all_valid(promos@, items@, found@),
            savings_ok(items@, found@, found_savings@),
            found_lows@.len() == found@.len(),
        decreases all@.len() - k,
    {
        assert(valid_bundle(promos@, items@, all@[k as int]));
        match saving_of(items, &all[k]) {
            Some(sv) => {
                if sv > 0 {
                    let b = copy_bundle(&all[k]);
                    assert(valid_bundle(promos@, items@, b));
                    found_lows.push(lowest_member(&b));
                    found.push(b);
                    found_savings.push(sv);
                }
            },
            None => {},
        }
        k += 1;
    }
    let order = candidate_order(&found_lows, &found_savings);
    let mut cands: Vec<Bundle> = Vec::new();
    let mut savings: Vec<i128> = Vec::new();
    let mut lows: Vec<usize> = Vec::new();
    let mut k: usize = 0;
    while k < order.len()
        invariant
            k <= order@.len(),
            forall|x: int| 0 <= x < order@.len() ==> (#[trigger] order@[x]) < found@.len(),
            all_valid(promos@, items@, found@),
            savings_ok(items@, found@, found_savings@),
            found_lows@.len() == found@.len(),
            all_valid(promos@, items@, cands@),
            savings_ok(items@, cands@, savings@),
            lows@.len() == cands@.len(),
        decreases order@.len() - k,
    {
        let c = order[k];
        assert(valid_bundle(promos@, items@, found@[c as int]));
        let b = copy_bundle(&found[c]);
        assert(valid_bundle(promos@, items@, b));
        cands.push(b);
        savings.push(found_savings[c]);
        lows.push(found_lows[c]);
        k += 1;
    }
    let n: usize = items.len();
    let mut caps: Vec<i128> = Vec::new();
    let mut used: Vec<bool> = Vec::new();
    let mut i: usize = 0;
    while i < n
        invariant
            n == items@.len(),
            i <= n,
            caps@.len() == i,
            used@.len() == i,
            forall|j: int| 0 <= j < i ==> #[trigger] caps@[j] == 0,
            forall|j: int| 0 <= j < i ==> !#[trigger] used@[j],
        decreases n - i,
    {
        caps.push(0);
        used.push(false);
        i += 1;
    }
    let mut c: usize = 0;
    while c < cands.len()
        invariant
            c <= cands@.len(),
            caps@.len() == n,
            n == items@.len(),
            all_valid(promos@, items@, cands@),
            savings_ok(items@, cands@, savings@),
            forall|j: int| 0 <= j < caps@.len() ==> 0 <= #[trigger] caps@[j] <= i64::MAX,
        decreases cands@.len() - c,
    {
        let b = &cands[c];
        assert(valid_bundle(promos@, items@, cands@[c as int]));
        let size: i128 = b.members.len() as i128;
        let sv = savings[c];
        assert(1 <= sv <= i64::MAX && size >= 1);
        proof {
            let (a, d) = (sv as int, size as int);
            assert((a + d - 1) / d <= a && (a + d - 1) / d >= 0) by (nonlinear_arith)
                requires 1 <= a, d >= 1;
        }
        let share: i128 = (sv + size - 1) / size;
        let mut j: usize = 0;
        while j < b.members.len()
            invariant
                j <= b.members@.len(),
                caps@.len() == n,
                n == items@.len(),
                0 <= share <= i64::MAX,
                forall|x: int| 0 <= x < b.members@.len() ==> (#[trigger] b.members@[x]) < items@.len(),
                forall|y: int| 0 <= y < caps@.len() ==> 0 <= #[trigger] caps@[y] <= i64::MAX,
            decreases b.members@.len() - j,
        {
            let m = b.members[j];
            if share > caps[m] {
                caps.set(m, share);
            }
            j += 1;
        }
        c += 1;
    }
    let np: usize = promos.len();
    let mut counts: Vec<u64> = Vec::new();
    let mut spent: Vec<i128> = Vec::new();
    let mut q: usize = 0;
    while q < np
        invariant
            np == promos@.len(),
            q <= np,
            counts@.len() == q,
            spent@.len() == q,
            forall|j: int| 0 <= j < q ==> #[trigger] counts@[j] == 0,
            forall|j: int| 0 <= j < q ==> #[trigger] spent@[j] == 0,
        decreases np - q,
    {
        counts.push(0);
        spent.push(0);
        q += 1;
    }
    let mut chosen: Vec<usize> = Vec::new();
    let mut best: Vec<usize> = Vec::new();
    let mut best_saving: i128 = 0;
    proof {
        let bs = picked(cands@, chosen@);
        assert(bs =~= Seq::<Bundle>::empty());
        assert forall|p: int| 0 <= p < promos@.len() implies within_budget(#[trigger] promos@[p].budget_of(), count_for(bs, p), spent_for(items@, bs, p)) by {
            assert(promotion_error(promos@[p], items@, currency) is None);
        }
        assert(admissible(promos@, items@, bs));
        assert(picked(cands@, best@) =~= bs);
    }
    search(promos, items, &cands, &savings, &caps, &lows, 0, &mut used, &mut counts, &mut spent, &mut chosen, 0, &mut best, &mut best_saving);
    let mut result: Vec<Bundle> = Vec::new();
    let mut k: usize = 0;
    while k < best.len()
        invariant
            k <= best@.len(),
            forall|x: int| 0 <= x < best@.len() ==> (#[trigger] best@[x]) < cands@.len(),
            same_bundles(picked(cands@, best@).subrange(0, k as int), result@),
        decreases best@.len() - k,
    {
        let b = copy_bundle(&cands[best[k]]);
        let ghost before = result@;
        result.push(b);
        proof {
            let ps = picked(cands@, best@);
            assert forall|x: int| 0 <= x < k + 1 implies (#[trigger] ps.subrange(0, k + 1)[x]).promotion == result@[x].promotion
                && ps.subrange(0, k + 1)[x].members@ == result@[x].members@ && ps.subrange(0, k + 1)[x].finals@ == result@[x].finals@ by {
                if x < k {
                    assert(ps.subrange(0, k + 1)[x] == ps.subrange(0, k as int)[x]);
                    assert(result@[x] == before[x]);
                }
            }
        }
        k += 1;
    }
    proof {
        assert(picked(cands@, best@).subrange(0, best@.len() as int) =~= picked(cands@, best@));
        lemma_same_admissible(promos@, items@, picked(cands@, best@), result@);
    }
    Ok(result)
}

/// Whether every item of `sub` has the price and the tags of some item of `all`.
pub open spec fn drawn_from(sub: Seq<Item>, all: Seq<Item>) -> bool {
    forall|m: int| 0 <= m < sub.len() ==> exists|i: int|
        0 <= i < all.len() && (#[trigger] sub[m]).price == all[i].price && sub[m].tags@ == all[i].tags@
}

proof fn lemma_discount_ok_sub(d: Discount, tags: TagCollection, sub: Seq<Item>, all: Seq<Item>)
    requires
        drawn_from(sub, all),
        discount_ok_on(d, tags, all),
    ensures
        discount_ok_on(d, tags, sub),
{
    assert forall|m: int| 0 <= m < sub.len() && qualifies(tags, #[trigger] sub[m]) implies discounted(d, sub[m].price) is Ok by {
        let i = choose|i: int| 0 <= i < all.len() && sub[m].price == all[i].price && sub[m].tags@ == all[i].tags@;
        assert(qualifies(tags, all[i]));
    }
}

proof fn lemma_layer_error_from_each(promos: Seq<Promotion>, items: Seq<Item>, currency: Currency)
    requires
        forall|k: int| 0 <= k < promos.len() ==> promotion_error(#[trigger] promos[k], items, currency) is None,
    ensures
        layer_error(promos, items, currency) is None,
    decreases promos.len(),
{
    if promos.len() > 0 {
        assert forall|k: int| 0 <= k < promos.drop_first().len() implies promotion_error(#[trigger] promos.drop_first()[k], items, currency) is None by {
            assert(promos.drop_first()[k] == promos[k + 1]);
        }
        lemma_layer_error_from_each(promos.drop_first(), items, currency);
        assert(promotion_error(promos[0], items, currency) is None);
    }
}

/// A layer configured well for a basket is configured well for any items drawn
/// from that basket.
pub proof fn lemma_layer_error_sub(promos: Seq<Promotion>, sub: Seq<Item>, all: Seq<Item>, currency: Currency)
    requires
        drawn_from(sub, all),
        layer_error(promos, all, currency) is None,
    ensures
        layer_error(promos, sub, currency) is None,
{
    lemma_layer_error_none(promos, all, currency);
    assert forall|k: int| 0 <= k < promos.len() implies promotion_error(#[trigger] promos[k], sub, currency) is None by {
        let p = promos[k];
        assert(promotion_error(p, all, currency) is None);
        match p {
            Promotion::DirectDiscount(d) => {
                lemma_discount_ok_sub(d.discount, d.tags, sub, all);
            },
            Promotion::PositionalDiscount(d) => {
                lemma_discount_ok_sub(d.discount, d.tags, sub, all);
            },
            Promotion::MixAndMatchDiscount(d) => {
                if let MixAndMatchKind::EachItem(disc) = d.kind {
                    assert forall|s: int| 0 <= s < d.slots@.len() implies discount_ok_on(disc, #[trigger] d.slots@[s], sub) by {
                        assert(discount_ok_on(disc, d.slots@[s], all));
                        lemma_discount_ok_sub(disc, d.slots@[s], sub, all);
                    }
                }
            },
        }
    }
    lemma_layer_error_from_each(promos, sub, currency);
}

/// Counts and savings of a prefix of bundles never exceed those of the whole.
pub proof fn lemma_prefix_within(items: Seq<Item>, bs: Seq<Bundle>, p: int, j: int)
    requires
        0 <= j <= bs.len(),
        forall|k: int| 0 <= k < bs.len() ==> bundle_saving(items, (#[trigger] bs[k]).members@, bs[k].finals@) >= 0,
    ensures
        count_for(bs.take(j), p) <= count_for(bs, p),
        spent_for(items, bs.take(j), p) <= spent_for(items, bs, p),
    decreases bs.len(),
{
    if j < bs.len() {
        let d = bs.drop_last();
        assert(d.take(j) =~= bs.take(j));
        assert forall|k: int| 0 <= k < d.len() implies bundle_saving(items, (#[trigger] d[k]).members@, d[k].finals@) >= 0 by {
            assert(d[k] == bs[k]);
        }
        lemma_prefix_within(items, d, p, j);
        assert(bs.last() == bs[bs.len() - 1]);
    } else {
        assert(bs.take(j) =~= bs);
    }
}

/// What a valid bundle of a well-configured layer saves is not negative.
pub proof fn lemma_saving_nonneg(promos: Seq<Promotion>, items: Seq<Item>, currency: Currency, b: Bundle)
    requires
        prices_ok(items, currency),
        layer_error(promos, items, currency) is None,
        valid_bundle(promos, items, b),
    ensures
        bundle_saving(items, b.members@, b.finals@) >= 0,
{
    assert forall|j: int| 0 <= j < b.members@.len() implies #[trigger] b.finals@[j] <= items[b.members@[j] as int].price.minor by {
        lemma_final_bounds(promos, items, currency, b, j);
    }
    lemma_saving_terms(items, b.members@, b.finals@);
}

proof fn lemma_saving_terms(items: Seq<Item>, members: Seq<usize>, finals: Seq<i64>)
    requires
        members.len() == finals.len(),
        forall|j: int| 0 <= j < members.len() ==> #[trigger] finals[j] <= items[members[j] as int].price.minor,
    ensures
        bundle_saving(items, members, finals) >= 0,
    decreases members.len(),
{
    if members.len() > 0 {
        assert forall|j: int| 0 <= j < members.drop_last().len() implies #[trigger] finals.drop_last()[j] <= items[members.drop_last()[j] as int].price.minor by {
            assert(finals.drop_last()[j] == finals[j]);
            assert(members.drop_last()[j] == members[j]);
        }
        lemma_saving_terms(items, members.drop_last(), finals.drop_last());
        assert(finals.last() == finals[finals.len() - 1]);
    }
}

} // verus!
