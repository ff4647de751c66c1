//! Promotions: direct, positional and mix-and-match, with their budgets.
use vstd::prelude::*;
use crate::discounts::{Discount, DiscountError};
use crate::items::{Item, ItemGroup};
use crate::money::{Money, Percentage};
use crate::tags::TagCollection;

verus! {

/// The handle of a registered promotion.
#[derive(Clone, Copy, Debug, PartialEq, Eq, Structural, Hash)]
pub struct PromotionKey {
    pub id: u64,
}

impl Default for PromotionKey {
    fn default() -> (r: PromotionKey)
        ensures
            r.id == 0,
    {
        PromotionKey { id: 0 }
    }
}

/// Hands out promotion keys, each different from the default key and from
/// every key handed out before.
#[derive(Debug)]
pub struct PromotionKeys {
    next: u64,
}

impl PromotionKeys {
    pub closed spec fn issued(&self) -> u64 {
        self.next
    }

    pub fn new() -> (r: PromotionKeys)
        ensures
            r.issued() == 0,
    {
        PromotionKeys { next: 0 }
    }

    /// A fresh key: its id is one more than the number issued before.
    pub fn insert(&mut self) -> (r: Option<PromotionKey>)
        ensures
            old(self).issued() < u64::MAX ==> r == Some(PromotionKey { id: (old(self).issued() + 1) as u64 })
                && final(self).issued() == old(self).issued() + 1,
            old(self).issued() == u64::MAX ==> r is None && final(self).issued() == old(self).issued(),
    {
        if self.next == u64::MAX {
            None
        } else {
            self.next = self.next + 1;
            Some(PromotionKey { id: self.next })
        }
    }
}

/// Display metadata of a promotion.
#[derive(Clone, Debug)]
pub struct PromotionMeta {
    pub name: String,
}

/// Limits on how much a promotion may give in one solve.
#[derive(Clone, Copy, Debug, PartialEq, Eq, Structural)]
pub struct PromotionBudget {
    /// Most bundles (or, for a direct discount, items) it may redeem.
    pub redemption_limit: Option<u32>,
    /// Most savings, summed over its redemptions, it may give.
    pub monetary_limit: Option<Money>,
}

impl PromotionBudget {
    /// No limit.
    pub fn unlimited() -> (r: PromotionBudget)
        ensures
            r.redemption_limit is None && r.monetary_limit is None,
    {
        PromotionBudget { redemption_limit: None, monetary_limit: None }
    }

    /// A limit on redemptions only.
    pub fn with_redemption_limit(limit: u32) -> (r: PromotionBudget)
        ensures
            r.redemption_limit == Some(limit) && r.monetary_limit is None,
    {
        PromotionBudget { redemption_limit: Some(limit), monetary_limit: None }
    }

    /// A limit on savings only.
    pub fn with_monetary_limit(limit: Money) -> (r: PromotionBudget)
        ensures
            r.redemption_limit is None && r.monetary_limit == Some(limit),
    {
        PromotionBudget { redemption_limit: None, monetary_limit: Some(limit) }
    }

    /// Both limits.
    pub fn with_both_limits(redemption: u32, monetary: Money) -> (r: PromotionBudget)
        ensures
            r.redemption_limit == Some(redemption) && r.monetary_limit == Some(monetary),
    {
        PromotionBudget { redemption_limit: Some(redemption), monetary_limit: Some(monetary) }
    }

    /// Whether any limit is set.
    pub fn has_constraints(&self) -> (r: bool)
        ensures
            r == (self.redemption_limit is Some || self.monetary_limit is Some),
    {
        self.redemption_limit.is_some() || self.monetary_limit.is_some()
    }
}

/// Whether an item carries every tag of `tags`.
pub open spec fn qualifies(tags: TagCollection, item: Item) -> bool {
    tags@.subset_of(item.tags@)
}

/// The number of items of `items` that carry every tag of `tags`.
pub open spec fn count_qualifying(tags: TagCollection, items: Seq<Item>) -> nat
    decreases items.len(),
{
    if items.len() == 0 {
        0
    } else {
        count_qualifying(tags, items.drop_last()) + if qualifies(tags, items.last()) {
            1nat
        } else {
            0nat
        }
    }
}

/// Whether some item of `items` qualifies for a slot of tags `slot`.
pub open spec fn slot_fillable(slot: TagCollection, items: Seq<Item>) -> bool {
    exists|i: int| 0 <= i < items.len() && qualifies(slot, #[trigger] items[i])
}

/// Takes the discount off every qualifying item.
#[derive(Clone, Debug)]
pub struct DirectDiscountPromotion {
    pub key: PromotionKey,
    pub tags: TagCollection,
    pub discount: Discount,
    pub budget: PromotionBudget,
}

/// A direct discount: one discount on every qualifying item.
pub type SimpleDiscount = DirectDiscountPromotion;

/// Forms bundles of `size` qualifying items; within a bundle sorted by
/// descending price the items at the 1-based `positions` are discounted.
#[derive(Clone, Debug)]
pub struct PositionalDiscountPromotion {
    pub key: PromotionKey,
    pub tags: TagCollection,
    pub size: u16,
    pub positions: Vec<u16>,
    pub discount: Discount,
    pub budget: PromotionBudget,
}

/// How a mix-and-match bundle is priced.
#[derive(Clone, Copy, Debug, PartialEq, Eq, Structural)]
pub enum MixAndMatchKind {
    /// Replaces the bundle's total; the slots pay it in order, each at most its own price.
    BundleTotal(Money),
    /// Takes the percentage off the bundle's total, paid by the slots in order.
    PercentOffBundleTotal(Percentage),
    /// Applies the discount to the item of each slot.
    EachItem(Discount),
}

/// Forms bundles of one item per slot, each matching the slot's tags.
#[derive(Clone, Debug)]
pub struct MixAndMatchPromotion {
    pub key: PromotionKey,
    pub slots: Vec<TagCollection>,
    pub kind: MixAndMatchKind,
    pub budget: PromotionBudget,
}

/// A promotion of one of the three kinds.
#[derive(Clone, Debug)]
pub enum Promotion {
    DirectDiscount(DirectDiscountPromotion),
    PositionalDiscount(PositionalDiscountPromotion),
    MixAndMatchDiscount(MixAndMatchPromotion),
}

/// The index of the first item that qualifies for `tags`, if any.
fn first_qualifying(tags: &TagCollection, items: &Vec<Item>) -> (r: Option<usize>)
    ensures
        r is None <==> forall|i: int| 0 <= i < items@.len() ==> !qualifies(*tags, #[trigger] items@[i]),
        r is Some ==> r->Some_0 < items@.len() && qualifies(*tags, items@[r->Some_0 as int]),
{
    let mut i: usize = 0;
    while i < items.len()
        invariant
            i <= items@.len(),
            forall|j: int| 0 <= j < i ==> !qualifies(*tags, #[trigger] items@[j]),
        decreases items@.len() - i,
    {
        if tags.is_subset_of(&items[i].tags) {
            return Some(i);
        }
        i += 1;
    }
    None
}

/// The number of items that qualify for `tags`.
fn qualifying_count(tags: &TagCollection, items: &Vec<Item>) -> (r: usize)
    ensures
        r == count_qualifying(*tags, items@),
{
    let mut n: usize = 0;
    let mut i: usize = 0;
    while i < items.len()
        invariant
            i <= items@.len(),
            n == count_qualifying(*tags, items@.subrange(0, i as int)),
            n <= i,
        decreases items@.len() - i,
    {
        assert(items@.subrange(0, i + 1).drop_last() =~= items@.subrange(0, i as int));
        if tags.is_subset_of(&items[i].tags) {
            n += 1;
        }
        i += 1;
    }
    assert(items@.subrange(0, items@.len() as int) =~= items@);
    n
}

impl DirectDiscountPromotion {
    /// A direct discount without budget limits.
    pub fn new(key: PromotionKey, tags: TagCollection, discount: Discount) -> (r: DirectDiscountPromotion)
        ensures
            r.key == key && r.tags@ == tags@ && r.discount == discount,
            r.budget.redemption_limit is None && r.budget.monetary_limit is None,
    {
        DirectDiscountPromotion { key, tags, discount, budget: PromotionBudget::unlimited() }
    }

    /// The promotion key.
    pub fn key(&self) -> (r: PromotionKey)
        ensures
            r == self.key,
    {
        self.key
    }

    /// The qualifying tags.
    pub fn tags(&self) -> (r: &TagCollection)
        ensures
            r == &self.tags,
    {
        &self.tags
    }

    /// The discount applied to each qualifying item.
    pub fn config(&self) -> (r: &Discount)
        ensures
            r == &self.discount,
    {
        &self.discount
    }

    /// The price of `item` under this promotion's discount.
    pub fn calculate_discounted_price(&self, item: &Item) -> (r: Result<Money, DiscountError>)
        ensures
            r == crate::discounts::discounted(self.discount, item.price),
    {
        self.discount.apply(item.price)
    }

    /// Whether some item qualifies.
    pub fn is_applicable(&self, item_group: &ItemGroup) -> (r: bool)
        ensures
            r == exists|i: int| 0 <= i < item_group.items@.len() && qualifies(self.tags, #[trigger] item_group.items@[i]),
    {
        first_qualifying(&self.tags, &item_group.items).is_some()
    }
}

impl PositionalDiscountPromotion {
    /// A positional discount without budget limits.
    pub fn new(key: PromotionKey, tags: TagCollection, size: u16, positions: Vec<u16>, discount: Discount) -> (r: PositionalDiscountPromotion)
        ensures
            r.key == key && r.tags@ == tags@ && r.size == size && r.positions@ == positions@ && r.discount == discount,
            r.budget.redemption_limit is None && r.budget.monetary_limit is None,
    {
        PositionalDiscountPromotion { key, tags, size, positions, discount, budget: PromotionBudget::unlimited() }
    }

    /// The promotion key.
    pub fn key(&self) -> (r: PromotionKey)
        ensures
            r == self.key,
    {
        self.key
    }

    /// Whether at least `size` items qualify.
    pub fn is_applicable(&self, item_group: &ItemGroup) -> (r: bool)
        ensures
            r == (count_qualifying(self.tags, item_group.items@) >= self.size),
    {
        qualifying_count(&self.tags, &item_group.items) >= self.size as usize
    }
}

impl MixAndMatchPromotion {
    /// A mix-and-match promotion without budget limits.
    pub fn new(key: PromotionKey, slots: Vec<TagCollection>, kind: MixAndMatchKind) -> (r: MixAndMatchPromotion)
        ensures
            r.key == key && r.slots@ == slots@ && r.kind == kind,
            r.budget.redemption_limit is None && r.budget.monetary_limit is None,
    {
        MixAndMatchPromotion { key, slots, kind, budget: PromotionBudget::unlimited() }
    }

    /// The promotion key.
    pub fn key(&self) -> (r: PromotionKey)
        ensures
            r == self.key,
    {
        self.key
    }

    /// Whether every slot has at least one qualifying item.
    pub fn is_applicable(&self, item_group: &ItemGroup) -> (r: bool)
        ensures
            r == forall|s: int| 0 <= s < self.slots@.len() ==> slot_fillable(#[trigger] self.slots@[s], item_group.items@),
    {
        let mut s: usize = 0;
        while s < self.slots.len()
            invariant
                s <= self.slots@.len(),
                forall|t: int| 0 <= t < s ==> slot_fillable(#[trigger] self.slots@[t], item_group.items@),
            decreases self.slots@.len() - s,
        {
            match first_qualifying(&self.slots[s], &item_group.items) {
                Some(i) => {
                    assert(qualifies(self.slots@[s as int], item_group.items@[i as int]));
                },
                None => {
                    return false;
                },
            }
            s += 1;
        }
        true
    }
}

impl Promotion {
    pub open spec fn key_of(&self) -> PromotionKey {
        match self {
            Promotion::DirectDiscount(p) => p.key,
            Promotion::PositionalDiscount(p) => p.key,
            Promotion::MixAndMatchDiscount(p) => p.key,
        }
    }

    pub open spec fn budget_of(&self) -> PromotionBudget {
        match self {
            Promotion::DirectDiscount(p) => p.budget,
            Promotion::PositionalDiscount(p) => p.budget,
            Promotion::MixAndMatchDiscount(p) => p.budget,
        }
    }

    /// Whether the promotion might redeem against `item_group`: false only
    /// where no bundle of it can be formed.
    pub open spec fn applicable(&self, items: Seq<Item>) -> bool {
        match self {
            Promotion::DirectDiscount(p) => exists|i: int| 0 <= i < items.len() && qualifies(p.tags, #[trigger] items[i]),
            Promotion::PositionalDiscount(p) => count_qualifying(p.tags, items) >= p.size,
            Promotion::MixAndMatchDiscount(p) => forall|s: int| 0 <= s < p.slots@.len() ==> slot_fillable(#[trigger] p.slots@[s], items),
        }
    }

    /// Return the promotion key.
    pub fn key(&self) -> (r: PromotionKey)
        ensures
            r == self.key_of(),
    {
        match self {
            Promotion::DirectDiscount(p) => p.key,
            Promotion::PositionalDiscount(p) => p.key,
            Promotion::MixAndMatchDiscount(p) => p.key,
        }
    }

    /// Return the promotion budget.
    pub fn budget(&self) -> (r: PromotionBudget)
        ensures
            r == self.budget_of(),
    {
        match self {
            Promotion::DirectDiscount(p) => p.budget,
            Promotion::PositionalDiscount(p) => p.budget,
            Promotion::MixAndMatchDiscount(p) => p.budget,
        }
    }

    /// Return whether this promotion _might_ apply to the given item group.
    pub fn is_applicable(&self, item_group: &ItemGroup) -> (r: bool)
        ensures
            r == self.applicable(item_group.items@),
    {
        match self {
            Promotion::DirectDiscount(p) => p.is_applicable(item_group),
            Promotion::PositionalDiscount(p) => p.is_applicable(item_group),
            Promotion::MixAndMatchDiscount(p) => p.is_applicable(item_group),
        }
    }
}

} // verus!
