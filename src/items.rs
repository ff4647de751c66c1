//! Items, baskets of items and price ordering.
use vstd::prelude::*;
use crate::money::{Currency, Money, MoneyError, fits_i64};
use crate::tags::TagCollection;

verus! {

/// A stable handle for a product of the catalogue.
#[derive(Clone, Copy, Debug, PartialEq, Eq, Structural)]
pub struct ProductKey {
    pub id: u64,
}

impl Default for ProductKey {
    fn default() -> (r: ProductKey)
        ensures
            r.id == 0,
    {
        ProductKey { id: 0 }
    }
}

/// A product of the catalogue.
#[derive(Clone, Debug)]
pub struct Product {
    pub key: ProductKey,
    pub name: String,
    pub base_price: Money,
    pub tags: TagCollection,
}

/// A priced, tagged line of a basket.
#[derive(Clone, Debug)]
pub struct Item {
    pub product: ProductKey,
    pub price: Money,
    pub tags: TagCollection,
}

impl Item {
    /// An item without tags.
    pub fn new(product: ProductKey, price: Money) -> (r: Item)
        ensures
            r.product == product,
            r.price == price,
            r.tags@ == Set::<Seq<char>>::empty(),
    {
        Item { product, price, tags: TagCollection::empty() }
    }

    /// An item with the given tags.
    pub fn with_tags(product: ProductKey, price: Money, tags: TagCollection) -> (r: Item)
        ensures
            r.product == product,
            r.price == price,
            r.tags@ == tags@,
    {
        Item { product, price, tags }
    }

    /// An item of `product` at its base price, with its tags.
    pub fn from_product(product: &Product) -> (r: Item)
        ensures
            r.product == product.key,
            r.price == product.base_price,
            r.tags@ == product.tags@,
    {
        let tags = TagCollection::from_strings(&product.tags.tags);
        assert(tags@ =~= product.tags@);
        Item { product: product.key, price: product.base_price, tags }
    }

    /// The price of the item.
    pub fn price(&self) -> (r: Money)
        ensures
            r == self.price,
    {
        self.price
    }
}

/// The sum of the prices of `items`, in minor units.
pub open spec fn sum_prices(items: Seq<Item>) -> int
    decreases items.len(),
{
    if items.len() == 0 {
        0
    } else {
        sum_prices(items.drop_last()) + items.last().price.minor
    }
}

/// Whether every item is priced in `currency`.
pub open spec fn all_in_currency(items: Seq<Item>, currency: Currency) -> bool {
    forall|i: int| 0 <= i < items.len() ==> (#[trigger] items[i]).price.currency == currency
}

/// The items of a basket, all priced in the basket's currency.
#[derive(Clone, Debug)]
pub struct ItemGroup {
    pub items: Vec<Item>,
    pub currency: Currency,
}

impl ItemGroup {
    pub open spec fn wf(&self) -> bool {
        all_in_currency(self.items@, self.currency)
    }

    /// A basket of `items` in `currency`; an item in another currency is refused.
    pub fn new(items: Vec<Item>, currency: Currency) -> (r: Result<ItemGroup, MoneyError>)
        ensures
            r is Ok <==> all_in_currency(items@, currency),
            r is Ok ==> r->Ok_0.items@ == items@ && r->Ok_0.currency == currency && r->Ok_0.wf(),
            r is Err ==> r->Err_0 == MoneyError::CurrencyMismatch,
    {
        let mut i: usize = 0;
        while i < items.len()
            invariant
                i <= items.len(),
                forall|j: int| 0 <= j < i ==> (#[trigger] items@[j]).price.currency == currency,
            decreases items.len() - i,
        {
            if items[i].price.currency != currency {
                return Err(MoneyError::CurrencyMismatch);
            }
            i += 1;
        }
        Ok(ItemGroup { items, currency })
    }

    /// The number of items.
    pub fn len(&self) -> (r: usize)
        ensures
            r == self.items@.len(),
    {
        self.items.len()
    }
}

/// The total price of `items` in `currency`.
pub fn total_price(items: &[Item], currency: Currency) -> (r: Result<Money, MoneyError>)
    ensures
        !all_in_currency(items@, currency) ==> r == Err::<Money, MoneyError>(MoneyError::CurrencyMismatch),
        all_in_currency(items@, currency) ==> r == (if fits_i64(sum_prices(items@)) {
            Ok(Money { minor: sum_prices(items@) as i64, currency })
        } else {
            Err(MoneyError::Overflow)
        }),
{
    let mut acc: i128 = 0;
    let mut i: usize = 0;
    while i < items.len()
        invariant
            i <= items@.len(),
            acc == sum_prices(items@.subrange(0, i as int)),
            -(i * 0x8000_0000_0000_0000) <= acc <= i * 0x8000_0000_0000_0000,
            forall|j: int| 0 <= j < i ==> (#[trigger] items@[j]).price.currency == currency,
        decreases items.len() - i,
    {
        if items[i].price.currency != currency {
            return Err(MoneyError::CurrencyMismatch);
        }
        proof {
            assert(items@.subrange(0, i + 1).drop_last() =~= items@.subrange(0, i as int));
            assert(i + 1 <= 0xffff_ffff_ffff_ffff);
            assert((i + 1) * 0x8000_0000_0000_0000 <= 0xffff_ffff_ffff_ffff * 0x8000_0000_0000_0000) by (nonlinear_arith)
                requires i + 1 <= 0xffff_ffff_ffff_ffff;
        }
        acc = acc + items[i].price.minor as i128;
        i += 1;
    }
    assert(items@.subrange(0, items@.len() as int) =~= items@);
    if acc < i64::MIN as i128 || acc > i64::MAX as i128 {
        Err(MoneyError::Overflow)
    } else {
        Ok(Money { minor: acc as i64, currency })
    }
}

/// The first of the cheapest items, or `None` for no items.
pub fn cheapest_item(items: &[Item]) -> (r: Option<&Item>)
    ensures
        items@.len() == 0 <==> r is None,
        r is Some ==> exists|k: int|
            0 <= k < items@.len() && items@[k] == *r->Some_0
                && (forall|j: int| 0 <= j < items@.len() ==> (#[trigger] items@[j]).price.minor >= items@[k].price.minor)
                && (forall|j: int| 0 <= j < k ==> (#[trigger] items@[j]).price.minor > items@[k].price.minor),
{
    if items.len() == 0 {
        return None;
    }
    let mut best: usize = 0;
    let mut i: usize = 1;
    while i < items.len()
        invariant
            1 <= i <= items@.len(),
            best < i,
            forall|j: int| 0 <= j < i ==> (#[trigger] items@[j]).price.minor >= items@[best as int].price.minor,
            forall|j: int| 0 <= j < best ==> (#[trigger] items@[j]).price.minor > items@[best as int].price.minor,
        decreases items.len() - i,
    {
        if items[i].price.minor < items[best].price.minor {
            best = i;
        }
        i += 1;
    }
    Some(&items[best])
}

/// Whether index `a` comes before index `b` in descending price order,
/// ties broken by ascending index.
pub open spec fn price_before(items: Seq<Item>, a: int, b: int) -> bool {
    items[a].price.minor > items[b].price.minor || (items[a].price.minor == items[b].price.minor && a < b)
}

/// Whether `order` lists indices of `items` in descending price order.
pub open spec fn sorted_by_price_desc(items: Seq<Item>, order: Seq<usize>) -> bool {
    forall|i: int, j: int| 0 <= i < j < order.len() ==> price_before(items, #[trigger] order[i] as int, #[trigger] order[j] as int)
}

/// The indices `members`, reordered by descending price, ties by ascending index.
pub fn sort_by_price_desc(items: &[Item], members: &Vec<usize>) -> (r: Vec<usize>)
    requires
        forall|i: int| 0 <= i < members@.len() ==> (#[trigger] members@[i]) < items@.len(),
        members@.no_duplicates(),
    ensures
        r@.len() == members@.len(),
        r@.to_set() == members@.to_set(),
        r@.no_duplicates(),
        sorted_by_price_desc(items@, r@),
{
    let mut r: Vec<usize> = Vec::new();
    let mut k: usize = 0;
    while k < members.len()
        invariant
            k <= members@.len(),
            r@.len() == k,
            r@.to_set() == members@.subrange(0, k as int).to_set(),
            r@.no_duplicates(),
            forall|i: int| 0 <= i < r@.len() ==> (#[trigger] r@[i]) < items@.len(),
            sorted_by_price_desc(items@, r@),
            forall|i: int| 0 <= i < members@.len() ==> (#[trigger] members@[i]) < items@.len(),
            members@.no_duplicates(),
        decreases members@.len() - k,
    {
        let x = members[k];
        proof {
            assert(!members@.subrange(0, k as int).contains(x)) by {
                if members@.subrange(0, k as int).contains(x) {
                    let j = choose|j: int| 0 <= j < k && members@.subrange(0, k as int)[j] == x;
                    assert(members@[j] == members@[k as int]);
                }
            }
            assert(!r@.to_set().contains(x));
            assert(!r@.contains(x));
        }
        let mut pos: usize = 0;
        while pos < r.len() && (items[r[pos]].price.minor > items[x].price.minor
            || (items[r[pos]].price.minor == items[x].price.minor && r[pos] < x))
            invariant
                pos <= r@.len(),
                forall|i: int| 0 <= i < pos ==> price_before(items@, #[trigger] r@[i] as int, x as int),
                forall|i: int| 0 <= i < r@.len() ==> (#[trigger] r@[i]) < items@.len(),
                x < items@.len(),
            decreases r@.len() - pos,
        {
            pos += 1;
        }
        let ghost old_r = r@;
        proof {
            if pos < old_r.len() {
                assert(!price_before(items@, old_r[pos as int] as int, x as int));
                assert(old_r[pos as int] != x);
                assert forall|i: int| pos <= i < old_r.len() implies price_before(items@, x as int, #[trigger] old_r[i] as int) by {
                    if i > pos {
                        assert(price_before(items@, old_r[pos as int] as int, old_r[i] as int));
                    }
                    assert(old_r[i] != x) by {
                        assert(old_r.contains(old_r[i]));
                    }
                }
            }
        }
        r.insert(pos, x);
        proof {
            assert(r@ == old_r.insert(pos as int, x));
            assert forall|i: int, j: int| 0 <= i < j < r@.len() implies price_before(items@, #[trigger] r@[i] as int, #[trigger] r@[j] as int) by {
                if i < pos && j == pos {
                } else if i == pos && j > pos {
                    assert(r@[j] == old_r[j - 1]);
                } else if i < pos && j > pos {
                    assert(r@[j] == old_r[j - 1]);
                } else if j < pos {
                } else {
                    assert(r@[i] == old_r[i - 1]);
                    assert(r@[j] == old_r[j - 1]);
                }
            }
            assert(members@.subrange(0, k + 1) =~= members@.subrange(0, k as int).push(x));
            assert(r@.to_set() =~= old_r.to_set().insert(x)) by {
                assert forall|y: usize| r@.to_set().contains(y) <==> old_r.to_set().insert(x).contains(y) by {
                    if r@.contains(y) {
                        let i = choose|i: int| 0 <= i < r@.len() && r@[i] == y;
                        if i < pos {
                            assert(old_r[i] == y);
                        } else if i > pos {
                            assert(old_r[i - 1] == y);
                        }
                    }
                    if old_r.contains(y) {
                        let i = choose|i: int| 0 <= i < old_r.len() && old_r[i] == y;
                        if i < pos {
                            assert(r@[i] == y);
                        } else {
                            assert(r@[i + 1] == y);
                        }
                    }
                    if y == x {
                        assert(r@[pos as int] == x);
                    }
                }
            }
            vstd::seq_lib::lemma_seq_contains_after_push(members@.subrange(0, k as int), x, x);
            assert(members@.subrange(0, k as int).push(x).to_set() =~= members@.subrange(0, k as int).to_set().insert(x)) by {
                assert forall|y: usize| members@.subrange(0, k as int).push(x).to_set().contains(y) <==> members@.subrange(0, k as int).to_set().insert(x).contains(y) by {
                    vstd::seq_lib::lemma_seq_contains_after_push(members@.subrange(0, k as int), x, y);
                }
            }
            assert(r@.no_duplicates()) by {
                assert forall|i: int, j: int| 0 <= i < r@.len() && 0 <= j < r@.len() && i != j implies r@[i] != r@[j] by {
                    if i != pos && j != pos {
                        let oi = if i < pos { i } else { i - 1 };
                        let oj = if j < pos { j } else { j - 1 };
                        assert(r@[i] == old_r[oi]);
                        assert(r@[j] == old_r[oj]);
                    } else if i == pos {
                        let oj = if j < pos { j } else { j - 1 };
                        assert(r@[j] == old_r[oj]);
                        assert(old_r.contains(old_r[oj]));
                    } else {
                        let oi = if i < pos { i } else { i - 1 };
                        assert(r@[i] == old_r[oi]);
                        assert(old_r.contains(old_r[oi]));
                    }
                }
            }
        }
        k += 1;
    }
    assert(members@.subrange(0, members@.len() as int) =~= members@);
    r
}

/// The indices of `items` in descending price order, ties by ascending index.
pub fn iter_by_price_desc(items: &[Item]) -> (r: Vec<usize>)
    ensures
        r@.len() == items@.len(),
        r@.to_set() == Set::new(|i: usize| i < items@.len()),
        r@.no_duplicates(),
        sorted_by_price_desc(items@, r@),
{
    let mut all: Vec<usize> = Vec::new();
    let mut i: usize = 0;
    while i < items.len()
        invariant
            i <= items@.len(),
            all@.len() == i,
            forall|j: int| 0 <= j < i ==> (#[trigger] all@[j]) == j,
        decreases items@.len() - i,
    {
        all.push(i);
        i += 1;
    }
    assert(all@.no_duplicates());
    let r = sort_by_price_desc(items, &all);
    assert(r@.to_set() =~= Set::new(|i: usize| i < items@.len())) by {
        assert forall|y: usize| all@.to_set().contains(y) <==> y < items@.len() by {
            if y < items@.len() {
                assert(all@[y as int] == y);
            }
        }
    }
    r
}

} // verus!
