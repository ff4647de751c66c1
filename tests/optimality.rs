use lattice::discounts::Discount;
use lattice::graph::{OutputMode, PromotionGraph, PromotionGraphBuilder};
use lattice::items::{Item, ItemGroup, ProductKey};
use lattice::layered::solve;
use lattice::money::{Currency, Money, Percentage};
use lattice::promotions::{
    DirectDiscountPromotion, MixAndMatchKind, MixAndMatchPromotion, PositionalDiscountPromotion, Promotion,
    PromotionKey,
};
use lattice::tags::TagCollection;

/// `p / q` rounded half to even, for `p >= 0`.
fn round_half_even(p: i64, q: i64) -> i64 {
    let f = p / q;
    let r = p % q;
    if 2 * r < q || (2 * r == q && f % 2 == 0) { f } else { f + 1 }
}

struct Lcg(u64);

impl Lcg {
    fn next(&mut self, bound: u64) -> u64 {
        self.0 = self.0.wrapping_mul(6364136223846793005).wrapping_add(1442695040888963407);
        (self.0 >> 33) % bound
    }
}

/// A bundle as the enumerator sees it: its items and what it saves.
struct Choice {
    items: Vec<usize>,
    saving: i64,
}

/// The largest saving of any set of disjoint choices.
fn best_saving(choices: &[Choice], used: &mut Vec<bool>, from: usize) -> i64 {
    if from == choices.len() {
        return 0;
    }
    let mut best = best_saving(choices, used, from + 1);
    let c = &choices[from];
    if c.items.iter().all(|&i| !used[i]) {
        for &i in &c.items {
            used[i] = true;
        }
        best = best.max(c.saving + best_saving(choices, used, from + 1));
        for &i in &c.items {
            used[i] = false;
        }
    }
    best
}

#[test]
fn solver_matches_exhaustive_enumeration() {
    let mut rng = Lcg(7);
    for round in 0..40 {
        let n = 1 + (round % 7) as usize;
        let prices: Vec<i64> = (0..n).map(|_| 50 + 5 * rng.next(30) as i64).collect();
        let tags: Vec<&str> = (0..n).map(|_| if rng.next(2) == 0 { "a" } else { "b" }).collect();
        let bundle_price = 100 + 10 * rng.next(20) as i64;

        let items: Vec<Item> = (0..n)
            .map(|i| Item::with_tags(ProductKey::default(), Money::from_minor(prices[i], Currency::gbp()), TagCollection::from_strs(&[tags[i]])))
            .collect();
        let promotions = vec![
            Promotion::DirectDiscount(DirectDiscountPromotion::new(
                PromotionKey { id: 1 },
                TagCollection::from_strs(&["a"]),
                Discount::PercentageOff(Percentage::from_percent(20).unwrap()),
            )),
            Promotion::PositionalDiscount(PositionalDiscountPromotion::new(
                PromotionKey { id: 2 },
                TagCollection::from_strs(&["b"]),
                2,
                vec![2],
                Discount::PercentageOff(Percentage::from_percent(50).unwrap()),
            )),
            Promotion::MixAndMatchDiscount(MixAndMatchPromotion::new(
                PromotionKey { id: 3 },
                vec![TagCollection::from_strs(&["a"]), TagCollection::from_strs(&["b"])],
                MixAndMatchKind::BundleTotal(Money::from_minor(bundle_price, Currency::gbp())),
            )),
        ];

        let mut choices = Vec::new();
        for i in 0..n {
            if tags[i] == "a" {
                choices.push(Choice { items: vec![i], saving: round_half_even(prices[i] * 20, 100) });
            }
        }
        for i in 0..n {
            for j in (i + 1)..n {
                if tags[i] == "b" && tags[j] == "b" {
                    let cheaper = prices[i].min(prices[j]);
                    choices.push(Choice { items: vec![i, j], saving: round_half_even(cheaper * 50, 100) });
                }
                let (a, b) = if tags[i] == "a" && tags[j] == "b" {
                    (i, j)
                } else if tags[i] == "b" && tags[j] == "a" {
                    (j, i)
                } else {
                    continue;
                };
                let total = prices[a] + prices[b];
                if bundle_price < total {
                    choices.push(Choice { items: vec![a, b], saving: total - bundle_price });
                }
            }
        }
        let expected = best_saving(&choices, &mut vec![false; n], 0);

        let mut builder = PromotionGraphBuilder::new();
        let root = builder.add_layer("only".to_string(), promotions, OutputMode::PassThrough);
        builder.set_root(root);
        let graph = PromotionGraph::from_builder(builder).unwrap();
        let group = ItemGroup::new(items, Currency::gbp()).unwrap();
        let result = solve(&graph, &group).unwrap();

        let subtotal: i64 = prices.iter().sum();
        assert_eq!(subtotal - result.total.minor, expected, "round {round}: prices {prices:?}, tags {tags:?}");
    }
}
