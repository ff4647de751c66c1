use lattice::discounts::Discount;
use lattice::graph::{GraphError, Layer, OutputMode, PromotionGraph, PromotionGraphBuilder, SplitPredicate};
use lattice::items::{Item, ItemGroup, ProductKey};
use lattice::layered::{LayeredSolverResult, solve};
use lattice::money::{Currency, Money, Percentage};
use lattice::promotions::{
    DirectDiscountPromotion, MixAndMatchKind, MixAndMatchPromotion, PositionalDiscountPromotion, Promotion,
    PromotionBudget, PromotionKey,
};
use lattice::receipt::Receipt;
use lattice::solver::{SolveError, solve_layer};
use lattice::tags::TagCollection;

fn gbp(minor: i64) -> Money {
    Money::from_minor(minor, Currency::gbp())
}

fn item(price: i64, tags: &[&str]) -> Item {
    Item::with_tags(ProductKey::default(), gbp(price), TagCollection::from_strs(tags))
}

fn group(items: Vec<Item>) -> ItemGroup {
    ItemGroup::new(items, Currency::gbp()).unwrap()
}

fn pct(p: u64) -> Percentage {
    Percentage::from_percent(p).unwrap()
}

fn key(id: u64) -> PromotionKey {
    PromotionKey { id }
}

fn direct(id: u64, tags: &[&str], discount: Discount) -> Promotion {
    Promotion::DirectDiscount(DirectDiscountPromotion::new(key(id), TagCollection::from_strs(tags), discount))
}

fn positional(id: u64, tags: &[&str], size: u16, positions: Vec<u16>, discount: Discount) -> Promotion {
    Promotion::PositionalDiscount(PositionalDiscountPromotion::new(
        key(id),
        TagCollection::from_strs(tags),
        size,
        positions,
        discount,
    ))
}

fn single_layer(promotions: Vec<Promotion>) -> PromotionGraph {
    let mut b = PromotionGraphBuilder::new();
    let root = b.add_layer("only".to_string(), promotions, OutputMode::PassThrough);
    b.set_root(root);
    PromotionGraph::from_builder(b).unwrap()
}

fn finals(result: &LayeredSolverResult) -> Vec<Option<i64>> {
    result.item_redemptions.iter().map(|r| r.last().map(|x| x.final_price.minor)).collect()
}

#[test]
fn direct_discount_on_matching_items() {
    let g = single_layer(vec![direct(1, &["a"], Discount::PercentageOff(pct(20)))]);
    let basket = group(vec![item(100, &["a"]), item(100, &["a"]), item(100, &["b"])]);

    let result = solve(&g, &basket).unwrap();

    assert_eq!(result.total, gbp(260));
    assert_eq!(finals(&result), vec![Some(80), Some(80), None]);
    assert_eq!(result.full_price_items, vec![2]);
}

#[test]
fn positional_bundle_makes_cheapest_free() {
    let g = single_layer(vec![positional(1, &["x"], 3, vec![3], Discount::AmountOverride(gbp(0)))]);
    let basket = group(vec![item(300, &["x"]), item(200, &["x"]), item(100, &["x"])]);

    let result = solve(&g, &basket).unwrap();

    assert_eq!(result.total, gbp(500));
    assert_eq!(finals(&result), vec![Some(300), Some(200), Some(0)]);
    assert!(result.item_redemptions.iter().all(|r| r.len() == 1 && r[0].redemption_idx == 0));
}

#[test]
fn two_layers_pass_through() {
    let mut b = PromotionGraphBuilder::new();
    let first = b.add_layer(
        "first".to_string(),
        vec![positional(1, &["p"], 2, vec![2], Discount::PercentageOff(pct(50)))],
        OutputMode::PassThrough,
    );
    let second =
        b.add_layer("second".to_string(), vec![direct(2, &["q"], Discount::PercentageOff(pct(10)))], OutputMode::PassThrough);
    b.set_root(first);
    b.connect_pass_through(first, second);
    let g = PromotionGraph::from_builder(b).unwrap();
    let basket = group(vec![item(500, &["p"]), item(400, &["p"]), item(300, &["q"]), item(200, &["q"])]);

    let result = solve(&g, &basket).unwrap();

    assert_eq!(result.total, gbp(1150));
    assert_eq!(finals(&result)[1], Some(200));
    assert_eq!(finals(&result)[2], Some(270));
    assert_eq!(finals(&result)[3], Some(180));
    assert_eq!(result.item_redemptions[2][0].promotion_key, key(2));
}

#[test]
fn redemption_limit_keeps_lowest_index() {
    let mut promo = DirectDiscountPromotion::new(key(1), TagCollection::from_strs(&["a"]), Discount::PercentageOff(pct(50)));
    promo.budget = PromotionBudget::with_redemption_limit(1);
    let g = single_layer(vec![Promotion::DirectDiscount(promo)]);
    let basket = group(vec![item(1000, &["a"]), item(1000, &["a"])]);

    let result = solve(&g, &basket).unwrap();

    assert_eq!(result.total, gbp(1500));
    assert_eq!(finals(&result), vec![Some(500), None]);
}

#[test]
fn empty_layer_leaves_full_price() {
    let g = single_layer(vec![]);
    let basket = group(vec![item(100, &["x"]), item(100, &["y"]), item(100, &["z"])]);

    let result = solve(&g, &basket).unwrap();

    assert_eq!(result.total, gbp(300));
    assert_eq!(result.full_price_items, vec![0, 1, 2]);
}

#[test]
fn larger_saving_wins_on_shared_item() {
    let g = single_layer(vec![
        direct(1, &["a"], Discount::PercentageOff(pct(10))),
        direct(2, &["b"], Discount::PercentageOff(pct(20))),
    ]);
    let basket = group(vec![item(200, &["a", "b"])]);

    let result = solve(&g, &basket).unwrap();

    assert_eq!(result.total, gbp(160));
    assert_eq!(result.item_redemptions[0].len(), 1);
    assert_eq!(result.item_redemptions[0][0].promotion_key, key(2));
}

#[test]
fn empty_basket_costs_nothing() {
    let g = single_layer(vec![direct(1, &[], Discount::PercentageOff(pct(10)))]);
    let result = solve(&g, &group(vec![])).unwrap();
    assert_eq!(result.total, gbp(0));
    assert!(result.item_redemptions.is_empty());
    assert!(result.full_price_items.is_empty());
}

#[test]
fn positional_picks_best_triples() {
    let g = single_layer(vec![positional(1, &[], 3, vec![3], Discount::AmountOverride(gbp(0)))]);
    let basket = group(vec![item(10, &[]), item(8, &[]), item(8, &[]), item(5, &[]), item(5, &[])]);

    let result = solve(&g, &basket).unwrap();

    assert_eq!(result.total, gbp(28));
    assert_eq!(finals(&result), vec![Some(10), Some(8), Some(0), None, None]);
}

#[test]
fn positional_exhausts_multiple_of_size() {
    let g = single_layer(vec![positional(1, &[], 2, vec![2], Discount::PercentageOff(pct(50)))]);
    let basket = group(vec![item(40, &[]), item(30, &[]), item(20, &[]), item(10, &[])]);

    let result = solve(&g, &basket).unwrap();

    assert!(result.full_price_items.is_empty());
    assert_eq!(result.total, gbp(40 + 15 + 20 + 5));
    let idx: Vec<usize> = result.item_redemptions.iter().map(|r| r[0].redemption_idx).collect();
    assert_eq!(idx, vec![0, 0, 1, 1]);
}

#[test]
fn mix_and_match_with_contradictory_slot_forms_nothing() {
    let promo = MixAndMatchPromotion::new(
        key(1),
        vec![TagCollection::from_strs(&["main"]), TagCollection::from_strs(&["nowhere"])],
        MixAndMatchKind::BundleTotal(gbp(300)),
    );
    let g = single_layer(vec![Promotion::MixAndMatchDiscount(promo)]);
    let basket = group(vec![item(250, &["main"]), item(150, &["drink"])]);

    let result = solve(&g, &basket).unwrap();

    assert_eq!(result.total, gbp(400));
}

#[test]
fn mix_and_match_bundle_total_paid_in_slot_order() {
    let promo = MixAndMatchPromotion::new(
        key(1),
        vec![TagCollection::from_strs(&["main"]), TagCollection::from_strs(&["drink"])],
        MixAndMatchKind::BundleTotal(gbp(300)),
    );
    let g = single_layer(vec![Promotion::MixAndMatchDiscount(promo)]);
    let basket = group(vec![item(250, &["main"]), item(150, &["drink"])]);

    let result = solve(&g, &basket).unwrap();

    assert_eq!(result.total, gbp(300));
    assert_eq!(finals(&result), vec![Some(250), Some(50)]);
}

#[test]
fn mix_and_match_percent_off_bundle_total() {
    let promo = MixAndMatchPromotion::new(
        key(1),
        vec![TagCollection::from_strs(&["main"]), TagCollection::from_strs(&["drink"])],
        MixAndMatchKind::PercentOffBundleTotal(pct(25)),
    );
    let g = single_layer(vec![Promotion::MixAndMatchDiscount(promo)]);
    let basket = group(vec![item(300, &["main"]), item(100, &["drink"])]);

    let result = solve(&g, &basket).unwrap();

    assert_eq!(result.total, gbp(300));
}

#[test]
fn monetary_limit_caps_savings() {
    let mut promo = DirectDiscountPromotion::new(key(1), TagCollection::from_strs(&["a"]), Discount::AmountOff(gbp(30)));
    promo.budget = PromotionBudget::with_monetary_limit(gbp(70));
    let g = single_layer(vec![Promotion::DirectDiscount(promo)]);
    let basket = group(vec![item(100, &["a"]), item(100, &["a"]), item(100, &["a"])]);

    let result = solve(&g, &basket).unwrap();

    assert_eq!(result.total, gbp(240));
    assert_eq!(result.full_price_items, vec![2]);
}

#[test]
fn split_layer_routes_by_tags() {
    let mut b = PromotionGraphBuilder::new();
    let root = b.add_layer("root".to_string(), vec![], OutputMode::Split);
    let fresh =
        b.add_layer("fresh".to_string(), vec![direct(1, &[], Discount::PercentageOff(pct(50)))], OutputMode::PassThrough);
    let other =
        b.add_layer("other".to_string(), vec![direct(2, &[], Discount::PercentageOff(pct(10)))], OutputMode::PassThrough);
    b.set_root(root);
    b.connect_split(root, SplitPredicate::requiring(TagCollection::from_strs(&["fresh"])), fresh);
    b.connect_split_default(root, other);
    let g = PromotionGraph::from_builder(b).unwrap();
    let basket = group(vec![item(100, &["fresh"]), item(100, &["tin"])]);

    let result = solve(&g, &basket).unwrap();

    assert_eq!(finals(&result), vec![Some(50), Some(90)]);
    assert_eq!(result.total, gbp(140));
}

#[test]
fn locked_items_are_not_redeemed_again() {
    let mut b = PromotionGraphBuilder::new();
    let first = b.add_layer("first".to_string(), vec![direct(1, &["a"], Discount::PercentageOff(pct(50)))], OutputMode::PassThrough);
    let second = b.add_layer("second".to_string(), vec![direct(2, &[], Discount::PercentageOff(pct(50)))], OutputMode::PassThrough);
    b.set_root(first);
    b.connect_pass_through(first, second);
    let g = PromotionGraph::from_builder(b).unwrap();
    let basket = group(vec![item(100, &["a"]), item(100, &["b"])]);

    let result = solve(&g, &basket).unwrap();

    assert_eq!(result.item_redemptions[0].len(), 1);
    assert_eq!(result.item_redemptions[0][0].promotion_key, key(1));
    assert_eq!(result.total, gbp(100));
}

#[test]
fn receipt_savings_add_up() {
    let mut b = PromotionGraphBuilder::new();
    let first = b.add_layer(
        "first".to_string(),
        vec![positional(1, &["p"], 2, vec![2], Discount::PercentageOff(pct(50)))],
        OutputMode::PassThrough,
    );
    let second =
        b.add_layer("second".to_string(), vec![direct(2, &["q"], Discount::PercentageOff(pct(10)))], OutputMode::PassThrough);
    b.set_root(first);
    b.connect_pass_through(first, second);
    let g = PromotionGraph::from_builder(b).unwrap();
    let basket = group(vec![item(500, &["p"]), item(400, &["p"]), item(300, &["q"]), item(200, &["q"])]);
    let result = solve(&g, &basket).unwrap();

    let receipt = Receipt::from_result(&basket, &result).unwrap();

    let savings: i64 =
        receipt.promotion_redemptions.iter().map(|r| r.original_price.minor - r.final_price.minor).sum();
    assert_eq!(receipt.subtotal, gbp(1400));
    assert_eq!(receipt.total, gbp(1150));
    assert_eq!(receipt.subtotal.minor - receipt.total.minor, savings);
}

#[test]
fn solving_twice_gives_the_same_result() {
    let g = single_layer(vec![
        positional(1, &[], 2, vec![2], Discount::PercentageOff(pct(50))),
        direct(2, &["a"], Discount::AmountOff(gbp(5))),
    ]);
    let basket = group(vec![item(30, &["a"]), item(30, &[]), item(20, &["a"]), item(20, &[])]);

    let first = solve(&g, &basket).unwrap();
    let second = solve(&g, &basket).unwrap();

    assert_eq!(format!("{:?}", first), format!("{:?}", second));
}

#[test]
fn optimum_matches_brute_force() {
    // Three items, a "2 for 1.5" positional and a direct discount on one tag:
    // the best is the pair {50, 40} at half off the 40 plus 10 off the 30.
    let g = single_layer(vec![
        positional(1, &[], 2, vec![2], Discount::PercentageOff(pct(50))),
        direct(2, &["c"], Discount::AmountOff(gbp(10))),
    ]);
    let basket = group(vec![item(50, &[]), item(40, &[]), item(30, &["c"])]);

    let result = solve(&g, &basket).unwrap();

    assert_eq!(result.total, gbp(50 + 20 + 20));
}

#[test]
fn currency_and_total_invariants() {
    let g = single_layer(vec![direct(1, &[], Discount::PercentageOff(pct(30)))]);
    let basket = group(vec![item(99, &[]), item(1, &[])]);
    let result = solve(&g, &basket).unwrap();
    assert_eq!(result.total.currency, Currency::gbp());
    assert!(result.total.minor >= 0 && result.total.minor <= 100);
    for i in 0..2usize {
        assert!(result.full_price_items.contains(&i) != !result.item_redemptions[i].is_empty());
    }
}

#[test]
fn solve_errors() {
    let g = single_layer(vec![positional(7, &[], 0, vec![], Discount::PercentageOff(pct(10)))]);
    assert_eq!(solve(&g, &group(vec![item(10, &[])])).unwrap_err(), SolveError::Infeasible(key(7)));

    let g = single_layer(vec![direct(3, &[], Discount::AmountOff(gbp(50)))]);
    assert_eq!(solve(&g, &group(vec![item(10, &[])])).unwrap_err(), SolveError::InvalidPromotion(key(3)));

    let g = single_layer(vec![]);
    let mixed = ItemGroup { items: vec![item(10, &[]), Item::new(ProductKey::default(), Money::from_minor(5, Currency::eur()))], currency: Currency::gbp() };
    assert_eq!(solve(&g, &mixed).unwrap_err(), SolveError::CurrencyMismatch);
    assert!(ItemGroup::new(mixed.items.clone(), Currency::gbp()).is_err());

    let negative = group(vec![item(-1, &[])]);
    assert_eq!(solve(&g, &negative).unwrap_err(), SolveError::NegativePrice);

    let huge = group(vec![item(i64::MAX, &[]), item(1, &[])]);
    assert_eq!(solve(&g, &huge).unwrap_err(), SolveError::Overflow);
}

#[test]
fn solve_layer_alone_equals_single_layer_graph() {
    let promos = vec![direct(1, &["a"], Discount::PercentageOff(pct(20)))];
    let items = vec![item(100, &["a"]), item(100, &["b"])];
    let bundles = solve_layer(&promos, &items, Currency::gbp()).unwrap();
    assert_eq!(bundles.len(), 1);
    assert_eq!(bundles[0].members, vec![0]);
    assert_eq!(bundles[0].finals, vec![80]);
    let result = solve(&single_layer(promos), &group(items)).unwrap();
    assert_eq!(result.total, gbp(180));
}

#[test]
fn graph_validation_errors() {
    let b = PromotionGraphBuilder::new();
    assert_eq!(PromotionGraph::from_builder(b).unwrap_err(), GraphError::MissingRoot);

    let mut b = PromotionGraphBuilder::new();
    let x = b.add_layer("x".to_string(), vec![], OutputMode::PassThrough);
    let y = b.add_layer("y".to_string(), vec![], OutputMode::PassThrough);
    b.set_root(x);
    b.connect_pass_through(x, y);
    b.connect_pass_through(y, x);
    assert_eq!(PromotionGraph::from_builder(b).unwrap_err(), GraphError::Cycle);

    let mut b = PromotionGraphBuilder::new();
    let x = b.add_layer("x".to_string(), vec![], OutputMode::PassThrough);
    b.add_layer("y".to_string(), vec![], OutputMode::PassThrough);
    b.set_root(x);
    assert_eq!(PromotionGraph::from_builder(b).unwrap_err(), GraphError::Unreachable);

    let mut b = PromotionGraphBuilder::new();
    let x = b.add_layer("x".to_string(), vec![], OutputMode::PassThrough);
    let y = b.add_layer("y".to_string(), vec![], OutputMode::PassThrough);
    let z = b.add_layer("z".to_string(), vec![], OutputMode::PassThrough);
    b.set_root(x);
    b.connect_pass_through(x, y);
    b.connect_pass_through(x, z);
    assert_eq!(PromotionGraph::from_builder(b).unwrap_err(), GraphError::PassThroughFanOut);

    let mut b = PromotionGraphBuilder::new();
    let x = b.add_layer("x".to_string(), vec![], OutputMode::PassThrough);
    b.add_layer("x".to_string(), vec![], OutputMode::PassThrough);
    b.set_root(x);
    assert_eq!(PromotionGraph::from_builder(b).unwrap_err(), GraphError::DuplicateLayer);

    let mut b = PromotionGraphBuilder::new();
    let x = b.add_layer("x".to_string(), vec![], OutputMode::Split);
    let y = b.add_layer("y".to_string(), vec![], OutputMode::PassThrough);
    b.set_root(x);
    b.connect_split(x, SplitPredicate::requiring(TagCollection::from_strs(&["a"])), y);
    b.connect_split(x, SplitPredicate::requiring(TagCollection::from_strs(&["a", "b"])), y);
    assert_eq!(PromotionGraph::from_builder(b).unwrap_err(), GraphError::OverlappingPredicates);

    // An item tagged both x and y would pass both predicates.
    let mut b = PromotionGraphBuilder::new();
    let x = b.add_layer("x".to_string(), vec![], OutputMode::Split);
    let y = b.add_layer("y".to_string(), vec![], OutputMode::PassThrough);
    let z = b.add_layer("z".to_string(), vec![], OutputMode::PassThrough);
    b.set_root(x);
    b.connect_split(x, SplitPredicate::requiring(TagCollection::from_strs(&["x"])), y);
    b.connect_split(x, SplitPredicate::requiring(TagCollection::from_strs(&["y"])), z);
    assert_eq!(PromotionGraph::from_builder(b).unwrap_err(), GraphError::OverlappingPredicates);

    // Requiring x and excluding x cannot both hold.
    let mut b = PromotionGraphBuilder::new();
    let x = b.add_layer("x".to_string(), vec![], OutputMode::Split);
    let y = b.add_layer("y".to_string(), vec![], OutputMode::PassThrough);
    let z = b.add_layer("z".to_string(), vec![], OutputMode::PassThrough);
    b.set_root(x);
    b.connect_split(x, SplitPredicate::requiring(TagCollection::from_strs(&["x"])), y);
    b.connect_split(
        x,
        SplitPredicate { all_of: TagCollection::empty(), none_of: TagCollection::from_strs(&["x"]) },
        z,
    );
    assert!(PromotionGraph::from_builder(b).is_ok());

    let layers = vec![
        Layer { name: "one".to_string(), promotions: vec![], output_mode: OutputMode::PassThrough },
        Layer { name: "two".to_string(), promotions: vec![], output_mode: OutputMode::PassThrough },
    ];
    let g = PromotionGraph::linear(layers).unwrap();
    assert_eq!(g.order(), &vec![0, 1]);
    assert_eq!(PromotionGraph::linear(vec![]).unwrap_err(), GraphError::MissingRoot);
}

#[test]
fn medium_basket_with_overlapping_promotions() {
    let g = single_layer(vec![
        direct(1, &[], Discount::PercentageOff(pct(10))),
        positional(2, &[], 2, vec![2], Discount::PercentageOff(pct(50))),
    ]);
    let items: Vec<Item> = (0..20).map(|i| item(100 + 10 * i, &[])).collect();
    let basket = group(items);

    let result = solve(&g, &basket).unwrap();

    // Pairing neighbours by price halves the cheaper of each pair; that beats ten percent off everything.
    let subtotal: i64 = (0..20).map(|i| 100 + 10 * i).sum();
    let pairs: i64 = (0..10).map(|k| (100 + 10 * (2 * k)) / 2).sum();
    assert_eq!(result.total, gbp(subtotal - pairs));
}

#[test]
fn receipt_groups_redemptions_by_bundle() {
    let g = single_layer(vec![positional(1, &[], 2, vec![2], Discount::PercentageOff(pct(50)))]);
    let basket = group(vec![item(40, &[]), item(10, &[]), item(30, &[]), item(20, &[])]);
    let result = solve(&g, &basket).unwrap();

    let receipt = Receipt::from_result(&basket, &result).unwrap();

    let order: Vec<(usize, usize)> =
        receipt.promotion_redemptions.iter().map(|r| (r.item_index, r.redemption_idx)).collect();
    assert_eq!(order, vec![(0, 0), (2, 0), (1, 1), (3, 1)]);
    assert_eq!(receipt.total, gbp(40 + 15 + 20 + 5));
}

#[test]
fn graph_rejects_shared_promotion_keys() {
    let mut b = PromotionGraphBuilder::new();
    let first = b.add_layer("first".to_string(), vec![direct(1, &["a"], Discount::PercentageOff(pct(10)))], OutputMode::PassThrough);
    let second = b.add_layer("second".to_string(), vec![direct(1, &["b"], Discount::PercentageOff(pct(20)))], OutputMode::PassThrough);
    b.set_root(first);
    b.connect_pass_through(first, second);
    assert_eq!(PromotionGraph::from_builder(b).unwrap_err(), GraphError::DuplicatePromotionKey);
}

#[test]
fn budgets_hold_across_layers() {
    let mut limited = DirectDiscountPromotion::new(key(1), TagCollection::from_strs(&["a"]), Discount::AmountOff(gbp(30)));
    limited.budget = PromotionBudget::with_both_limits(2, gbp(50));
    let mut b = PromotionGraphBuilder::new();
    let first = b.add_layer("first".to_string(), vec![Promotion::DirectDiscount(limited)], OutputMode::PassThrough);
    let second = b.add_layer("second".to_string(), vec![direct(2, &["a"], Discount::AmountOff(gbp(10)))], OutputMode::PassThrough);
    b.set_root(first);
    b.connect_pass_through(first, second);
    let g = PromotionGraph::from_builder(b).unwrap();
    let basket = group(vec![item(100, &["a"]), item(100, &["a"]), item(100, &["a"])]);

    let result = solve(&g, &basket).unwrap();

    let limited_savings: i64 = result
        .item_redemptions
        .iter()
        .flatten()
        .filter(|r| r.promotion_key == key(1))
        .map(|r| r.original_price.minor - r.final_price.minor)
        .sum();
    assert_eq!(limited_savings, 30);
    assert_eq!(result.total, gbp(300 - 30 - 10 - 10));
}
