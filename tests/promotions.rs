use lattice::discounts::{Discount, DiscountError, SimpleDiscountConfig};
use lattice::fixtures::{DiscountFixture, FixtureError, PromotionFixture, parse_percentage, parse_price};
use lattice::items::{Item, ItemGroup, ProductKey, cheapest_item, iter_by_price_desc, total_price};
use lattice::money::{Currency, Money, Percentage};
use lattice::promotions::{
    DirectDiscountPromotion, PositionalDiscountPromotion, Promotion, PromotionBudget, PromotionKey, PromotionKeys,
    SimpleDiscount,
};
use lattice::tags::TagCollection;

fn gbp(minor: i64) -> Money {
    Money::from_minor(minor, Currency::gbp())
}

fn fresh_key() -> PromotionKey {
    let mut keys = PromotionKeys::new();
    keys.insert().unwrap()
}

#[test]
fn promotion_fixture_rejects_unknown_type() {
    let fixture = PromotionFixture {
        promotion_type: "test".to_string(),
        name: "Test Promotion".to_string(),
        tags: vec![],
        discount: DiscountFixture {
            discount_type: "percentage_off_bundle_total".to_string(),
            percentage: Some("10%".to_string()),
            price: None,
        },
        size: None,
        positions: vec![],
        slots: vec![],
    };

    let result = fixture.try_into_promotion(PromotionKey::default());

    assert!(matches!(
        result,
        Err(FixtureError::UnsupportedPromotionType(ref msg)) if msg == "test"
    ));
}

#[test]
fn discount_fixture_rejects_unknown_discount_type() {
    let fixture = DiscountFixture { discount_type: "mystery_discount".to_string(), percentage: None, price: None };

    let result = fixture.try_into_discount();

    assert!(matches!(
        result,
        Err(FixtureError::UnsupportedPromotionType(ref msg)) if msg == "discount type: mystery_discount"
    ));
}

#[test]
fn parse_percentage_rejects_missing_percent_sign() {
    let result = parse_percentage("25");

    assert!(matches!(result, Err(FixtureError::InvalidPercentage(_))));
}

#[test]
fn parse_percentage_rejects_invalid_number() {
    let result = parse_percentage("oops%");

    assert!(matches!(result, Err(FixtureError::InvalidPercentage(_))));
}

#[test]
fn parse_percentage_accepts_percent_and_decimal_forms() {
    let p = parse_percentage("15%").unwrap();
    assert_eq!((p.numerator, p.denominator), (15, 100));
    let q = parse_percentage("0.25").unwrap();
    assert_eq!((q.numerator, q.denominator), (25, 100));
    assert!(parse_percentage("150%").is_err());
}

#[test]
fn parse_price_reads_amount_and_currency() {
    assert_eq!(parse_price("2.50 GBP").unwrap(), gbp(250));
    assert_eq!(parse_price("0.75 GBP").unwrap(), gbp(75));
    assert_eq!(parse_price("3 USD").unwrap(), Money::from_minor(300, Currency::usd()));
    assert!(matches!(parse_price("1.00 ZZZ"), Err(FixtureError::InvalidPrice(_))));
    assert!(matches!(parse_price("1.005 GBP"), Err(FixtureError::InvalidPrice(_))));
}

#[test]
fn discount_fixture_parses_amount_off_price() {
    let fixture = DiscountFixture {
        discount_type: "amount_off".to_string(),
        percentage: None,
        price: Some("0.75 GBP".to_string()),
    };

    let result = fixture.try_into_discount().unwrap();

    assert_eq!(result, Discount::AmountOff(gbp(75)));
}

#[test]
fn discount_fixture_requires_price_for_amount_override() {
    let fixture = DiscountFixture { discount_type: "amount_override".to_string(), percentage: None, price: None };

    assert!(matches!(fixture.try_into_discount(), Err(FixtureError::InvalidPrice(_))));
}

#[test]
fn promotion_fixture_builds_direct_discount() {
    let fixture = PromotionFixture {
        promotion_type: "direct_discount".to_string(),
        name: "Twenty off".to_string(),
        tags: vec!["a".to_string()],
        discount: DiscountFixture {
            discount_type: "percentage_off".to_string(),
            percentage: Some("20%".to_string()),
            price: None,
        },
        size: None,
        positions: vec![],
        slots: vec![],
    };
    let key = fresh_key();

    let (meta, promo) = fixture.try_into_promotion(key).unwrap();

    assert_eq!(meta.name, "Twenty off");
    assert_eq!(promo.key(), key);
    match promo {
        Promotion::DirectDiscount(d) => {
            assert_eq!(d.discount, Discount::PercentageOff(Percentage::new(20, 100).unwrap()));
            assert!(d.tags.contains(&"a".to_string()));
        },
        _ => panic!("expected a direct discount"),
    }
}

#[test]
fn test_unlimited_budget() {
    let budget = PromotionBudget::unlimited();

    assert!(!budget.has_constraints());
    assert!(budget.redemption_limit.is_none());
    assert!(budget.monetary_limit.is_none());
}

#[test]
fn test_redemption_limit_only() {
    let budget = PromotionBudget::with_redemption_limit(5);

    assert!(budget.has_constraints());
    assert_eq!(budget.redemption_limit, Some(5));
    assert!(budget.monetary_limit.is_none());
}

#[test]
fn test_monetary_limit_only() {
    let limit = gbp(1000);
    let budget = PromotionBudget::with_monetary_limit(limit);

    assert!(budget.has_constraints());
    assert!(budget.redemption_limit.is_none());
    assert_eq!(budget.monetary_limit, Some(limit));
}

#[test]
fn test_both_limits() {
    let limit = gbp(1000);
    let budget = PromotionBudget::with_both_limits(5, limit);

    assert!(budget.has_constraints());
    assert_eq!(budget.redemption_limit, Some(5));
    assert_eq!(budget.monetary_limit, Some(limit));
}

#[test]
fn key_delegates_to_inner_promotion_key() {
    let item_group = ItemGroup::new(Vec::new(), Currency::gbp()).unwrap();

    let key = fresh_key();

    let inner = DirectDiscountPromotion::new(key, TagCollection::empty(), Discount::AmountOverride(gbp(50)));

    let promo = Promotion::DirectDiscount(inner);

    assert_eq!(promo.key(), key);
    assert_ne!(promo.key(), PromotionKey::default());

    let _ = promo.is_applicable(&item_group);
}

#[test]
fn is_applicable_delegates_to_inner_promotion() {
    let item_group = ItemGroup::new(Vec::new(), Currency::gbp()).unwrap();

    let inner = DirectDiscountPromotion::new(
        PromotionKey::default(),
        TagCollection::empty(),
        Discount::AmountOverride(gbp(50)),
    );

    let promo = Promotion::DirectDiscount(inner);

    assert!(!promo.is_applicable(&item_group));
}

#[test]
fn key_delegates_to_positional_promotion() {
    let key = fresh_key();

    let inner =
        PositionalDiscountPromotion::new(key, TagCollection::empty(), 2, vec![1u16], Discount::AmountOff(gbp(50)));

    let promo = Promotion::PositionalDiscount(inner);

    assert_eq!(promo.key(), key);
    assert_ne!(promo.key(), PromotionKey::default());
}

#[test]
fn is_applicable_handles_positional_discount_tags() {
    let items = vec![Item::with_tags(ProductKey::default(), gbp(100), TagCollection::from_strs(&["fresh"]))];
    let item_group = ItemGroup::new(items, Currency::gbp()).unwrap();

    let inner = PositionalDiscountPromotion::new(
        PromotionKey::default(),
        TagCollection::from_strs(&["fresh"]),
        2,
        vec![1u16],
        Discount::AmountOff(gbp(10)),
    );

    let promo = Promotion::PositionalDiscount(inner);

    // One qualifying item cannot fill a bundle of two.
    assert!(!promo.is_applicable(&item_group));

    let two = vec![
        Item::with_tags(ProductKey::default(), gbp(100), TagCollection::from_strs(&["fresh"])),
        Item::with_tags(ProductKey::default(), gbp(80), TagCollection::from_strs(&["fresh", "red"])),
    ];
    assert!(promo.is_applicable(&ItemGroup::new(two, Currency::gbp()).unwrap()));
}

#[test]
fn key_returns_constructor_key() {
    let key = fresh_key();

    let promo = SimpleDiscount::new(key, TagCollection::empty(), SimpleDiscountConfig::AmountOverride(gbp(0)));

    assert_eq!(promo.key(), key);
    assert_eq!(*promo.config(), Discount::AmountOverride(gbp(0)));
    assert_ne!(promo.key(), PromotionKey::default());
}

#[test]
fn calculate_discounted_price_percentage() {
    let promo = SimpleDiscount::new(
        PromotionKey::default(),
        TagCollection::empty(),
        SimpleDiscountConfig::PercentageOff(Percentage::new(1, 4).unwrap()),
    );

    let item = Item::new(ProductKey::default(), gbp(100));
    let discounted = promo.calculate_discounted_price(&item).unwrap();

    assert_eq!(discounted, gbp(75));
}

#[test]
fn calculate_discounted_price_amount_override() {
    let promo =
        DirectDiscountPromotion::new(PromotionKey::default(), TagCollection::empty(), Discount::AmountOverride(gbp(50)));

    let item = Item::new(ProductKey::default(), gbp(100));
    let discounted = promo.calculate_discounted_price(&item).unwrap();

    assert_eq!(discounted, gbp(50));
}

#[test]
fn calculate_discounted_price_amount_discount_off() {
    let promo =
        DirectDiscountPromotion::new(PromotionKey::default(), TagCollection::empty(), Discount::AmountOff(gbp(25)));

    let item = Item::new(ProductKey::default(), gbp(100));
    let discounted = promo.calculate_discounted_price(&item).unwrap();

    assert_eq!(discounted, gbp(75));
}

#[test]
fn discount_errors() {
    let item = Item::new(ProductKey::default(), gbp(100));
    let off = DirectDiscountPromotion::new(PromotionKey::default(), TagCollection::empty(), Discount::AmountOff(gbp(150)));
    assert_eq!(off.calculate_discounted_price(&item), Err(DiscountError::NegativeResult));
    let up = DirectDiscountPromotion::new(
        PromotionKey::default(),
        TagCollection::empty(),
        Discount::AmountOverride(gbp(150)),
    );
    assert_eq!(up.calculate_discounted_price(&item), Err(DiscountError::PriceIncrease));
    let usd = DirectDiscountPromotion::new(
        PromotionKey::default(),
        TagCollection::empty(),
        Discount::AmountOff(Money::from_minor(10, Currency::usd())),
    );
    assert_eq!(usd.calculate_discounted_price(&item), Err(DiscountError::CurrencyMismatch));
    let bad = DirectDiscountPromotion::new(
        PromotionKey::default(),
        TagCollection::empty(),
        Discount::PercentageOff(Percentage { numerator: 3, denominator: 2 }),
    );
    assert_eq!(bad.calculate_discounted_price(&item), Err(DiscountError::InvalidPercentage));
}

#[test]
fn test_total_price() {
    let items = [Item::new(ProductKey::default(), gbp(100)), Item::new(ProductKey::default(), gbp(200))];

    assert_eq!(total_price(&items, Currency::gbp()), Ok(gbp(300)));
}

#[test]
fn test_cheapest_item() {
    let item_1 = Item::new(ProductKey::default(), gbp(100));
    let item_2 = Item::new(ProductKey::default(), gbp(200));
    let items = [item_1, item_2];

    assert_eq!(cheapest_item(&items).map(|i| i.price()), Some(gbp(100)));
}

#[test]
fn test_iter_by_price_desc() {
    let item_1 = Item::new(ProductKey::default(), gbp(100));
    let item_2 = Item::new(ProductKey::default(), gbp(300));
    let item_3 = Item::new(ProductKey::default(), gbp(200));
    let items = [item_1, item_2, item_3];

    let got: Vec<Money> = iter_by_price_desc(&items).into_iter().map(|i| items[i].price()).collect();

    assert_eq!(got, vec![gbp(300), gbp(200), gbp(100)]);
}

#[test]
fn discount_fixture_requires_percentage_for_percentage_off() {
    let fixture = DiscountFixture { discount_type: "percentage_off".to_string(), percentage: None, price: None };

    assert!(matches!(fixture.try_into_discount(), Err(FixtureError::InvalidPercentage(_))));
}

#[test]
fn positional_fixture_passes_discount_error_through() {
    let fixture = PromotionFixture {
        promotion_type: "positional_discount".to_string(),
        name: "Three for two".to_string(),
        tags: vec!["x".to_string()],
        discount: DiscountFixture { discount_type: "amount_override".to_string(), percentage: None, price: None },
        size: Some(3),
        positions: vec![3],
        slots: vec![],
    };

    assert!(matches!(fixture.try_into_promotion(fresh_key()), Err(FixtureError::InvalidPrice(_))));
}

#[test]
fn positional_fixture_builds_positional_discount() {
    let fixture = PromotionFixture {
        promotion_type: "positional_discount".to_string(),
        name: "Three for two".to_string(),
        tags: vec!["x".to_string()],
        discount: DiscountFixture {
            discount_type: "amount_override".to_string(),
            percentage: None,
            price: Some("0.00 GBP".to_string()),
        },
        size: Some(3),
        positions: vec![3],
        slots: vec![],
    };

    match fixture.try_into_promotion(fresh_key()).unwrap().1 {
        Promotion::PositionalDiscount(d) => {
            assert_eq!(d.size, 3);
            assert_eq!(d.positions, vec![3]);
            assert_eq!(d.discount, Discount::AmountOverride(gbp(0)));
        },
        _ => panic!("expected a positional discount"),
    }

    let no_size = PromotionFixture {
        promotion_type: "positional_discount".to_string(),
        name: "Broken".to_string(),
        tags: vec![],
        discount: DiscountFixture { discount_type: "amount_off".to_string(), percentage: None, price: Some("1 GBP".to_string()) },
        size: None,
        positions: vec![1],
        slots: vec![],
    };
    assert!(matches!(no_size.try_into_promotion(fresh_key()), Err(FixtureError::MissingField(_))));
}

#[test]
fn mix_and_match_fixture_builds_bundle_total() {
    let fixture = PromotionFixture {
        promotion_type: "mix_and_match_discount".to_string(),
        name: "Meal deal".to_string(),
        tags: vec![],
        discount: DiscountFixture {
            discount_type: "set_bundle_total_price".to_string(),
            percentage: None,
            price: Some("3.00 GBP".to_string()),
        },
        size: None,
        positions: vec![],
        slots: vec![vec!["main".to_string()], vec!["drink".to_string()]],
    };

    match fixture.try_into_promotion(fresh_key()).unwrap().1 {
        Promotion::MixAndMatchDiscount(d) => {
            assert_eq!(d.slots.len(), 2);
            assert!(d.slots[1].contains(&"drink".to_string()));
            assert_eq!(d.kind, lattice::promotions::MixAndMatchKind::BundleTotal(gbp(300)));
        },
        _ => panic!("expected a mix-and-match promotion"),
    }
}

#[test]
fn discount_fixture_requires_percentage_for_bundle_total() {
    let fixture = DiscountFixture {
        discount_type: "percentage_off_bundle_total".to_string(),
        percentage: None,
        price: None,
    };

    let result = fixture.try_into_bundle_kind();

    assert!(matches!(result, Err(FixtureError::InvalidPercentage(_))));
}

#[test]
fn discount_fixture_requires_price_for_bundle_total() {
    let fixture = DiscountFixture { discount_type: "set_bundle_total_price".to_string(), percentage: None, price: None };

    let result = fixture.try_into_bundle_kind();

    assert!(matches!(result, Err(FixtureError::InvalidPrice(_))));
}

#[test]
fn discount_fixture_parses_bundle_total_price() {
    let fixture = DiscountFixture {
        discount_type: "set_bundle_total_price".to_string(),
        percentage: None,
        price: Some("2.50 GBP".to_string()),
    };

    let result = fixture.try_into_bundle_kind().unwrap();

    assert!(matches!(
        result,
        lattice::promotions::MixAndMatchKind::BundleTotal(money) if money.to_minor_units() == 250
            && money.currency() == Currency::gbp()
    ));
}

#[test]
fn discount_fixture_parses_bundle_total_percentage() {
    let fixture = DiscountFixture {
        discount_type: "percentage_off_bundle_total".to_string(),
        percentage: Some("15%".to_string()),
        price: None,
    };

    let result = fixture.try_into_bundle_kind().unwrap();

    assert_eq!(result, lattice::promotions::MixAndMatchKind::PercentOffBundleTotal(Percentage::new(15, 100).unwrap()));
}
