use lattice::money::{Currency, Money, MoneyError, Percentage, percent_of_minor};
use lattice::tags::TagCollection;

#[test]
fn percentage_rounds_half_to_even() {
    let half = Percentage::new(1, 2).unwrap();
    assert_eq!(percent_of_minor(25, half), 12);
    assert_eq!(percent_of_minor(35, half), 18);
    assert_eq!(percent_of_minor(-25, half), -12);
    assert_eq!(percent_of_minor(7, Percentage::new(1, 3).unwrap()), 2);
    assert_eq!(percent_of_minor(1 << 53, Percentage::new(1, 1).unwrap()), 1 << 53);
    assert!(Percentage::new(3, 2).is_none());
    assert!(Percentage::new(0, 0).is_none());
}

#[test]
fn money_arithmetic_checks_currency_and_overflow() {
    let a = Money::from_minor(100, Currency::gbp());
    let b = Money::from_minor(50, Currency::gbp());
    assert_eq!(a.add(&b), Ok(Money::from_minor(150, Currency::gbp())));
    assert_eq!(a.sub(&b), Ok(Money::from_minor(50, Currency::gbp())));
    assert_eq!(a.neg(), Ok(Money::from_minor(-100, Currency::gbp())));
    assert_eq!(a.mul_minor(3), Ok(Money::from_minor(300, Currency::gbp())));
    assert_eq!(a.percentage_of(Percentage::from_percent(15).unwrap()), Money::from_minor(15, Currency::gbp()));
    assert_eq!(a.add(&Money::from_minor(1, Currency::eur())), Err(MoneyError::CurrencyMismatch));
    assert_eq!(Money::from_minor(i64::MAX, Currency::gbp()).add(&b), Err(MoneyError::Overflow));
    assert_eq!(Money::from_minor(i64::MIN, Currency::gbp()).neg(), Err(MoneyError::Overflow));
    assert_eq!(b.less_than(&a), Ok(true));
    assert_eq!(b.less_than(&Money::from_minor(1, Currency::usd())), Err(MoneyError::CurrencyMismatch));
}

#[test]
fn tag_collections() {
    let ab = TagCollection::from_strs(&["a", "b", "a"]);
    let abc = TagCollection::from_strs(&["c", "b", "a"]);
    let upper = TagCollection::from_strs(&["A"]);
    assert_eq!(ab.tags.len(), 2);
    assert!(ab.is_subset_of(&abc));
    assert!(!abc.is_subset_of(&ab));
    assert!(!upper.is_subset_of(&abc));
    assert!(TagCollection::empty().is_subset_of(&ab));
    let both = abc.intersect(&TagCollection::from_strs(&["b", "z"]));
    assert_eq!(both.tags, vec!["b".to_string()]);
    assert!(ab.contains(&"a".to_string()));
    assert!(!ab.contains(&"c".to_string()));
}
