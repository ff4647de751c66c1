//! Discounts and the prices they produce.
use vstd::prelude::*;
use crate::money::{Money, Percentage, percent_of_minor, percentage_of};

verus! {

/// How a discount changes the price of one item.
#[derive(Clone, Copy, Debug, PartialEq, Eq, Structural)]
pub enum Discount {
    /// Takes `percentage_of(price, pct)` off the price.
    PercentageOff(Percentage),
    /// Takes a fixed amount off the price.
    AmountOff(Money),
    /// Replaces the price by a fixed amount, never above the price.
    AmountOverride(Money),
}

/// The discount of a direct discount promotion, as its configuration.
pub type SimpleDiscountConfig = Discount;

/// Why a discount could not be applied.
#[derive(Clone, Copy, Debug, PartialEq, Eq, Structural)]
pub enum DiscountError {
    CurrencyMismatch,
    Overflow,
    NegativeResult,
    PriceIncrease,
    InvalidPercentage,
}

/// The price that `d` gives an item priced `price`.
pub open spec fn discounted(d: Discount, price: Money) -> Result<Money, DiscountError> {
    if price.minor < 0 {
        Err(DiscountError::NegativeResult)
    } else {
        match d {
            Discount::PercentageOff(pct) => {
                if !pct.wf() {
                    Err(DiscountError::InvalidPercentage)
                } else {
                    Ok(
                        Money {
                            minor: (price.minor - percentage_of(price.minor as int, pct)) as i64,
                            currency: price.currency,
                        },
                    )
                }
            },
            Discount::AmountOff(amount) => {
                if amount.currency != price.currency {
                    Err(DiscountError::CurrencyMismatch)
                } else if amount.minor < 0 {
                    Err(DiscountError::PriceIncrease)
                } else if price.minor - amount.minor < 0 {
                    Err(DiscountError::NegativeResult)
                } else {
                    Ok(Money { minor: (price.minor - amount.minor) as i64, currency: price.currency })
                }
            },
            Discount::AmountOverride(amount) => {
                if amount.currency != price.currency {
                    Err(DiscountError::CurrencyMismatch)
                } else if amount.minor < 0 {
                    Err(DiscountError::NegativeResult)
                } else if amount.minor > price.minor {
                    Err(DiscountError::PriceIncrease)
                } else {
                    Ok(amount)
                }
            },
        }
    }
}

/// A discount never raises a price, never makes it negative and keeps its currency.
pub proof fn lemma_discount_lowers(d: Discount, price: Money)
    ensures
        discounted(d, price) is Ok ==> {
            let m = discounted(d, price)->Ok_0;
            &&& m.currency == price.currency
            &&& 0 <= m.minor <= price.minor
        },
{
    if let Discount::PercentageOff(pct) = d {
        if pct.wf() {
            crate::money::lemma_percentage_of_bounds(price.minor as int, pct);
        }
    }
}

impl Discount {
    /// The price of an item priced `price` after this discount.
    pub fn apply(&self, price: Money) -> (r: Result<Money, DiscountError>)
        ensures
            r == discounted(*self, price),
            r is Ok ==> r->Ok_0.currency == price.currency && 0 <= r->Ok_0.minor <= price.minor,
    {
        if price.minor < 0 {
            return Err(DiscountError::NegativeResult);
        }
        match self {
            Discount::PercentageOff(pct) => {
                if !(0 < pct.denominator && pct.numerator <= pct.denominator) {
                    return Err(DiscountError::InvalidPercentage);
                }
                let off = percent_of_minor(price.minor, *pct);
                Ok(Money { minor: price.minor - off, currency: price.currency })
            },
            Discount::AmountOff(amount) => {
                if amount.currency != price.currency {
                    Err(DiscountError::CurrencyMismatch)
                } else if amount.minor < 0 {
                    Err(DiscountError::PriceIncrease)
                } else if price.minor < amount.minor {
                    Err(DiscountError::NegativeResult)
                } else {
                    Ok(Money { minor: price.minor - amount.minor, currency: price.currency })
                }
            },
            Discount::AmountOverride(amount) => {
                if amount.currency != price.currency {
                    Err(DiscountError::CurrencyMismatch)
                } else if amount.minor < 0 {
                    Err(DiscountError::NegativeResult)
                } else if amount.minor > price.minor {
                    Err(DiscountError::PriceIncrease)
                } else {
                    Ok(*amount)
                }
            },
        }
    }
}

} // verus!
