//! Money in minor units of one currency, and exact percentages.
use vstd::prelude::*;

verus! {

/// A currency, identified by its ISO-4217 numeric code, with the number of
/// decimal digits of its minor unit.
#[derive(Clone, Copy, Debug, PartialEq, Eq, Structural)]
pub struct Currency {
    pub numeric: u16,
    pub exponent: u8,
}

impl Currency {
    /// Pound sterling.
    pub fn gbp() -> (r: Currency)
        ensures
            r == (Currency { numeric: 826, exponent: 2 }),
    {
        Currency { numeric: 826, exponent: 2 }
    }

    /// Euro.
    pub fn eur() -> (r: Currency)
        ensures
            r == (Currency { numeric: 978, exponent: 2 }),
    {
        Currency { numeric: 978, exponent: 2 }
    }

    /// United States dollar.
    pub fn usd() -> (r: Currency)
        ensures
            r == (Currency { numeric: 840, exponent: 2 }),
    {
        Currency { numeric: 840, exponent: 2 }
    }
}

/// An amount of money as a signed count of minor units of one currency.
#[derive(Clone, Copy, Debug, PartialEq, Eq, Structural)]
pub struct Money {
    pub minor: i64,
    pub currency: Currency,
}

/// Why an operation on money failed.
#[derive(Clone, Copy, Debug, PartialEq, Eq, Structural)]
pub enum MoneyError {
    CurrencyMismatch,
    Overflow,
}

pub open spec fn fits_i64(x: int) -> bool {
    i64::MIN <= x <= i64::MAX
}

/// The result of combining two amounts whose exact sum is `value`.
pub open spec fn combined(a: Money, b: Money, value: int) -> Result<Money, MoneyError> {
    if a.currency != b.currency {
        Err(MoneyError::CurrencyMismatch)
    } else if !fits_i64(value) {
        Err(MoneyError::Overflow)
    } else {
        Ok(Money { minor: value as i64, currency: a.currency })
    }
}

/// An exact fraction `numerator / denominator` in `[0, 1]`.
#[derive(Clone, Copy, Debug, PartialEq, Eq, Structural)]
pub struct Percentage {
    pub numerator: u64,
    pub denominator: u64,
}

impl Percentage {
    pub open spec fn wf(self) -> bool {
        0 < self.denominator && self.numerator <= self.denominator
    }

    /// The fraction `numerator / denominator`, or `None` where it is not in `[0, 1]`.
    pub fn new(numerator: u64, denominator: u64) -> (r: Option<Percentage>)
        ensures
            r == (if 0 < denominator && numerator <= denominator {
                Some(Percentage { numerator, denominator })
            } else {
                None::<Percentage>
            }),
    {
        if 0 < denominator && numerator <= denominator {
            Some(Percentage { numerator, denominator })
        } else {
            None
        }
    }

    /// A whole number of percent, `0..=100`.
    pub fn from_percent(percent: u64) -> (r: Option<Percentage>)
        ensures
            r == (if percent <= 100 {
                Some(Percentage { numerator: percent, denominator: 100 })
            } else {
                None::<Percentage>
            }),
    {
        Percentage::new(percent, 100)
    }
}

/// `p / q` rounded to the nearest integer, ties to the even one (`p >= 0`, `q > 0`).
pub open spec fn round_half_even(p: nat, q: nat) -> nat {
    let f = p / q;
    let r = p % q;
    if 2 * r < q {
        f
    } else if 2 * r > q {
        f + 1
    } else if f % 2 == 0 {
        f
    } else {
        f + 1
    }
}

/// `minor * pct`, rounded half to even; rounding is symmetric about zero.
pub open spec fn percentage_of(minor: int, pct: Percentage) -> int {
    if minor >= 0 {
        round_half_even((minor * pct.numerator) as nat, pct.denominator as nat) as int
    } else {
        -(round_half_even((-minor * pct.numerator) as nat, pct.denominator as nat) as int)
    }
}

proof fn lemma_round_bounded(m: nat, n: nat, d: nat)
    requires
        0 < d,
        n <= d,
    ensures
        round_half_even(m * n, d) <= m,
{
    let p = m * n;
    assert(p <= m * d) by (nonlinear_arith)
        requires
            p == m * n,
            n <= d,
    ;
    let f = p / d;
    let r = p % d;
    assert(p == d * f + r) by (nonlinear_arith)
        requires
            f == p / d,
            r == p % d,
            0 < d,
    ;
    assert(f <= m) by (nonlinear_arith)
        requires
            p == d * f + r,
            p <= m * d,
            0 <= r,
            0 < d,
    ;
    if r > 0 {
        assert(f < m) by (nonlinear_arith)
            requires
                p == d * f + r,
                p <= m * d,
                0 < r,
                0 < d,
        ;
    }
}

/// A percentage of an amount lies between zero and the amount.
pub proof fn lemma_percentage_of_bounds(minor: int, pct: Percentage)
    requires
        pct.wf(),
    ensures
        minor >= 0 ==> 0 <= percentage_of(minor, pct) <= minor,
        minor < 0 ==> minor <= percentage_of(minor, pct) <= 0,
{
    if minor >= 0 {
        lemma_round_bounded(minor as nat, pct.numerator as nat, pct.denominator as nat);
    } else {
        lemma_round_bounded((-minor) as nat, pct.numerator as nat, pct.denominator as nat);
    }
}

/// `round_half_even(minor_abs * pct)` computed in 128 bits.
fn round_magnitude(magnitude: u64, pct: Percentage) -> (r: u64)
    requires
        pct.wf(),
    ensures
        r == round_half_even((magnitude * pct.numerator) as nat, pct.denominator as nat),
        r <= magnitude,
{
    proof {
        let a = magnitude as int;
        let b = pct.numerator as int;
        assert(a * b <= u64::MAX * u64::MAX) by (nonlinear_arith)
            requires
                0 <= a <= u64::MAX,
                0 <= b <= u64::MAX,
        ;
    }
    let p: u128 = (magnitude as u128) * (pct.numerator as u128);
    let q: u128 = pct.denominator as u128;
    let f: u128 = p / q;
    let rem: u128 = p % q;
    proof {
        lemma_round_bounded(magnitude as nat, pct.numerator as nat, pct.denominator as nat);
        assert(p == magnitude * pct.numerator);
    }
    let rounded: u128 = if 2 * rem < q {
        f
    } else if 2 * rem > q {
        f + 1
    } else if f % 2 == 0 {
        f
    } else {
        f + 1
    };
    rounded as u64
}

/// `percentage_of(minor, pct)`, whose magnitude never exceeds that of `minor`.
pub fn percent_of_minor(minor: i64, pct: Percentage) -> (r: i64)
    requires
        pct.wf(),
    ensures
        r == percentage_of(minor as int, pct),
        minor >= 0 ==> 0 <= r <= minor,
        minor < 0 ==> minor <= r <= 0,
{
    if minor >= 0 {
        round_magnitude(minor as u64, pct) as i64
    } else {
        let magnitude: u64 = (-(minor as i128)) as u64;
        let m = round_magnitude(magnitude, pct);
        (-(m as i128)) as i64
    }
}

impl Money {
    /// `minor` units of `currency`.
    pub fn from_minor(minor: i64, currency: Currency) -> (r: Money)
        ensures
            r == (Money { minor, currency }),
    {
        Money { minor, currency }
    }

    /// The amount in minor units.
    pub fn to_minor_units(&self) -> (r: i64)
        ensures
            r == self.minor,
    {
        self.minor
    }

    /// The currency of the amount.
    pub fn currency(&self) -> (r: Currency)
        ensures
            r == self.currency,
    {
        self.currency
    }

    /// Zero in `currency`.
    pub fn zero(currency: Currency) -> (r: Money)
        ensures
            r == (Money { minor: 0, currency }),
    {
        Money { minor: 0, currency }
    }

    /// The sum of two amounts of one currency.
    pub fn add(&self, other: &Money) -> (r: Result<Money, MoneyError>)
        ensures
            r == combined(*self, *other, self.minor + other.minor),
    {
        if self.currency != other.currency {
            return Err(MoneyError::CurrencyMismatch);
        }
        match self.minor.checked_add(other.minor) {
            Some(v) => Ok(Money { minor: v, currency: self.currency }),
            None => Err(MoneyError::Overflow),
        }
    }

    /// The difference of two amounts of one currency.
    pub fn sub(&self, other: &Money) -> (r: Result<Money, MoneyError>)
        ensures
            r == combined(*self, *other, self.minor - other.minor),
    {
        if self.currency != other.currency {
            return Err(MoneyError::CurrencyMismatch);
        }
        match self.minor.checked_sub(other.minor) {
            Some(v) => Ok(Money { minor: v, currency: self.currency }),
            None => Err(MoneyError::Overflow),
        }
    }

    /// The negated amount.
    pub fn neg(&self) -> (r: Result<Money, MoneyError>)
        ensures
            r == combined(*self, *self, -self.minor),
    {
        if self.minor == i64::MIN {
            Err(MoneyError::Overflow)
        } else {
            Ok(Money { minor: -self.minor, currency: self.currency })
        }
    }

    /// The amount multiplied by a whole factor.
    pub fn mul_minor(&self, factor: i64) -> (r: Result<Money, MoneyError>)
        ensures
            r == combined(*self, *self, self.minor * factor),
    {
        match self.minor.checked_mul(factor) {
            Some(v) => Ok(Money { minor: v, currency: self.currency }),
            None => Err(MoneyError::Overflow),
        }
    }

    /// `pct` of the amount, rounded half to even on minor units.
    pub fn percentage_of(&self, pct: Percentage) -> (r: Money)
        requires
            pct.wf(),
        ensures
            r.currency == self.currency,
            r.minor == percentage_of(self.minor as int, pct),
    {
        Money { minor: percent_of_minor(self.minor, pct), currency: self.currency }
    }

    /// Whether two amounts are of one currency and `self` is the smaller.
    pub fn less_than(&self, other: &Money) -> (r: Result<bool, MoneyError>)
        ensures
            r == (if self.currency != other.currency {
                Err(MoneyError::CurrencyMismatch)
            } else {
                Ok(self.minor < other.minor)
            }),
    {
        if self.currency != other.currency {
            Err(MoneyError::CurrencyMismatch)
        } else {
            Ok(self.minor < other.minor)
        }
    }
}

} // verus!
