//! Promotion fixtures: plain records of strings turned into promotions.
use vstd::prelude::*;
use vstd::string::StringExecFns;
use crate::discounts::Discount;
use crate::money::{Currency, Money, Percentage};
use crate::promotions::{
    DirectDiscountPromotion, MixAndMatchKind, MixAndMatchPromotion, PositionalDiscountPromotion, Promotion, PromotionKey,
    PromotionMeta,
};
use crate::tags::{TagCollection, holds_tag};

verus! {

/// Why a fixture could not be turned into a promotion.
#[derive(Clone, Debug)]
pub enum FixtureError {
    UnsupportedPromotionType(String),
    InvalidPercentage(String),
    InvalidPrice(String),
    MissingField(String),
}

/// A promotion as a fixture file describes it.
#[derive(Clone, Debug)]
pub struct PromotionFixture {
    /// `direct_discount` (also `simple_discount`), `positional_discount` or
    /// `mix_and_match_discount`.
    pub promotion_type: String,
    pub name: String,
    /// The tags a qualifying item carries (direct and positional).
    pub tags: Vec<String>,
    /// The discount; for a mix-and-match promotion, how its bundles are priced.
    pub discount: DiscountFixture,
    /// The bundle size of a positional discount.
    pub size: Option<u16>,
    /// The discounted 1-based positions of a positional discount.
    pub positions: Vec<u16>,
    /// The tags of each slot of a mix-and-match promotion.
    pub slots: Vec<Vec<String>>,
}

/// A discount as a fixture file describes it.
#[derive(Clone, Debug)]
pub struct DiscountFixture {
    /// `percentage_off`, `amount_off` or `amount_override`; for a mix-and-match
    /// promotion also `set_bundle_total_price` or `percentage_off_bundle_total`.
    pub discount_type: String,
    /// A percentage, `"NN%"` or a decimal in `[0, 1]`.
    pub percentage: Option<String>,
    /// A price, `"NN.NN XXX"`.
    pub price: Option<String>,
}

/// The kind and the message of a fixture error.
pub open spec fn error_view(e: FixtureError) -> (int, Seq<char>) {
    match e {
        FixtureError::UnsupportedPromotionType(m) => (0, m@),
        FixtureError::InvalidPercentage(m) => (1, m@),
        FixtureError::InvalidPrice(m) => (2, m@),
        FixtureError::MissingField(m) => (3, m@),
    }
}

/// A conversion's result, its error seen by kind and message.
pub open spec fn outcome<T>(r: Result<T, FixtureError>) -> Result<T, (int, Seq<char>)> {
    match r {
        Ok(v) => Ok(v),
        Err(e) => Err(error_view(e)),
    }
}

/// The percentage-off discount of an optional percentage text.
pub open spec fn percentage_off_outcome(text: Option<String>, missing: Seq<char>) -> Result<Percentage, (int, Seq<char>)> {
    match text {
        None => Err((1, missing)),
        Some(t) => match percentage_value(t@) {
            Some(p) => Ok(p),
            None => Err((1, t@)),
        },
    }
}

/// The money of an optional price text.
pub open spec fn price_outcome(text: Option<String>, missing: Seq<char>) -> Result<Money, (int, Seq<char>)> {
    match text {
        None => Err((2, missing)),
        Some(t) => match price_value(t@) {
            Some(m) => Ok(m),
            None => Err((2, t@)),
        },
    }
}

/// The discount that a discount fixture describes, or the error it gives.
pub open spec fn discount_outcome(f: DiscountFixture) -> Result<Discount, (int, Seq<char>)> {
    if f.discount_type@ == "percentage_off"@ {
        match percentage_off_outcome(f.percentage, "percentage_off requires a percentage"@) {
            Ok(p) => Ok(Discount::PercentageOff(p)),
            Err(e) => Err(e),
        }
    } else if f.discount_type@ == "amount_off"@ {
        match price_outcome(f.price, "amount_off requires a price"@) {
            Ok(m) => Ok(Discount::AmountOff(m)),
            Err(e) => Err(e),
        }
    } else if f.discount_type@ == "amount_override"@ {
        match price_outcome(f.price, "amount_override requires a price"@) {
            Ok(m) => Ok(Discount::AmountOverride(m)),
            Err(e) => Err(e),
        }
    } else {
        Err((0, "discount type: "@ + f.discount_type@))
    }
}

/// The mix-and-match pricing that a discount fixture describes, or the error it gives.
pub open spec fn kind_outcome(f: DiscountFixture) -> Result<MixAndMatchKind, (int, Seq<char>)> {
    if f.discount_type@ == "set_bundle_total_price"@ {
        match price_outcome(f.price, "set_bundle_total_price requires a price"@) {
            Ok(m) => Ok(MixAndMatchKind::BundleTotal(m)),
            Err(e) => Err(e),
        }
    } else if f.discount_type@ == "percentage_off_bundle_total"@ {
        match percentage_off_outcome(f.percentage, "percentage_off_bundle_total requires a percentage"@) {
            Ok(p) => Ok(MixAndMatchKind::PercentOffBundleTotal(p)),
            Err(e) => Err(e),
        }
    } else {
        match discount_outcome(f) {
            Ok(d) => Ok(MixAndMatchKind::EachItem(d)),
            Err(e) => Err(e),
        }
    }
}

/// The set of the views of `tags`.
pub open spec fn tag_set(tags: Seq<String>) -> Set<Seq<char>> {
    Set::new(|t: Seq<char>| holds_tag(tags, t))
}

pub open spec fn is_digit(c: char) -> bool {
    '0' <= c <= '9'
}

pub open spec fn all_digits(s: Seq<char>) -> bool {
    forall|i: int| 0 <= i < s.len() ==> is_digit(#[trigger] s[i])
}

/// The number that the decimal digits `s` write.
pub open spec fn digits_value(s: Seq<char>) -> int
    decreases s.len(),
{
    if s.len() == 0 {
        0
    } else {
        digits_value(s.drop_last()) * 10 + (s.last() as int - '0' as int)
    }
}

pub open spec fn pow10(n: nat) -> nat
    decreases n,
{
    if n == 0 {
        1
    } else {
        10 * pow10((n - 1) as nat)
    }
}

/// Whether `s` writes the decimal `num / 10^scale`: digits, or digits, a point
/// and `scale` digits.
pub open spec fn is_decimal(s: Seq<char>, num: int, scale: nat) -> bool {
    ||| (s.len() > 0 && all_digits(s) && num == digits_value(s) && scale == 0)
    ||| exists|d: int|
        0 < d < s.len() - 1 && #[trigger] s[d] == '.' && all_digits(s.take(d)) && all_digits(s.skip(d + 1))
            && num == digits_value(s.take(d) + s.skip(d + 1)) && scale == s.len() - d - 1
}

proof fn lemma_digits_nonneg(s: Seq<char>)
    requires
        all_digits(s),
    ensures
        digits_value(s) >= 0,
    decreases s.len(),
{
    if s.len() > 0 {
        lemma_digits_nonneg(s.drop_last());
    }
}

/// The digits of a prefix write no more than the whole.
proof fn lemma_digits_prefix(s: Seq<char>, j: int)
    requires
        all_digits(s),
        0 <= j <= s.len(),
    ensures
        digits_value(s.take(j)) <= digits_value(s),
    decreases s.len(),
{
    if j < s.len() {
        assert(s.drop_last().take(j) =~= s.take(j));
        lemma_digits_prefix(s.drop_last(), j);
        lemma_digits_nonneg(s.drop_last());
    } else {
        assert(s.take(j) =~= s);
    }
}

/// A text writes at most one decimal.
proof fn lemma_decimal_unique(s: Seq<char>, n1: int, s1: nat, n2: int, s2: nat)
    requires
        is_decimal(s, n1, s1),
        is_decimal(s, n2, s2),
    ensures
        n1 == n2 && s1 == s2,
{
    if exists|d: int| 0 < d < s.len() - 1 && #[trigger] s[d] == '.' {
        let d = choose|d: int| 0 < d < s.len() - 1 && #[trigger] s[d] == '.';
        assert(!all_digits(s)) by {
            assert(!is_digit(s[d]));
        }
        let d1 = choose|d1: int| 0 < d1 < s.len() - 1 && #[trigger] s[d1] == '.' && all_digits(s.take(d1)) && all_digits(s.skip(d1 + 1))
            && n1 == digits_value(s.take(d1) + s.skip(d1 + 1)) && s1 == s.len() - d1 - 1;
        let d2 = choose|d2: int| 0 < d2 < s.len() - 1 && #[trigger] s[d2] == '.' && all_digits(s.take(d2)) && all_digits(s.skip(d2 + 1))
            && n2 == digits_value(s.take(d2) + s.skip(d2 + 1)) && s2 == s.len() - d2 - 1;
        if d1 < d2 {
            assert(s.take(d2)[d1] == s[d1]);
            assert(!is_digit(s.take(d2)[d1]));
        } else if d2 < d1 {
            assert(s.take(d1)[d2] == s[d2]);
            assert(!is_digit(s.take(d1)[d2]));
        }
    }
}

fn chars_of(s: &str) -> (r: Vec<char>)
    ensures
        r@ == s@,
{
    let n = s.unicode_len();
    let mut r: Vec<char> = Vec::new();
    let mut i: usize = 0;
    while i < n
        invariant
            n == s@.len(),
            i <= n,
            r@ == s@.take(i as int),
        decreases n - i,
    {
        r.push(s.get_char(i));
        assert(s@.take(i + 1) =~= s@.take(i as int).push(s@[i as int]));
        i += 1;
    }
    assert(s@.take(n as int) =~= s@);
    r
}

/// The value of the digits of `cs` in `[from, to)` but for position `skip`.
fn digits_skipping(cs: &Vec<char>, from: usize, to: usize, skip: usize) -> (r: Option<u64>)
    requires
        from <= to <= cs@.len(),
    ensures
        r is Some ==> ({
            let ds = if from <= skip < to {
                cs@.subrange(from as int, skip as int) + cs@.subrange(skip + 1, to as int)
            } else {
                cs@.subrange(from as int, to as int)
            };
            all_digits(ds) && r->Some_0 == digits_value(ds)
        }),
        ({
            let ds = if from <= skip < to {
                cs@.subrange(from as int, skip as int) + cs@.subrange(skip + 1, to as int)
            } else {
                cs@.subrange(from as int, to as int)
            };
            all_digits(ds) && digits_value(ds) <= u64::MAX
        }) ==> r is Some,
{
    let ghost ds = if from <= skip < to {
        cs@.subrange(from as int, skip as int) + cs@.subrange(skip + 1, to as int)
    } else {
        cs@.subrange(from as int, to as int)
    };
    let mut v: u64 = 0;
    let mut i: usize = from;
    let mut k: usize = 0;
    while i < to
        invariant
            from <= i <= to <= cs@.len(),
            k <= ds.len(),
            k == if from <= skip < i { i - from - 1 } else { i - from },
            ds == (if from <= skip < to {
                cs@.subrange(from as int, skip as int) + cs@.subrange(skip + 1, to as int)
            } else {
                cs@.subrange(from as int, to as int)
            }),
            ds.len() == if from <= skip < to { to - from - 1 } else { to - from },
            all_digits(ds.take(k as int)),
            v == digits_value(ds.take(k as int)),
        decreases to - i,
    {
        if i != skip {
            let c = cs[i];
            assert(ds[k as int] == c);
            if c < '0' || c > '9' {
                assert(!is_digit(ds[k as int]));
                return None;
            }
            let d = (c as u32 - '0' as u32) as u64;
            if v > (u64::MAX - d) / 10 {
                proof {
                    assert(ds.take(k + 1).drop_last() =~= ds.take(k as int));
                    assert(v * 10 + d > u64::MAX) by (nonlinear_arith)
                        requires v > (u64::MAX - d) / 10, d <= 9;
                    if all_digits(ds) {
                        lemma_digits_prefix(ds, k + 1);
                    }
                }
                return None;
            }
            assert(ds.take(k + 1).drop_last() =~= ds.take(k as int));
            v = v * 10 + d;
            k += 1;
        }
        i += 1;
    }
    assert(ds.take(k as int) =~= ds);
    Some(v)
}

/// A decimal whose first point is at `d0` has its point there.
proof fn lemma_decimal_at_first_dot(s: Seq<char>, d0: int, num: int, scale: nat)
    requires
        0 <= d0 < s.len(),
        s[d0] == '.',
        forall|j: int| 0 <= j < d0 ==> s[j] != '.',
        is_decimal(s, num, scale),
    ensures
        0 < d0 < s.len() - 1,
        all_digits(s.take(d0)),
        all_digits(s.skip(d0 + 1)),
        num == digits_value(s.take(d0) + s.skip(d0 + 1)),
        scale == s.len() - d0 - 1,
{
    assert(!all_digits(s)) by {
        assert(!is_digit(s[d0]));
    }
    let d = choose|d: int| 0 < d < s.len() - 1 && #[trigger] s[d] == '.' && all_digits(s.take(d)) && all_digits(s.skip(d + 1))
        && num == digits_value(s.take(d) + s.skip(d + 1)) && scale == s.len() - d - 1;
    if d > d0 {
        assert(s.take(d)[d0] == s[d0]);
        assert(!is_digit(s.take(d)[d0]));
    }
}

/// The decimal that `cs[from..to]` writes, as `(num, scale)`; found for every
/// decimal of at most 18 places whose digits fit in 64 bits.
fn parse_decimal(cs: &Vec<char>, from: usize, to: usize) -> (r: Option<(u64, u32)>)
    requires
        from <= to <= cs@.len(),
    ensures
        r is Some ==> is_decimal(cs@.subrange(from as int, to as int), r->Some_0.0 as int, r->Some_0.1 as nat),
        r is Some ==> r->Some_0.1 <= 18,
        (exists|num: int, scale: nat| #[trigger] is_decimal(cs@.subrange(from as int, to as int), num, scale) && num <= u64::MAX
            && scale <= 18) ==> r is Some,
{
    let ghost s = cs@.subrange(from as int, to as int);
    if from == to {
        return None;
    }
    let mut dot: usize = to;
    let mut i: usize = from;
    while i < to
        invariant
            from <= i <= to <= cs@.len(),
            dot == to || (from <= dot < i && cs@[dot as int] == '.'),
            dot == to ==> forall|j: int| from <= j < i ==> cs@[j] != '.',
            dot < to ==> forall|j: int| from <= j < dot ==> cs@[j] != '.',
        decreases to - i,
    {
        if dot == to && cs[i] == '.' {
            dot = i;
        }
        i += 1;
    }
    if dot == to {
        let v = match digits_skipping(cs, from, to, to) {
            Some(v) => v,
            None => {
                proof {
                    assert forall|num: int, scale: nat| #[trigger] is_decimal(s, num, scale) && num <= u64::MAX && scale <= 18 implies false by {
                        if exists|d: int| 0 < d < s.len() - 1 && #[trigger] s[d] == '.' {
                            let d = choose|d: int| 0 < d < s.len() - 1 && #[trigger] s[d] == '.';
                            assert(cs@[from + d] == '.');
                        }
                    }
                }
                return None;
            },
        };
        return Some((v, 0));
    }
    let ghost d0 = dot - from;
    proof {
        assert(s[d0] == '.');
        assert forall|j: int| 0 <= j < d0 implies s[j] != '.' by {
            assert(s[j] == cs@[from + j]);
        }
    }
    if dot == from || dot + 1 == to || to - dot - 1 > 18 {
        proof {
            assert forall|num: int, scale: nat| #[trigger] is_decimal(s, num, scale) && num <= u64::MAX && scale <= 18 implies false by {
                lemma_decimal_at_first_dot(s, d0, num, scale);
            }
        }
        return None;
    }
    proof {
        assert(s.take(d0) =~= cs@.subrange(from as int, dot as int));
        assert(s.skip(d0 + 1) =~= cs@.subrange(dot + 1, to as int));
    }
    let v = match digits_skipping(cs, from, to, dot) {
        Some(v) => v,
        None => {
            proof {
                assert forall|num: int, scale: nat| #[trigger] is_decimal(s, num, scale) && num <= u64::MAX && scale <= 18 implies false by {
                    lemma_decimal_at_first_dot(s, d0, num, scale);
                }
            }
            return None;
        },
    };
    proof {
        let ds = cs@.subrange(from as int, dot as int) + cs@.subrange(dot + 1, to as int);
        assert forall|j: int| 0 <= j < s.take(d0).len() implies is_digit(#[trigger] s.take(d0)[j]) by {
            assert(s.take(d0)[j] == ds[j]);
        }
        assert forall|j: int| 0 <= j < s.skip(d0 + 1).len() implies is_digit(#[trigger] s.skip(d0 + 1)[j]) by {
            assert(s.skip(d0 + 1)[j] == ds[j + d0]);
        }
    }
    Some((v, (to - dot - 1) as u32))
}

fn pow10_exec(n: u32) -> (r: u64)
    requires
        n <= 18,
    ensures
        r == pow10(n as nat),
{
    proof {
        reveal_with_fuel(pow10, 19);
        assert(pow10(18) == 1_000_000_000_000_000_000);
    }
    let mut r: u64 = 1;
    let mut i: u32 = 0;
    while i < n
        invariant
            i <= n <= 18,
            r == pow10(i as nat),
            pow10(18) == 1_000_000_000_000_000_000,
        decreases n - i,
    {
        proof {
            lemma_pow10_monotone((i + 1) as nat, 18);
        }
        r = r * 10;
        i += 1;
    }
    r
}

proof fn lemma_pow10_monotone(a: nat, b: nat)
    requires
        a <= b,
    ensures
        pow10(a) <= pow10(b),
    decreases b,
{
    if a < b {
        lemma_pow10_monotone(a, (b - 1) as nat);
    }
}

/// The ISO-4217 currency with alphabetic code `code`: its numeric code, as
/// written in the standard, and the exponent of its minor unit.
pub uninterp spec fn iso_currency(code: Seq<char>) -> Option<(Seq<char>, u32)>;

/// Relies on `rusty_money::iso::find`: the ISO-4217 currency of an alphabetic
/// code, or `None` for a code it does not list.
#[verifier::external_body]
fn find_iso_currency(code: &str) -> (r: Option<(String, u32)>)
    ensures
        match r {
            Some(found) => iso_currency(code@) == Some((found.0@, found.1)),
            None => iso_currency(code@) is None,
        },
{
    match rusty_money::iso::find(code) {
        Some(c) => Some((c.iso_numeric_code.to_string(), c.exponent)),
        None => None,
    }
}

/// The currency of a three-digit ISO-4217 numeric code and an exponent that fits a byte.
pub open spec fn currency_of(numeric: Seq<char>, exponent: u32) -> Option<Currency> {
    if numeric.len() == 3 && all_digits(numeric) && exponent <= 255 {
        Some(Currency { numeric: digits_value(numeric) as u16, exponent: exponent as u8 })
    } else {
        None
    }
}

/// The currency that a currency table gives by numeric code and exponent.
pub fn currency_from_iso(numeric: &String, exponent: u32) -> (r: Option<Currency>)
    ensures
        r == currency_of(numeric@, exponent),
{
    let cs = chars_of(numeric.as_str());
    if cs.len() != 3 || exponent > 255 {
        return None;
    }
    let (a, b, c) = (cs[0], cs[1], cs[2]);
    if a < '0' || a > '9' || b < '0' || b > '9' || c < '0' || c > '9' {
        assert(!all_digits(numeric@)) by {
            if !is_digit(a) {
                assert(!is_digit(numeric@[0]));
            } else if !is_digit(b) {
                assert(!is_digit(numeric@[1]));
            } else {
                assert(!is_digit(numeric@[2]));
            }
        }
        return None;
    }
    let v: u16 = ((a as u32 - '0' as u32) * 100 + (b as u32 - '0' as u32) * 10 + (c as u32 - '0' as u32)) as u16;
    proof {
        let s = numeric@;
        reveal_with_fuel(digits_value, 4);
        assert(s.drop_last().drop_last().drop_last() =~= Seq::<char>::empty());
        assert(s.drop_last().drop_last().last() == a);
        assert(s.drop_last().last() == b);
        assert(s.last() == c);
        assert(digits_value(s) == ((a as int - '0' as int) * 10 + (b as int - '0' as int)) * 10 + (c as int - '0' as int));
        assert forall|i: int| 0 <= i < s.len() implies is_digit(#[trigger] s[i]) by {}
    }
    Some(Currency { numeric: v, exponent: exponent as u8 })
}

/// Whether `s` is the amount `num / 10^scale`, a space at `sp`, and a currency
/// code without spaces, `m` being that amount in minor units of that currency.
pub open spec fn price_parts(s: Seq<char>, m: Money, sp: int, num: int, scale: nat) -> bool {
    &&& 0 <= sp < s.len() && s[sp] == ' '
    &&& !s.skip(sp + 1).contains(' ')
    &&& is_decimal(s.take(sp), num, scale)
    &&& iso_currency(s.skip(sp + 1)) is Some
    &&& currency_of(iso_currency(s.skip(sp + 1))->Some_0.0, iso_currency(s.skip(sp + 1))->Some_0.1) == Some(m.currency)
    &&& scale <= m.currency.exponent
    &&& m.minor == num * pow10((m.currency.exponent - scale) as nat)
}

/// Whether `s` writes the price `m`: an amount, a space and an alphabetic
/// currency code whose minor unit the amount's decimals do not exceed.
pub open spec fn price_text(s: Seq<char>, m: Money) -> bool {
    exists|sp: int, num: int, scale: nat| #[trigger] price_parts(s, m, sp, num, scale)
}

/// Whether `s` writes the price `m` with at most 18 decimal places, at most
/// 18 places short of its currency's minor unit.
pub open spec fn price_describes(s: Seq<char>, m: Money) -> bool {
    exists|sp: int, num: int, scale: nat| #[trigger] price_parts(s, m, sp, num, scale) && scale <= 18
        && m.currency.exponent - scale <= 18
}

/// The price that `s` writes, if any.
pub open spec fn price_value(s: Seq<char>) -> Option<Money> {
    if exists|m: Money| #[trigger] price_describes(s, m) {
        Some(choose|m: Money| #[trigger] price_describes(s, m))
    } else {
        None
    }
}

/// A text writes at most one price.
proof fn lemma_price_unique(s: Seq<char>, m1: Money, m2: Money)
    requires
        price_describes(s, m1),
        price_describes(s, m2),
    ensures
        m1 == m2,
{
    let (sp1, n1, c1) = choose|sp: int, num: int, scale: nat| #[trigger] price_parts(s, m1, sp, num, scale) && scale <= 18
        && m1.currency.exponent - scale <= 18;
    let (sp2, n2, c2) = choose|sp: int, num: int, scale: nat| #[trigger] price_parts(s, m2, sp, num, scale) && scale <= 18
        && m2.currency.exponent - scale <= 18;
    if sp1 < sp2 {
        assert(s.skip(sp1 + 1)[sp2 - sp1 - 1] == ' ');
    } else if sp2 < sp1 {
        assert(s.skip(sp2 + 1)[sp1 - sp2 - 1] == ' ');
    }
    lemma_decimal_unique(s.take(sp1), n1, c1, n2, c2);
}

/// Parses a price such as `"2.50 GBP"` into minor units of its currency; every
/// such text with at most 18 decimal places, and at most 18 places short of
/// its currency's minor unit, is accepted.
pub fn parse_price(s: &str) -> (r: Result<Money, FixtureError>)
    ensures
        r is Ok ==> price_text(s@, r->Ok_0),
        r is Ok <==> price_value(s@) is Some,
        r is Ok ==> r->Ok_0 == price_value(s@)->Some_0,
        r is Err ==> r->Err_0 is InvalidPrice && r->Err_0->InvalidPrice_0@ == s@,
{
    let cs = chars_of(s);
    let n = cs.len();
    let ghost want = exists|m: Money, sp: int, num: int, scale: nat| #[trigger] price_parts(s@, m, sp, num, scale) && scale <= 18
        && m.currency.exponent - scale <= 18;
    proof {
        if exists|m: Money| #[trigger] price_describes(s@, m) {
            let m0 = choose|m: Money| #[trigger] price_describes(s@, m);
            let (a, b, c) = choose|sp: int, num: int, scale: nat| #[trigger] price_parts(s@, m0, sp, num, scale) && scale <= 18
                && m0.currency.exponent - scale <= 18;
            assert(price_parts(s@, m0, a, b, c));
        }
    }
    let ghost (wm, wsp, wnum, wsc) = if want {
        choose|m: Money, sp: int, num: int, scale: nat| #[trigger] price_parts(s@, m, sp, num, scale) && scale <= 18
            && m.currency.exponent - scale <= 18
    } else {
        (Money { minor: 0, currency: Currency { numeric: 0, exponent: 0 } }, 0int, 0int, 0nat)
    };
    let mut sp: usize = n;
    let mut i: usize = 0;
    while i < n
        invariant
            n == cs@.len(),
            cs@ == s@,
            i <= n,
            sp == n || (sp < i && cs@[sp as int] == ' '),
            sp == n ==> forall|j: int| 0 <= j < i ==> cs@[j] != ' ',
            sp < n ==> forall|j: int| sp < j < i ==> cs@[j] != ' ',
        decreases n - i,
    {
        if cs[i] == ' ' {
            sp = i;
        }
        i += 1;
    }
    proof {
        if want {
            assert(s@[wsp] == ' ');
            if sp < n && (sp as int) < wsp {
                assert(cs@[wsp] == ' ');
            }
            if sp < n && (sp as int) > wsp {
                assert(s@.skip(wsp + 1)[sp - wsp - 1] == ' ');
            }
        }
    }
    if sp == n {
        return Err(FixtureError::InvalidPrice(s.to_owned()));
    }
    let code = s.substring_char(sp + 1, n);
    proof {
        assert(code@ =~= s@.skip(sp + 1));
    }
    let (numeric, exponent) = match find_iso_currency(code) {
        Some(found) => found,
        None => {
            return Err(FixtureError::InvalidPrice(s.to_owned()));
        },
    };
    let currency = match currency_from_iso(&numeric, exponent) {
        Some(c) => c,
        None => {
            return Err(FixtureError::InvalidPrice(s.to_owned()));
        },
    };
    proof {
        assert(cs@.subrange(0, sp as int) =~= s@.take(sp as int));
        if want {
            assert(currency == wm.currency);
            lemma_pow10_monotone(0, (wm.currency.exponent - wsc) as nat);
            lemma_digits_nonneg_decimal(s@.take(sp as int), wnum, wsc);
            assert(wnum <= wm.minor) by (nonlinear_arith)
                requires
                    wm.minor == wnum * pow10((wm.currency.exponent - wsc) as nat),
                    pow10((wm.currency.exponent - wsc) as nat) >= 1,
                    wnum >= 0,
            ;
        }
    }
    let (num, scale) = match parse_decimal(&cs, 0, sp) {
        Some(d) => d,
        None => {
            return Err(FixtureError::InvalidPrice(s.to_owned()));
        },
    };
    proof {
        if want {
            lemma_decimal_unique(s@.take(sp as int), num as int, scale as nat, wnum, wsc);
        }
    }
    if scale as u32 > currency.exponent as u32 || currency.exponent as u32 - scale > 18 {
        return Err(FixtureError::InvalidPrice(s.to_owned()));
    }
    let factor = pow10_exec(currency.exponent as u32 - scale);
    let minor: u64 = match num.checked_mul(factor) {
        Some(v) => v,
        None => {
            return Err(FixtureError::InvalidPrice(s.to_owned()));
        },
    };
    if minor > i64::MAX as u64 {
        return Err(FixtureError::InvalidPrice(s.to_owned()));
    }
    let m = Money { minor: minor as i64, currency };
    proof {
        assert(s@[sp as int] == ' ');
        assert(!s@.skip(sp + 1).contains(' ')) by {
            if s@.skip(sp + 1).contains(' ') {
                let j = choose|j: int| 0 <= j < s@.skip(sp + 1).len() && #[trigger] s@.skip(sp + 1)[j] == ' ';
                assert(cs@[sp + 1 + j] == ' ');
            }
        }
        assert(price_parts(s@, m, sp as int, num as int, scale as nat));
        assert(price_describes(s@, m));
        lemma_price_unique(s@, m, choose|m: Money| #[trigger] price_describes(s@, m));
    }
    Ok(m)
}

/// A decimal's digits write a number of zero or more.
proof fn lemma_digits_nonneg_decimal(s: Seq<char>, num: int, scale: nat)
    requires
        is_decimal(s, num, scale),
    ensures
        num >= 0,
{
    if s.len() > 0 && all_digits(s) && num == digits_value(s) && scale == 0 {
        lemma_digits_nonneg(s);
    } else {
        let d = choose|d: int| 0 < d < s.len() - 1 && #[trigger] s[d] == '.' && all_digits(s.take(d)) && all_digits(s.skip(d + 1))
            && num == digits_value(s.take(d) + s.skip(d + 1)) && scale == s.len() - d - 1;
        let ds = s.take(d) + s.skip(d + 1);
        assert forall|j: int| 0 <= j < ds.len() implies is_digit(#[trigger] ds[j]) by {
            if j < d {
                assert(ds[j] == s.take(d)[j]);
            } else {
                assert(ds[j] == s.skip(d + 1)[j - d]);
            }
        }
        lemma_digits_nonneg(ds);
    }
}

/// Whether `s` writes the percentage `p`: `"NN%"`, or a decimal in `[0, 1]`.
pub open spec fn percentage_text(s: Seq<char>, p: Percentage) -> bool {
    ||| (s.len() > 0 && s.last() == '%' && exists|scale: nat|
        is_decimal(s.drop_last(), p.numerator as int, scale) && p.denominator == 100 * #[trigger] pow10(scale))
    ||| ((s.len() == 0 || s.last() != '%') && exists|scale: nat|
        is_decimal(s, p.numerator as int, scale) && p.denominator == #[trigger] pow10(scale))
}

/// Whether `s` writes the percentage `p` with at most `places` decimal places.
pub open spec fn percentage_text_within(s: Seq<char>, p: Percentage, places: nat) -> bool {
    ||| (s.len() > 0 && s.last() == '%' && exists|scale: nat|
        scale <= places && is_decimal(s.drop_last(), p.numerator as int, scale) && p.denominator == 100 * #[trigger] pow10(scale))
    ||| ((s.len() == 0 || s.last() != '%') && exists|scale: nat|
        scale <= places && is_decimal(s, p.numerator as int, scale) && p.denominator == #[trigger] pow10(scale))
}

/// The percentage that `s` writes with at most 16 decimal places, if any.
pub open spec fn percentage_value(s: Seq<char>) -> Option<Percentage> {
    if exists|p: Percentage| p.wf() && #[trigger] percentage_text_within(s, p, 16) {
        Some(choose|p: Percentage| p.wf() && #[trigger] percentage_text_within(s, p, 16))
    } else {
        None
    }
}

/// A text writes at most one percentage.
proof fn lemma_percentage_unique(s: Seq<char>, p1: Percentage, p2: Percentage)
    requires
        percentage_text_within(s, p1, 16),
        percentage_text_within(s, p2, 16),
    ensures
        p1 == p2,
{
    if s.len() > 0 && s.last() == '%' {
        let c1 = choose|scale: nat| scale <= 16 && is_decimal(s.drop_last(), p1.numerator as int, scale)
            && p1.denominator == 100 * #[trigger] pow10(scale);
        let c2 = choose|scale: nat| scale <= 16 && is_decimal(s.drop_last(), p2.numerator as int, scale)
            && p2.denominator == 100 * #[trigger] pow10(scale);
        lemma_decimal_unique(s.drop_last(), p1.numerator as int, c1, p2.numerator as int, c2);
    } else {
        let c1 = choose|scale: nat| scale <= 16 && is_decimal(s, p1.numerator as int, scale) && p1.denominator == #[trigger] pow10(scale);
        let c2 = choose|scale: nat| scale <= 16 && is_decimal(s, p2.numerator as int, scale) && p2.denominator == #[trigger] pow10(scale);
        lemma_decimal_unique(s, p1.numerator as int, c1, p2.numerator as int, c2);
    }
}

/// Parses a percentage: `"NN%"` is divided by 100, a bare decimal is taken as it
/// is; either must lie in `[0, 1]`. Every such text of at most 16 decimal
/// places is accepted.
pub fn parse_percentage(s: &str) -> (r: Result<Percentage, FixtureError>)
    ensures
        r is Ok ==> r->Ok_0.wf() && percentage_text(s@, r->Ok_0),
        r is Err ==> r->Err_0 is InvalidPercentage && r->Err_0->InvalidPercentage_0@ == s@,
        (exists|p: Percentage| p.wf() && #[trigger] percentage_text_within(s@, p, 16)) ==> r is Ok,
        r is Ok <==> percentage_value(s@) is Some,
        r is Ok ==> r->Ok_0 == percentage_value(s@)->Some_0,
{
    let cs = chars_of(s);
    let n = cs.len();
    let percent = n > 0 && cs[n - 1] == '%';
    let end = if percent { n - 1 } else { n };
    let ghost sub = cs@.subrange(0, end as int);
    let ghost want = exists|p: Percentage| p.wf() && #[trigger] percentage_text_within(s@, p, 16);
    let ghost wp: Percentage = if want { choose|p: Percentage| p.wf() && #[trigger] percentage_text_within(s@, p, 16) } else { Percentage { numerator: 0, denominator: 1 } };
    let ghost wsc: nat = if want {
        if percent {
            choose|scale: nat| scale <= 16 && is_decimal(s@.drop_last(), wp.numerator as int, scale) && wp.denominator == 100 * #[trigger] pow10(scale)
        } else {
            choose|scale: nat| scale <= 16 && is_decimal(s@, wp.numerator as int, scale) && wp.denominator == #[trigger] pow10(scale)
        }
    } else {
        0
    };
    proof {
        if percent {
            assert(sub =~= s@.drop_last());
        } else {
            assert(sub =~= s@);
        }
        if want {
            assert(is_decimal(sub, wp.numerator as int, wsc));
            assert(wp.denominator == if percent { 100 * pow10(wsc) } else { pow10(wsc) });
        }
    }
    let (num, scale) = match parse_decimal(&cs, 0, end) {
        Some(d) => d,
        None => {
            return Err(FixtureError::InvalidPercentage(s.to_owned()));
        },
    };
    proof {
        if want {
            lemma_decimal_unique(sub, num as int, scale as nat, wp.numerator as int, wsc);
        }
    }
    if scale > 16 {
        return Err(FixtureError::InvalidPercentage(s.to_owned()));
    }
    let base = pow10_exec(scale);
    proof {
        lemma_pow10_monotone(scale as nat, 16);
        reveal_with_fuel(pow10, 17);
    }
    let den: u64 = if percent { base * 100 } else { base };
    if num > den {
        return Err(FixtureError::InvalidPercentage(s.to_owned()));
    }
    let p = Percentage { numerator: num, denominator: den };
    proof {
        if percent {
            assert(is_decimal(s@.drop_last(), num as int, scale as nat) && den == 100 * pow10(scale as nat));
        } else {
            assert(is_decimal(s@, num as int, scale as nat) && den == pow10(scale as nat));
        }
        assert(percentage_text_within(s@, p, 16));
        let q = choose|q: Percentage| q.wf() && #[trigger] percentage_text_within(s@, q, 16);
        lemma_percentage_unique(s@, p, q);
    }
    Ok(p)
}

fn percentage_field(text: Option<String>, missing: &str) -> (r: Result<Percentage, FixtureError>)
    ensures
        outcome(r) == percentage_off_outcome(text, missing@),
{
    match text {
        Some(t) => parse_percentage(t.as_str()),
        None => Err(FixtureError::InvalidPercentage(String::from_str(missing))),
    }
}

fn price_field(text: Option<String>, missing: &str) -> (r: Result<Money, FixtureError>)
    ensures
        outcome(r) == price_outcome(text, missing@),
{
    match text {
        Some(t) => parse_price(t.as_str()),
        None => Err(FixtureError::InvalidPrice(String::from_str(missing))),
    }
}

impl DiscountFixture {
    /// The discount the fixture describes.
    pub fn try_into_discount(self) -> (r: Result<Discount, FixtureError>)
        ensures
            outcome(r) == discount_outcome(self),
    {
        if self.discount_type == String::from_str("percentage_off") {
            match percentage_field(self.percentage, "percentage_off requires a percentage") {
                Ok(p) => Ok(Discount::PercentageOff(p)),
                Err(e) => Err(e),
            }
        } else if self.discount_type == String::from_str("amount_off") {
            match price_field(self.price, "amount_off requires a price") {
                Ok(m) => Ok(Discount::AmountOff(m)),
                Err(e) => Err(e),
            }
        } else if self.discount_type == String::from_str("amount_override") {
            match price_field(self.price, "amount_override requires a price") {
                Ok(m) => Ok(Discount::AmountOverride(m)),
                Err(e) => Err(e),
            }
        } else {
            let mut message = String::from_str("discount type: ");
            message.append(self.discount_type.as_str());
            Err(FixtureError::UnsupportedPromotionType(message))
        }
    }

    /// How the fixture prices the bundles of a mix-and-match promotion.
    pub fn try_into_bundle_kind(self) -> (r: Result<MixAndMatchKind, FixtureError>)
        ensures
            outcome(r) == kind_outcome(self),
    {
        if self.discount_type == String::from_str("set_bundle_total_price") {
            match price_field(self.price, "set_bundle_total_price requires a price") {
                Ok(m) => Ok(MixAndMatchKind::BundleTotal(m)),
                Err(e) => Err(e),
            }
        } else if self.discount_type == String::from_str("percentage_off_bundle_total") {
            match percentage_field(self.percentage, "percentage_off_bundle_total requires a percentage") {
                Ok(p) => Ok(MixAndMatchKind::PercentOffBundleTotal(p)),
                Err(e) => Err(e),
            }
        } else {
            match self.try_into_discount() {
                Ok(d) => Ok(MixAndMatchKind::EachItem(d)),
                Err(e) => Err(e),
            }
        }
    }
}

impl PromotionFixture {
    /// Convert to `PromotionMeta` and `Promotion`, under `key` and without budget
    /// limits. An error of the discount part is returned as it is.
    pub fn try_into_promotion(self, key: PromotionKey) -> (r: Result<(PromotionMeta, Promotion), FixtureError>)
        ensures
            ({
                let ty = self.promotion_type@;
                let direct = ty == "direct_discount"@ || ty == "simple_discount"@;
                let positional = ty == "positional_discount"@;
                let mixed = ty == "mix_and_match_discount"@;
                &&& !direct && !positional && !mixed ==> outcome(r) == Err::<(PromotionMeta, Promotion), (int, Seq<char>)>((0, ty))
                &&& (direct || positional) && discount_outcome(self.discount) is Err
                    ==> r is Err && error_view(r->Err_0) == discount_outcome(self.discount)->Err_0
                &&& direct && discount_outcome(self.discount) is Ok ==> r is Ok && r->Ok_0.1 is DirectDiscount && ({
                    let d = r->Ok_0.1->DirectDiscount_0;
                    &&& d.key == key
                    &&& d.tags@ == tag_set(self.tags@)
                    &&& d.discount == discount_outcome(self.discount)->Ok_0
                    &&& d.budget.redemption_limit is None && d.budget.monetary_limit is None
                })
                &&& positional && discount_outcome(self.discount) is Ok && self.size is None
                    ==> outcome(r) == Err::<(PromotionMeta, Promotion), (int, Seq<char>)>((3, "positional_discount requires a size"@))
                &&& positional && discount_outcome(self.discount) is Ok && self.size is Some ==> r is Ok
                    && r->Ok_0.1 is PositionalDiscount && ({
                    let d = r->Ok_0.1->PositionalDiscount_0;
                    &&& d.key == key
                    &&& d.tags@ == tag_set(self.tags@)
                    &&& d.size == self.size->Some_0
                    &&& d.positions@ == self.positions@
                    &&& d.discount == discount_outcome(self.discount)->Ok_0
                    &&& d.budget.redemption_limit is None && d.budget.monetary_limit is None
                })
                &&& mixed && kind_outcome(self.discount) is Err
                    ==> r is Err && error_view(r->Err_0) == kind_outcome(self.discount)->Err_0
                &&& mixed && kind_outcome(self.discount) is Ok ==> r is Ok && r->Ok_0.1 is MixAndMatchDiscount && ({
                    let d = r->Ok_0.1->MixAndMatchDiscount_0;
                    &&& d.key == key
                    &&& d.slots@.len() == self.slots@.len()
                    &&& forall|i: int| 0 <= i < self.slots@.len() ==> (#[trigger] d.slots@[i])@ == tag_set(self.slots@[i]@)
                    &&& d.kind == kind_outcome(self.discount)->Ok_0
                    &&& d.budget.redemption_limit is None && d.budget.monetary_limit is None
                })
            }),
            r is Ok ==> r->Ok_0.0.name@ == self.name@,
    {
        proof {
            reveal_strlit("direct_discount");
            reveal_strlit("simple_discount");
            reveal_strlit("positional_discount");
            reveal_strlit("mix_and_match_discount");
            assert("positional_discount"@ != "direct_discount"@ && "positional_discount"@ != "simple_discount"@) by {
                assert("positional_discount"@[0] != "direct_discount"@[0]);
                assert("positional_discount"@[0] != "simple_discount"@[0]);
            }
            assert("mix_and_match_discount"@ != "direct_discount"@ && "mix_and_match_discount"@ != "simple_discount"@
                && "mix_and_match_discount"@ != "positional_discount"@) by {
                assert("mix_and_match_discount"@[0] != "direct_discount"@[0]);
                assert("mix_and_match_discount"@[0] != "simple_discount"@[0]);
                assert("mix_and_match_discount"@[0] != "positional_discount"@[0]);
            }
        }
        let direct = self.promotion_type == String::from_str("direct_discount")
            || self.promotion_type == String::from_str("simple_discount");
        let positional = self.promotion_type == String::from_str("positional_discount");
        let mixed = self.promotion_type == String::from_str("mix_and_match_discount");
        if !direct && !positional && !mixed {
            return Err(FixtureError::UnsupportedPromotionType(self.promotion_type));
        }
        let meta = PromotionMeta { name: self.name };
        if mixed {
            let kind = match self.discount.try_into_bundle_kind() {
                Ok(k) => k,
                Err(e) => {
                    return Err(e);
                },
            };
            let mut slots: Vec<TagCollection> = Vec::new();
            let mut i: usize = 0;
            while i < self.slots.len()
                invariant
                    i <= self.slots@.len(),
                    slots@.len() == i,
                    forall|j: int| 0 <= j < i ==> (#[trigger] slots@[j])@ == tag_set(self.slots@[j]@),
                decreases self.slots@.len() - i,
            {
                slots.push(TagCollection::from_strings(&self.slots[i]));
                i += 1;
            }
            return Ok((meta, Promotion::MixAndMatchDiscount(MixAndMatchPromotion::new(key, slots, kind))));
        }
        let discount = match self.discount.try_into_discount() {
            Ok(d) => d,
            Err(e) => {
                return Err(e);
            },
        };
        let tags = TagCollection::from_strings(&self.tags);
        if positional {
            match self.size {
                Some(size) => Ok((
                    meta,
                    Promotion::PositionalDiscount(PositionalDiscountPromotion::new(key, tags, size, self.positions, discount)),
                )),
                None => Err(FixtureError::MissingField(String::from_str("positional_discount requires a size"))),
            }
        } else {
            Ok((meta, Promotion::DirectDiscount(DirectDiscountPromotion::new(key, tags, discount))))
        }
    }
}

} // verus!
