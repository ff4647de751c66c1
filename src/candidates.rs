//! Candidate bundles: every bundle that a promotion of a layer could form.
use vstd::prelude::*;
use crate::items::{Item, sorted_by_price_desc};
use crate::money::{Currency, Percentage, percentage_of};
use crate::promotions::{MixAndMatchKind, MixAndMatchPromotion, PositionalDiscountPromotion, Promotion, qualifies};
use crate::solver::{
    Bundle, all_valid, bundle_shape, bundle_target, discount_ok_on, layer_error, lemma_layer_error_none, member_final,
    mix_kind_ok, positions_ok, prefix_price, prices_ok, promotion_error, valid_bundle,
};
use crate::tags::TagCollection;

verus! {

fn one(x: usize) -> (r: Vec<usize>)
    ensures
        r@ == seq![x],
{
    let mut r: Vec<usize> = Vec::new();
    r.push(x);
    r
}

fn one_price(x: i64) -> (r: Vec<i64>)
    ensures
        r@ == seq![x],
{
    let mut r: Vec<i64> = Vec::new();
    r.push(x);
    r
}

pub(crate) fn copy_indices(v: &Vec<usize>) -> (r: Vec<usize>)
    ensures
        r@ == v@,
{
    let mut r: Vec<usize> = Vec::new();
    let mut i: usize = 0;
    while i < v.len()
        invariant
            i <= v@.len(),
            r@ == v@.subrange(0, i as int),
        decreases v@.len() - i,
    {
        r.push(v[i]);
        i += 1;
    }
    assert(v@.subrange(0, v@.len() as int) =~= v@);
    r
}

/// Adds the bundles of the direct discount `promos[pi]`: one per qualifying item.
fn direct_candidates(promos: &Vec<Promotion>, pi: usize, items: &Vec<Item>, out: &mut Vec<Bundle>)
    requires
        pi < promos@.len(),
        promos@[pi as int] matches Promotion::DirectDiscount(d) && discount_ok_on(d.discount, d.tags, items@),
        all_valid(promos@, items@, old(out)@),
    ensures
        all_valid(promos@, items@, final(out)@),
{
    let p = match &promos[pi] {
        Promotion::DirectDiscount(p) => p,
        _ => {
            return ;
        },
    };
    let mut i: usize = 0;
    while i < items.len()
        invariant
            i <= items@.len(),
            pi < promos@.len(),
            promos@[pi as int] == Promotion::DirectDiscount(*p),
            discount_ok_on(p.discount, p.tags, items@),
            all_valid(promos@, items@, out@),
        decreases items@.len() - i,
    {
        if p.tags.is_subset_of(&items[i].tags) {
            assert(qualifies(p.tags, items@[i as int]));
            match p.discount.apply(items[i].price) {
                Ok(m) => {
                    if m.minor < items[i].price.minor {
                        let b = Bundle { promotion: pi, members: one(i), finals: one_price(m.minor) };
                        assert(b.members@[0] == i);
                        assert(b.members@.no_duplicates());
                        assert forall|j: int| 0 <= j < b.members@.len() implies #[trigger] b.finals@[j] == member_final(promos@[b.promotion as int], items@, b.members@, j) by {
                            assert(j == 0);
                        }
                        assert forall|j: int| 0 <= j < b.members@.len() implies (#[trigger] b.members@[j]) < items@.len() by {
                            assert(j == 0);
                        }
                        assert(valid_bundle(promos@, items@, b));
                        out.push(b);
                    }
                },
                Err(_) => {},
            }
        }
        i += 1;
    }
}

/// The indices of the items that qualify for `tags`, ascending.
fn qualifying_indices(tags: &TagCollection, items: &Vec<Item>) -> (r: Vec<usize>)
    ensures
        forall|k: int| 0 <= k < r@.len() ==> (#[trigger] r@[k]) < items@.len() && qualifies(*tags, items@[r@[k] as int]),
        r@.no_duplicates(),
{
    let mut r: Vec<usize> = Vec::new();
    let mut i: usize = 0;
    while i < items.len()
        invariant
            i <= items@.len(),
            forall|k: int| 0 <= k < r@.len() ==> (#[trigger] r@[k]) < i && qualifies(*tags, items@[r@[k] as int]),
            forall|a: int, b: int| 0 <= a < b < r@.len() ==> r@[a] < r@[b],
        decreases items@.len() - i,
    {
        if tags.is_subset_of(&items[i].tags) {
            r.push(i);
        }
        i += 1;
    }
    r
}

fn contains_position(positions: &Vec<u16>, x: u16) -> (r: bool)
    ensures
        r == positions@.contains(x),
{
    let mut i: usize = 0;
    while i < positions.len()
        invariant
            i <= positions@.len(),
            forall|k: int| 0 <= k < i ==> positions@[k] != x,
        decreases positions@.len() - i,
    {
        if positions[i] == x {
            return true;
        }
        i += 1;
    }
    false
}

/// A sequence sorted by descending price holds no index twice.
proof fn lemma_sorted_distinct(items: Seq<Item>, s: Seq<usize>)
    requires
        sorted_by_price_desc(items, s),
    ensures
        s.no_duplicates(),
{
    assert forall|a: int, b: int| 0 <= a < s.len() && 0 <= b < s.len() && a != b implies s[a] != s[b] by {
        if a < b {
            assert(price_before_at(items, s, a, b));
        } else {
            assert(price_before_at(items, s, b, a));
        }
    }
}

spec fn price_before_at(items: Seq<Item>, s: Seq<usize>, a: int, b: int) -> bool {
    crate::items::price_before(items, s[a] as int, s[b] as int)
}

/// The bundle of the positional promotion `d` over `members`, if it saves something.
fn positional_bundle(promos: &Vec<Promotion>, pi: usize, d: &PositionalDiscountPromotion, items: &Vec<Item>, members: &Vec<usize>) -> (r: Option<Bundle>)
    requires
        pi < promos@.len(),
        promos@[pi as int] == Promotion::PositionalDiscount(*d),
        discount_ok_on(d.discount, d.tags, items@),
        d.size > 0,
        members@.len() == d.size,
        forall|k: int| 0 <= k < members@.len() ==> (#[trigger] members@[k]) < items@.len() && qualifies(d.tags, items@[members@[k] as int]),
        sorted_by_price_desc(items@, members@),
    ensures
        r is Some ==> valid_bundle(promos@, items@, r->Some_0),
{
    let mut finals: Vec<i64> = Vec::new();
    let mut saved: bool = false;
    let mut j: usize = 0;
    while j < members.len()
        invariant
            j <= members@.len(),
            members@.len() == d.size,
            finals@.len() == j,
            pi < promos@.len(),
            promos@[pi as int] == Promotion::PositionalDiscount(*d),
            discount_ok_on(d.discount, d.tags, items@),
            forall|k: int| 0 <= k < members@.len() ==> (#[trigger] members@[k]) < items@.len() && qualifies(d.tags, items@[members@[k] as int]),
            forall|k: int| 0 <= k < j ==> #[trigger] finals@[k] == member_final(promos@[pi as int], items@, members@, k),
        decreases members@.len() - j,
    {
        let price = items[members[j]].price;
        let f: i64 = if contains_position(&d.positions, (j + 1) as u16) {
            match d.discount.apply(price) {
                Ok(m) => m.minor,
                Err(_) => {
                    return None;
                },
            }
        } else {
            price.minor
        };
        if f < price.minor {
            saved = true;
        }
        finals.push(f);
        j += 1;
    }
    if !saved {
        return None;
    }
    proof {
        lemma_sorted_distinct(items@, members@);
    }
    let b = Bundle { promotion: pi, members: copy_indices(members), finals };
    assert forall|k: int| 0 <= k < b.members@.len() implies qualifies(d.tags, #[trigger] items@[b.members@[k] as int]) by {
        assert(members@[k] < items@.len());
    }
    assert(bundle_shape(promos@[pi as int], items@, b.members@));
    Some(b)
}

/// Adds the bundles of the positional promotion `d` that extend `current` with
/// items of `q` from position `start` on.
fn positional_combos(
    promos: &Vec<Promotion>,
    pi: usize,
    d: &PositionalDiscountPromotion,
    items: &Vec<Item>,
    q: &Vec<usize>,
    start: usize,
    current: &mut Vec<usize>,
    out: &mut Vec<Bundle>,
)
    requires
        pi < promos@.len(),
        promos@[pi as int] == Promotion::PositionalDiscount(*d),
        discount_ok_on(d.discount, d.tags, items@),
        d.size > 0,
        forall|k: int| 0 <= k < q@.len() ==> (#[trigger] q@[k]) < items@.len() && qualifies(d.tags, items@[q@[k] as int]),
        sorted_by_price_desc(items@, q@),
        start <= q@.len(),
        old(current)@.len() <= d.size,
        forall|k: int| 0 <= k < old(current)@.len() ==> (#[trigger] old(current)@[k]) < items@.len() && qualifies(d.tags, items@[old(current)@[k] as int]),
        sorted_by_price_desc(items@, old(current)@),
        forall|a: int, b: int| 0 <= a < old(current)@.len() && start <= b < q@.len() ==>
            crate::items::price_before(items@, #[trigger] old(current)@[a] as int, #[trigger] q@[b] as int),
        all_valid(promos@, items@, old(out)@),
    ensures
        final(current)@ == old(current)@,
        all_valid(promos@, items@, final(out)@),
    decreases q@.len() - start,
{
    if current.len() == d.size as usize {
        match positional_bundle(promos, pi, d, items, current) {
            Some(b) => {
                out.push(b);
            },
            None => {},
        }
        return ;
    }
    let mut j: usize = start;
    while j < q.len()
        invariant
            start <= j <= q@.len(),
            current@ == old(current)@,
            current@.len() < d.size,
            all_valid(promos@, items@, out@),
            pi < promos@.len(),
            promos@[pi as int] == Promotion::PositionalDiscount(*d),
            discount_ok_on(d.discount, d.tags, items@),
            d.size > 0,
            forall|k: int| 0 <= k < q@.len() ==> (#[trigger] q@[k]) < items@.len() && qualifies(d.tags, items@[q@[k] as int]),
            sorted_by_price_desc(items@, q@),
            forall|k: int| 0 <= k < current@.len() ==> (#[trigger] current@[k]) < items@.len() && qualifies(d.tags, items@[current@[k] as int]),
            sorted_by_price_desc(items@, current@),
            forall|a: int, b: int| 0 <= a < current@.len() && start <= b < q@.len() ==>
                crate::items::price_before(items@, #[trigger] current@[a] as int, #[trigger] q@[b] as int),
        decreases q@.len() - j,
    {
        let ghost before = current@;
        current.push(q[j]);
        proof {
            assert forall|a: int, b: int| 0 <= a < b < current@.len() implies
                crate::items::price_before(items@, #[trigger] current@[a] as int, #[trigger] current@[b] as int) by {
                if b == before.len() {
                    assert(current@[a] == before[a]);
                } else {
                    assert(price_before_at(items@, before, a, b));
                }
            }
            assert forall|a: int, b: int| 0 <= a < current@.len() && j + 1 <= b < q@.len() implies
                crate::items::price_before(items@, #[trigger] current@[a] as int, #[trigger] q@[b] as int) by {
                if a == before.len() {
                    assert(price_before_at(items@, q@, j as int, b));
                } else {
                    assert(current@[a] == before[a]);
                }
            }
        }
        positional_combos(promos, pi, d, items, q, j + 1, current, out);
        current.pop();
        assert(current@ =~= before);
        j += 1;
    }
}

/// Adds the bundles of the positional promotion `promos[pi]`.
fn positional_candidates(promos: &Vec<Promotion>, pi: usize, items: &Vec<Item>, out: &mut Vec<Bundle>)
    requires
        pi < promos@.len(),
        promos@[pi as int] matches Promotion::PositionalDiscount(d) && discount_ok_on(d.discount, d.tags, items@) && positions_ok(d),
        all_valid(promos@, items@, old(out)@),
    ensures
        all_valid(promos@, items@, final(out)@),
{
    let d = match &promos[pi] {
        Promotion::PositionalDiscount(d) => d,
        _ => {
            return ;
        },
    };
    let qual = qualifying_indices(&d.tags, items);
    let q = crate::items::sort_by_price_desc(items.as_slice(), &qual);
    proof {
        assert forall|k: int| 0 <= k < q@.len() implies (#[trigger] q@[k]) < items@.len() && qualifies(d.tags, items@[q@[k] as int]) by {
            assert(q@.to_set().contains(q@[k]));
            assert(qual@.to_set().contains(q@[k]));
            let m = choose|m: int| 0 <= m < qual@.len() && qual@[m] == q@[k];
        }
    }
    let mut current: Vec<usize> = Vec::new();
    positional_combos(promos, pi, d, items, &q, 0, &mut current, out);
}

fn index_in(v: &Vec<usize>, x: usize) -> (r: bool)
    ensures
        r == v@.contains(x),
{
    let mut i: usize = 0;
    while i < v.len()
        invariant
            i <= v@.len(),
            forall|k: int| 0 <= k < i ==> v@[k] != x,
        decreases v@.len() - i,
    {
        if v[i] == x {
            return true;
        }
        i += 1;
    }
    false
}

/// The sum of the prices of `members`, in 128 bits.
fn members_total(items: &Vec<Item>, members: &Vec<usize>) -> (r: i128)
    requires
        forall|k: int| 0 <= k < members@.len() ==> (#[trigger] members@[k]) < items@.len(),
        forall|i: int| 0 <= i < items@.len() ==> (#[trigger] items@[i]).price.minor >= 0,
    ensures
        r == prefix_price(items@, members@, members@.len() as int),
        0 <= r <= members@.len() * 0x8000_0000_0000_0000,
{
    let mut acc: i128 = 0;
    let mut j: usize = 0;
    while j < members.len()
        invariant
            j <= members@.len(),
            acc == prefix_price(items@, members@, j as int),
            0 <= acc <= j * 0x8000_0000_0000_0000,
            forall|k: int| 0 <= k < members@.len() ==> (#[trigger] members@[k]) < items@.len(),
            forall|i: int| 0 <= i < items@.len() ==> (#[trigger] items@[i]).price.minor >= 0,
        decreases members@.len() - j,
    {
        proof {
            assert((j + 1) * 0x8000_0000_0000_0000 <= 0xffff_ffff_ffff_ffff * 0x8000_0000_0000_0000) by (nonlinear_arith)
                requires j + 1 <= 0xffff_ffff_ffff_ffff;
        }
        acc = acc + items[members[j]].price.minor as i128;
        j += 1;
    }
    acc
}

/// The bundle of the mix-and-match promotion `d` over `members` (one per slot),
/// if it saves something.
fn mix_bundle(promos: &Vec<Promotion>, pi: usize, d: &MixAndMatchPromotion, items: &Vec<Item>, members: &Vec<usize>, currency: Currency) -> (r: Option<Bundle>)
    requires
        pi < promos@.len(),
        promos@[pi as int] == Promotion::MixAndMatchDiscount(*d),
        mix_kind_ok(*d, items@, currency),
        prices_ok(items@, currency),
        members@.len() == d.slots@.len(),
        members@.len() > 0,
        members@.no_duplicates(),
        forall|k: int| 0 <= k < members@.len() ==> (#[trigger] members@[k]) < items@.len() && qualifies(d.slots@[k], items@[members@[k] as int]),
    ensures
        r is Some ==> valid_bundle(promos@, items@, r->Some_0),
{
    let ghost p = promos@[pi as int];
    let total = members_total(items, members);
    let target: i128 = match &d.kind {
        MixAndMatchKind::BundleTotal(m) => if (m.minor as i128) <= total { m.minor as i128 } else { total },
        MixAndMatchKind::PercentOffBundleTotal(pct) => {
            if total > i64::MAX as i128 {
                return None;
            }
            total - percent_of_minor_wide(total as i64, *pct)
        },
        MixAndMatchKind::EachItem(_) => total,
    };
    assert(target == bundle_target(d.kind, total as int));
    let mut finals: Vec<i64> = Vec::new();
    let mut saved: bool = false;
    let mut before: i128 = 0;
    let mut j: usize = 0;
    while j < members.len()
        invariant
            j <= members@.len(),
            finals@.len() == j,
            pi < promos@.len(),
            p == promos@[pi as int],
            p == Promotion::MixAndMatchDiscount(*d),
            mix_kind_ok(*d, items@, currency),
            prices_ok(items@, currency),
            members@.len() == d.slots@.len(),
            forall|k: int| 0 <= k < members@.len() ==> (#[trigger] members@[k]) < items@.len() && qualifies(d.slots@[k], items@[members@[k] as int]),
            total == prefix_price(items@, members@, members@.len() as int),
            target == bundle_target(d.kind, total as int),
            before == prefix_price(items@, members@, j as int),
            0 <= before <= j * 0x8000_0000_0000_0000,
            0 <= target <= total,
            forall|k: int| 0 <= k < j ==> #[trigger] finals@[k] == member_final(p, items@, members@, k),
        decreases members@.len() - j,
    {
        let price = items[members[j]].price;
        let f: i64 = match &d.kind {
            MixAndMatchKind::EachItem(disc) => {
                assert(discount_ok_on(*disc, d.slots@[j as int], items@));
                assert(qualifies(d.slots@[j as int], items@[members@[j as int] as int]));
                match disc.apply(price) {
                    Ok(m) => m.minor,
                    Err(_) => {
                        return None;
                    },
                }
            },
            _ => {
                let paid: i128 = if before < target { before } else { target };
                let left: i128 = if target > paid { target - paid } else { 0 };
                if (price.minor as i128) < left { price.minor } else { left as i64 }
            },
        };
        if f < price.minor {
            saved = true;
        }
        finals.push(f);
        proof {
            assert((j + 1) * 0x8000_0000_0000_0000 <= 0xffff_ffff_ffff_ffff * 0x8000_0000_0000_0000) by (nonlinear_arith)
                requires j + 1 <= 0xffff_ffff_ffff_ffff;
        }
        before = before + price.minor as i128;
        j += 1;
    }
    if !saved {
        return None;
    }
    let b = Bundle { promotion: pi, members: copy_indices(members), finals };
    assert forall|k: int| 0 <= k < b.members@.len() implies qualifies(#[trigger] d.slots@[k], items@[b.members@[k] as int]) by {
        assert(members@[k] < items@.len());
    }
    assert(bundle_shape(promos@[pi as int], items@, b.members@));
    Some(b)
}

/// `percentage_of(minor, pct)` for a percentage that may not be well formed
/// (then zero).
fn percent_of_minor_wide(minor: i64, pct: Percentage) -> (r: i128)
    ensures
        pct.wf() ==> r == percentage_of(minor as int, pct),
        pct.wf() && minor >= 0 ==> 0 <= r <= minor,
{
    if 0 < pct.denominator && pct.numerator <= pct.denominator {
        crate::money::percent_of_minor(minor, pct) as i128
    } else {
        0
    }
}

/// Adds the bundles of `d` that extend `current`, which fills the first `s` slots.
fn mix_fill(
    promos: &Vec<Promotion>,
    pi: usize,
    d: &MixAndMatchPromotion,
    items: &Vec<Item>,
    s: usize,
    current: &mut Vec<usize>,
    out: &mut Vec<Bundle>,
    currency: Currency,
)
    requires
        pi < promos@.len(),
        promos@[pi as int] == Promotion::MixAndMatchDiscount(*d),
        mix_kind_ok(*d, items@, currency),
        prices_ok(items@, currency),
        d.slots@.len() > 0,
        s <= d.slots@.len(),
        old(current)@.len() == s,
        old(current)@.no_duplicates(),
        forall|k: int| 0 <= k < old(current)@.len() ==> (#[trigger] old(current)@[k]) < items@.len() && qualifies(d.slots@[k], items@[old(current)@[k] as int]),
        all_valid(promos@, items@, old(out)@),
    ensures
        final(current)@ == old(current)@,
        all_valid(promos@, items@, final(out)@),
    decreases d.slots@.len() - s,
{
    let n_slots = d.slots.len();
    if s == n_slots {
        match mix_bundle(promos, pi, d, items, current, currency) {
            Some(b) => {
                out.push(b);
            },
            None => {},
        }
        return ;
    }
    let mut i: usize = 0;
    while i < items.len()
        invariant
            i <= items@.len(),
            s < n_slots,
            n_slots == d.slots@.len(),
            current@ == old(current)@,
            current@.len() == s,
            current@.no_duplicates(),
            forall|k: int| 0 <= k < current@.len() ==> (#[trigger] current@[k]) < items@.len() && qualifies(d.slots@[k], items@[current@[k] as int]),
            all_valid(promos@, items@, out@),
            pi < promos@.len(),
            promos@[pi as int] == Promotion::MixAndMatchDiscount(*d),
            mix_kind_ok(*d, items@, currency),
            prices_ok(items@, currency),
            d.slots@.len() > 0,
        decreases items@.len() - i,
    {
        if !index_in(current, i) && d.slots[s].is_subset_of(&items[i].tags) {
            let ghost before = current@;
            current.push(i);
            proof {
                assert forall|a: int, b: int| 0 <= a < current@.len() && 0 <= b < current@.len() && a != b implies current@[a] != current@[b] by {
                    if a < s && b < s {
                        assert(current@[a] == before[a] && current@[b] == before[b]);
                    } else if a < s {
                        assert(current@[a] == before[a]);
                        assert(before.contains(before[a]));
                    } else if b < s {
                        assert(current@[b] == before[b]);
                        assert(before.contains(before[b]));
                    }
                }
                assert forall|k: int| 0 <= k < current@.len() implies (#[trigger] current@[k]) < items@.len() && qualifies(d.slots@[k], items@[current@[k] as int]) by {
                    if k < s {
                        assert(current@[k] == before[k]);
                    }
                }
            }
            mix_fill(promos, pi, d, items, s + 1, current, out, currency);
            current.pop();
            assert(current@ =~= before);
        }
        i += 1;
    }
}

/// Adds the bundles of the mix-and-match promotion `promos[pi]`.
fn mix_candidates(promos: &Vec<Promotion>, pi: usize, items: &Vec<Item>, out: &mut Vec<Bundle>, currency: Currency)
    requires
        pi < promos@.len(),
        promos@[pi as int] matches Promotion::MixAndMatchDiscount(d) && mix_kind_ok(d, items@, currency) && d.slots@.len() > 0,
        prices_ok(items@, currency),
        all_valid(promos@, items@, old(out)@),
    ensures
        all_valid(promos@, items@, final(out)@),
{
    let d = match &promos[pi] {
        Promotion::MixAndMatchDiscount(d) => d,
        _ => {
            return ;
        },
    };
    let mut current: Vec<usize> = Vec::new();
    mix_fill(promos, pi, d, items, 0, &mut current, out, currency);
}

/// Every bundle that some promotion of the layer could form and that saves something.
pub(crate) fn gather_candidates(promos: &Vec<Promotion>, items: &Vec<Item>, currency: Currency) -> (r: Vec<Bundle>)
    requires
        layer_error(promos@, items@, currency) is None,
        prices_ok(items@, currency),
    ensures
        all_valid(promos@, items@, r@),
{
    proof {
        lemma_layer_error_none(promos@, items@, currency);
    }
    let mut out: Vec<Bundle> = Vec::new();
    let mut pi: usize = 0;
    while pi < promos.len()
        invariant
            pi <= promos@.len(),
            forall|k: int| 0 <= k < promos@.len() ==> promotion_error(#[trigger] promos@[k], items@, currency) is None,
            prices_ok(items@, currency),
            all_valid(promos@, items@, out@),
        decreases promos@.len() - pi,
    {
        assert(promotion_error(promos@[pi as int], items@, currency) is None);
        match &promos[pi] {
            Promotion::DirectDiscount(_) => direct_candidates(promos, pi, items, &mut out),
            Promotion::PositionalDiscount(_) => positional_candidates(promos, pi, items, &mut out),
            Promotion::MixAndMatchDiscount(_) => mix_candidates(promos, pi, items, &mut out, currency),
        }
        pi += 1;
    }
    out
}

} // verus!
