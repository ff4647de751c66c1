//! Receipts: the user-facing summary of a solved basket.
use vstd::prelude::*;
use crate::items::{Item, ItemGroup, sum_prices};
use crate::layered::{LayeredSolverResult, PromotionRedemption, result_ok};
use crate::money::{Money, fits_i64};
use crate::solver::SolveError;

verus! {

/// What a basket costs before and after its promotions, and which redeemed.
#[derive(Clone, Debug)]
pub struct Receipt {
    pub subtotal: Money,
    pub total: Money,
    /// Every redemption of the result, grouped by bundle (promotion key and
    /// bundle index); the groups in the order of their first items, each
    /// group by ascending item index.
    pub promotion_redemptions: Vec<PromotionRedemption>,
    pub full_price_items: Vec<usize>,
}

/// The redemptions of the first `k` items, in item order.
pub open spec fn flatten(reds: Seq<Vec<PromotionRedemption>>, k: int) -> Seq<PromotionRedemption>
    decreases k,
{
    if k <= 0 {
        Seq::empty()
    } else {
        flatten(reds, k - 1) + reds[k - 1]@
    }
}

/// What the redemptions save, each against the price the item had entering its layer.
pub open spec fn savings_sum(rs: Seq<PromotionRedemption>) -> int
    decreases rs.len(),
{
    if rs.len() == 0 {
        0
    } else {
        savings_sum(rs.drop_last()) + rs.last().original_price.minor - rs.last().final_price.minor
    }
}

/// Whether two redemptions belong to one bundle.
pub open spec fn same_bundle(a: PromotionRedemption, b: PromotionRedemption) -> bool {
    a.promotion_key == b.promotion_key && a.redemption_idx == b.redemption_idx
}

/// What one redemption saves.
pub open spec fn saving_of(r: PromotionRedemption) -> int {
    r.original_price.minor - r.final_price.minor
}

/// What the redemptions of `flat` marked in `taken` among the first `k` save.
pub open spec fn taken_sum(flat: Seq<PromotionRedemption>, taken: Seq<bool>, k: int) -> int
    decreases k,
{
    if k <= 0 {
        0
    } else {
        taken_sum(flat, taken, k - 1) + if taken[k - 1] { saving_of(flat[k - 1]) } else { 0 }
    }
}

proof fn lemma_taken_sum_set(flat: Seq<PromotionRedemption>, taken: Seq<bool>, j: int, k: int)
    requires
        0 <= j < taken.len(),
        0 <= k <= taken.len(),
        !taken[j],
    ensures
        taken_sum(flat, taken.update(j, true), k) == taken_sum(flat, taken, k) + if j < k { saving_of(flat[j]) } else { 0 },
    decreases k,
{
    if k > 0 {
        lemma_taken_sum_set(flat, taken, j, k - 1);
    }
}

proof fn lemma_taken_sum_none(flat: Seq<PromotionRedemption>, taken: Seq<bool>, k: int)
    requires
        0 <= k <= taken.len(),
        forall|i: int| 0 <= i < taken.len() ==> !#[trigger] taken[i],
    ensures
        taken_sum(flat, taken, k) == 0,
    decreases k,
{
    if k > 0 {
        lemma_taken_sum_none(flat, taken, k - 1);
    }
}

proof fn lemma_taken_sum_all(flat: Seq<PromotionRedemption>, taken: Seq<bool>, k: int)
    requires
        0 <= k <= taken.len(),
        k <= flat.len(),
        forall|i: int| 0 <= i < taken.len() ==> #[trigger] taken[i],
    ensures
        taken_sum(flat, taken, k) == savings_sum(flat.take(k)),
        crate::graph::count_true(taken.take(k)) == k,
    decreases k,
{
    if k > 0 {
        lemma_taken_sum_all(flat, taken, k - 1);
        assert(flat.take(k).drop_last() =~= flat.take(k - 1));
        assert(taken.take(k).drop_last() =~= taken.take(k - 1));
    }
}

/// The first position of `flat` from `j` on that holds a redemption of `x`'s
/// bundle, or the length of `flat` if none does.
pub open spec fn first_in(flat: Seq<PromotionRedemption>, x: PromotionRedemption, j: int) -> int
    decreases flat.len() - j,
{
    if j >= flat.len() {
        flat.len() as int
    } else if same_bundle(flat[j], x) {
        j
    } else {
        first_in(flat, x, j + 1)
    }
}

proof fn lemma_first_in_at(flat: Seq<PromotionRedemption>, x: PromotionRedemption, j: int, i: int)
    requires
        0 <= j <= i < flat.len(),
        same_bundle(flat[i], x),
        forall|k: int| j <= k < i ==> !same_bundle(#[trigger] flat[k], x),
    ensures
        first_in(flat, x, j) == i,
    decreases i - j,
{
    if j < i {
        lemma_first_in_at(flat, x, j + 1, i);
    }
}

/// Whether `idx` takes `r` position by position from `flat`, using every
/// position of `flat` exactly once.
pub open spec fn permutes(r: Seq<PromotionRedemption>, flat: Seq<PromotionRedemption>, idx: Seq<int>) -> bool {
    &&& r.len() == flat.len()
    &&& idx.len() == r.len()
    &&& idx.no_duplicates()
    &&& forall|k: int| 0 <= k < r.len() ==> 0 <= #[trigger] idx[k] < flat.len() && r[k] == flat[idx[k]]
    &&& forall|i: int| 0 <= i < flat.len() ==> #[trigger] idx.contains(i)
}

/// Whether the redemptions of each bundle stand together in `r`.
pub open spec fn bundles_contiguous(r: Seq<PromotionRedemption>) -> bool {
    forall|a: int, b: int, c: int| 0 <= a < b < c < r.len() && same_bundle(#[trigger] r[a], #[trigger] r[c])
        ==> same_bundle(r[a], #[trigger] r[b])
}

/// Whether the bundles of `r` come in the order of their first redemptions in `flat`.
pub open spec fn bundles_in_first_order(r: Seq<PromotionRedemption>, flat: Seq<PromotionRedemption>) -> bool {
    forall|a: int, b: int| 0 <= a < b < r.len() && !same_bundle(#[trigger] r[a], #[trigger] r[b])
        ==> first_in(flat, r[a], 0) < first_in(flat, r[b], 0)
}

/// The redemptions of `flat` grouped by bundle: the bundles in the order of
/// their first redemptions, each bundle's redemptions together and in the
/// order of `flat`.
pub fn group_by_bundle(flat: &Vec<PromotionRedemption>) -> (r: Vec<PromotionRedemption>)
    ensures
        exists|idx: Seq<int>| permutes(r@, flat@, idx)
            && forall|a: int, b: int| 0 <= a < b < r@.len() && same_bundle(#[trigger] r@[a], #[trigger] r@[b]) ==> idx[a] < idx[b],
        bundles_contiguous(r@),
        bundles_in_first_order(r@, flat@),
        savings_sum(r@) == savings_sum(flat@),
{
    let n = flat.len();
    let mut taken: Vec<bool> = Vec::new();
    let mut q: usize = 0;
    while q < n
        invariant
            q <= n,
            taken@.len() == q,
            forall|j: int| 0 <= j < q ==> !#[trigger] taken@[j],
        decreases n - q,
    {
        taken.push(false);
        q += 1;
    }
    proof {
        lemma_taken_sum_none(flat@, taken@, n as int);
        assert(crate::graph::count_true(taken@) == 0) by {
            lemma_count_false(taken@);
        }
    }
    let mut out: Vec<PromotionRedemption> = Vec::new();
    let ghost mut idx: Seq<int> = Seq::empty();
    let mut i: usize = 0;
    while i < n
        invariant
            n == flat@.len(),
            i <= n,
            taken@.len() == n,
            forall|j: int| 0 <= j < i ==> #[trigger] taken@[j],
            savings_sum(out@) == taken_sum(flat@, taken@, n as int),
            out@.len() == crate::graph::count_true(taken@),
            idx.len() == out@.len(),
            idx.no_duplicates(),
            forall|k: int| 0 <= k < out@.len() ==> 0 <= #[trigger] idx[k] < n && out@[k] == flat@[idx[k]] && taken@[idx[k]],
            forall|j: int| 0 <= j < n && #[trigger] taken@[j] ==> idx.contains(j),
            forall|k: int, j: int| 0 <= k < out@.len() && 0 <= j < n && same_bundle(#[trigger] flat@[j], #[trigger] out@[k]) ==> taken@[j],
            bundles_contiguous(out@),
            forall|a: int, b: int| 0 <= a < b < out@.len() ==> first_in(flat@, #[trigger] out@[a], 0) <= first_in(flat@, #[trigger] out@[b], 0),
            forall|k: int| 0 <= k < out@.len() ==> first_in(flat@, #[trigger] out@[k], 0) < i,
            forall|a: int, b: int| 0 <= a < b < out@.len() && same_bundle(#[trigger] out@[a], #[trigger] out@[b]) ==> idx[a] < idx[b],
        decreases n - i,
    {
        if !taken[i] {
            let g = flat[i];
            let ghost s = out@.len();
            proof {
                assert forall|j: int| 0 <= j < i implies !same_bundle(#[trigger] flat@[j], g) by {
                    if same_bundle(flat@[j], g) {
                        assert(taken@[j]);
                        assert(idx.contains(j));
                        let k = choose|k: int| 0 <= k < idx.len() && idx[k] == j;
                        assert(out@[k] == flat@[j]);
                        assert(same_bundle(flat@[i as int], out@[k]));
                    }
                }
                lemma_first_in_at(flat@, g, 0, i as int);
            }
            let mut j: usize = i;
            while j < n
                invariant
                    n == flat@.len(),
                    i <= j <= n,
                    i < n,
                    g == flat@[i as int],
                    first_in(flat@, g, 0) == i,
                    forall|x: int| 0 <= x < i ==> !same_bundle(#[trigger] flat@[x], g),
                    s <= out@.len(),
                    taken@.len() == n,
                    forall|x: int| 0 <= x < i ==> #[trigger] taken@[x],
                    j > i ==> taken@[i as int],
                    j == i ==> !taken@[i as int] && out@.len() == s,
                    savings_sum(out@) == taken_sum(flat@, taken@, n as int),
                    out@.len() == crate::graph::count_true(taken@),
                    idx.len() == out@.len(),
                    idx.no_duplicates(),
                    forall|k: int| 0 <= k < out@.len() ==> 0 <= #[trigger] idx[k] < n && out@[k] == flat@[idx[k]] && taken@[idx[k]],
                    forall|x: int| 0 <= x < n && #[trigger] taken@[x] ==> idx.contains(x),
                    forall|k: int, x: int| 0 <= k < s && 0 <= x < n && same_bundle(#[trigger] flat@[x], #[trigger] out@[k]) ==> taken@[x],
                    forall|k: int| s <= k < out@.len() ==> same_bundle(#[trigger] out@[k], g) && i <= idx[k] < j,
                    forall|x: int| i <= x < j && same_bundle(#[trigger] flat@[x], g) ==> taken@[x],
                    forall|k: int| 0 <= k < s ==> !same_bundle(#[trigger] out@[k], g),
                    bundles_contiguous(out@),
                    forall|a: int, b: int| 0 <= a < b < out@.len() ==> first_in(flat@, #[trigger] out@[a], 0) <= first_in(flat@, #[trigger] out@[b], 0),
                    forall|k: int| 0 <= k < s ==> first_in(flat@, #[trigger] out@[k], 0) < i,
                    forall|a: int, b: int| 0 <= a < b < out@.len() && same_bundle(#[trigger] out@[a], #[trigger] out@[b]) ==> idx[a] < idx[b],
                decreases n - j,
            {
                if !taken[j] && flat[j].promotion_key == g.promotion_key && flat[j].redemption_idx == g.redemption_idx {
                    let ghost before = out@;
                    let ghost t0 = taken@;
                    proof {
                        lemma_taken_sum_set(flat@, taken@, j as int, n as int);
                        crate::graph::lemma_count_true_set(taken@, j as int);
                        assert(!idx.contains(j as int)) by {
                            if idx.contains(j as int) {
                                let k = choose|k: int| 0 <= k < idx.len() && idx[k] == j as int;
                                assert(taken@[idx[k]]);
                            }
                        }
                    }
                    out.push(flat[j]);
                    taken.set(j, true);
                    proof {
                        let idx0 = idx;
                        idx = idx.push(j as int);
                        assert(out@.drop_last() == before);
                        assert forall|k: int| 0 <= k < out@.len() implies 0 <= #[trigger] idx[k] < n && out@[k] == flat@[idx[k]] && taken@[idx[k]] by {
                            if k < before.len() {
                                assert(out@[k] == before[k]);
                                assert(idx[k] == idx0[k]);
                            }
                        }
                        assert(idx.no_duplicates()) by {
                            assert forall|a: int, b: int| 0 <= a < idx.len() && 0 <= b < idx.len() && a != b implies idx[a] != idx[b] by {
                                if a < idx0.len() && b < idx0.len() {
                                    assert(idx[a] == idx0[a] && idx[b] == idx0[b]);
                                } else if a < idx0.len() {
                                    assert(idx0.contains(idx0[a]));
                                } else {
                                    assert(idx0.contains(idx0[b]));
                                }
                            }
                        }
                        assert forall|x: int| 0 <= x < n && #[trigger] taken@[x] implies idx.contains(x) by {
                            if x != j {
                                assert(t0[x]);
                                let k = choose|k: int| 0 <= k < idx0.len() && idx0[k] == x;
                                assert(idx[k] == x);
                            } else {
                                assert(idx[idx0.len() as int] == x);
                            }
                        }
                        assert forall|k: int, x: int| 0 <= k < s && 0 <= x < n && same_bundle(#[trigger] flat@[x], #[trigger] out@[k]) implies taken@[x] by {
                            assert(out@[k] == before[k]);
                            if x != j {
                                assert(t0[x]);
                            }
                        }
                        assert forall|k: int| s <= k < out@.len() implies same_bundle(#[trigger] out@[k], g) && i <= idx[k] < j + 1 by {
                            if k < before.len() {
                                assert(out@[k] == before[k]);
                                assert(idx[k] == idx0[k]);
                            }
                        }
                        assert forall|k: int| 0 <= k < s implies !same_bundle(#[trigger] out@[k], g) by {
                            assert(out@[k] == before[k]);
                        }
                        assert(bundles_contiguous(out@)) by {
                            assert forall|a: int, b: int, c: int| 0 <= a < b < c < out@.len() && same_bundle(#[trigger] out@[a], #[trigger] out@[c])
                                implies same_bundle(out@[a], #[trigger] out@[b]) by {
                                if c < before.len() {
                                    assert(out@[a] == before[a] && out@[b] == before[b] && out@[c] == before[c]);
                                } else {
                                    assert(out@[a] == before[a] && out@[b] == before[b]);
                                    assert(same_bundle(out@[c], g));
                                    if a < s {
                                        assert(!same_bundle(before[a], g));
                                    }
                                }
                            }
                        }
                        assert forall|a: int, b: int| 0 <= a < b < out@.len() implies first_in(flat@, #[trigger] out@[a], 0) <= first_in(flat@, #[trigger] out@[b], 0) by {
                            assert(out@[a] == before[a]);
                            if b < before.len() {
                                assert(out@[b] == before[b]);
                            } else {
                                lemma_first_in_same(flat@, out@[b], g, 0);
                                if a < s {
                                } else {
                                    assert(same_bundle(before[a], g));
                                    assert(first_in(flat@, before[a], 0) == first_in(flat@, g, 0)) by {
                                        lemma_first_in_same(flat@, before[a], g, 0);
                                    }
                                }
                            }
                        }
                        assert forall|a: int, b: int| 0 <= a < b < out@.len() && same_bundle(#[trigger] out@[a], #[trigger] out@[b]) implies idx[a] < idx[b] by {
                            assert(out@[a] == before[a]);
                            assert(idx[a] == idx0[a]);
                            if b < before.len() {
                                assert(out@[b] == before[b]);
                                assert(idx[b] == idx0[b]);
                            } else if a < s {
                                assert(!same_bundle(before[a], g));
                            }
                        }
                        assert(first_in(flat@, flat@[j as int], 0) == first_in(flat@, g, 0)) by {
                            lemma_first_in_same(flat@, flat@[j as int], g, 0);
                        }
                    }
                }
                j += 1;
            }
            proof {
                assert forall|k: int| 0 <= k < out@.len() implies first_in(flat@, #[trigger] out@[k], 0) < i + 1 by {
                    if k >= s {
                        lemma_first_in_same(flat@, out@[k], g, 0);
                    }
                }
                assert forall|k: int, x: int| 0 <= k < out@.len() && 0 <= x < n && same_bundle(#[trigger] flat@[x], #[trigger] out@[k])
                    implies taken@[x] by {
                    if k >= s {
                        assert(same_bundle(flat@[x], g));
                    }
                }
            }
        } else {
            proof {
                assert forall|k: int| 0 <= k < out@.len() implies first_in(flat@, #[trigger] out@[k], 0) < i + 1 by {}
            }
        }
        i += 1;
    }
    proof {
        lemma_taken_sum_all(flat@, taken@, n as int);
        assert(flat@.take(n as int) =~= flat@);
        assert(taken@.take(n as int) =~= taken@);
        assert forall|x: int| 0 <= x < n implies #[trigger] idx.contains(x) by {
            assert(taken@[x]);
        }
        assert(permutes(out@, flat@, idx));
        assert(bundles_in_first_order(out@, flat@)) by {
            assert forall|a: int, b: int| 0 <= a < b < out@.len() && !same_bundle(#[trigger] out@[a], #[trigger] out@[b])
                implies first_in(flat@, out@[a], 0) < first_in(flat@, out@[b], 0) by {
                if first_in(flat@, out@[a], 0) == first_in(flat@, out@[b], 0) {
                    lemma_first_in_found(flat@, out@[a], 0, idx[a]);
                    lemma_first_in_found(flat@, out@[b], 0, idx[b]);
                }
            }
        }
    }
    out
}

/// Redemptions of one bundle have one first position.
proof fn lemma_first_in_same(flat: Seq<PromotionRedemption>, x: PromotionRedemption, y: PromotionRedemption, j: int)
    requires
        same_bundle(x, y),
    ensures
        first_in(flat, x, j) == first_in(flat, y, j),
    decreases flat.len() - j,
{
    if j < flat.len() {
        lemma_first_in_same(flat, x, y, j + 1);
    }
}

/// A redemption at position `i` of `flat` has its bundle's first position no
/// later, holding a redemption of the same bundle.
proof fn lemma_first_in_found(flat: Seq<PromotionRedemption>, x: PromotionRedemption, j: int, i: int)
    requires
        0 <= j <= i < flat.len(),
        flat[i] == x,
    ensures
        j <= first_in(flat, x, j) <= i,
        same_bundle(flat[first_in(flat, x, j)], x),
    decreases i - j,
{
    if j < i && !same_bundle(flat[j], x) {
        lemma_first_in_found(flat, x, j + 1, i);
    }
}

proof fn lemma_count_false(s: Seq<bool>)
    requires
        forall|j: int| 0 <= j < s.len() ==> !#[trigger] s[j],
    ensures
        crate::graph::count_true(s) == 0,
    decreases s.len(),
{
    if s.len() > 0 {
        lemma_count_false(s.drop_last());
    }
}

impl Receipt {
    /// The receipt of `result`, a result for `group`.
    pub fn from_result(group: &ItemGroup, result: &LayeredSolverResult) -> (r: Result<Receipt, SolveError>)
        requires
            result_ok(group.items@, group.currency, *result),
        ensures
            r is Err <==> !fits_i64(sum_prices(group.items@)),
            r is Err ==> r == Err::<Receipt, SolveError>(SolveError::Overflow),
            r is Ok ==> {
                let rc = r->Ok_0;
                &&& rc.subtotal == (Money { minor: sum_prices(group.items@) as i64, currency: group.currency })
                &&& rc.total == result.total
                &&& exists|idx: Seq<int>| permutes(rc.promotion_redemptions@, flatten(result.item_redemptions@, group.items@.len() as int), idx)
                &&& bundles_contiguous(rc.promotion_redemptions@)
                &&& bundles_in_first_order(rc.promotion_redemptions@, flatten(result.item_redemptions@, group.items@.len() as int))
                &&& savings_sum(rc.promotion_redemptions@) == savings_sum(flatten(result.item_redemptions@, group.items@.len() as int))
                &&& rc.full_price_items@ == result.full_price_items@
            },
    {
        let subtotal = match subtotal_of(&group.items) {
            Some(m) => Money { minor: m, currency: group.currency },
            None => {
                return Err(SolveError::Overflow);
            },
        };
        let n = group.items.len();
        let mut flat: Vec<PromotionRedemption> = Vec::new();
        let mut i: usize = 0;
        while i < n
            invariant
                n == group.items@.len(),
                i <= n,
                result.item_redemptions@.len() == n,
                flat@ == flatten(result.item_redemptions@, i as int),
            decreases n - i,
        {
            let reds = &result.item_redemptions[i];
            let mut j: usize = 0;
            let ghost base = flat@;
            while j < reds.len()
                invariant
                    j <= reds@.len(),
                    flat@ == base + reds@.subrange(0, j as int),
                decreases reds@.len() - j,
            {
                flat.push(reds[j]);
                assert(base + reds@.subrange(0, j + 1) =~= (base + reds@.subrange(0, j as int)).push(reds@[j as int]));
                j += 1;
            }
            assert(reds@.subrange(0, reds@.len() as int) =~= reds@);
            i += 1;
        }
        let mut full: Vec<usize> = Vec::new();
        let mut k: usize = 0;
        while k < result.full_price_items.len()
            invariant
                k <= result.full_price_items@.len(),
                full@ == result.full_price_items@.subrange(0, k as int),
            decreases result.full_price_items@.len() - k,
        {
            full.push(result.full_price_items[k]);
            k += 1;
        }
        assert(result.full_price_items@.subrange(0, k as int) =~= result.full_price_items@);
        let grouped = group_by_bundle(&flat);
        Ok(Receipt { subtotal, total: result.total, promotion_redemptions: grouped, full_price_items: full })
    }
}

/// The sum of the prices of `items`, if it fits in 64 bits.
fn subtotal_of(items: &Vec<Item>) -> (r: Option<i64>)
    ensures
        r is Some <==> fits_i64(sum_prices(items@)),
        r is Some ==> r->Some_0 == sum_prices(items@),
{
    let mut acc: i128 = 0;
    let mut i: usize = 0;
    while i < items.len()
        invariant
            i <= items@.len(),
            acc == sum_prices(items@.subrange(0, i as int)),
            -(i * 0x8000_0000_0000_0000) <= acc <= i * 0x8000_0000_0000_0000,
        decreases items.len() - i,
    {
        proof {
            assert(items@.subrange(0, i + 1).drop_last() =~= items@.subrange(0, i as int));
            assert((i + 1) * 0x8000_0000_0000_0000 <= 0xffff_ffff_ffff_ffff * 0x8000_0000_0000_0000) by (nonlinear_arith)
                requires i + 1 <= 0xffff_ffff_ffff_ffff;
        }
        acc = acc + items[i].price.minor as i128;
        i += 1;
    }
    assert(items@.subrange(0, items@.len() as int) =~= items@);
    if acc < i64::MIN as i128 || acc > i64::MAX as i128 {
        None
    } else {
        Some(acc as i64)
    }
}

} // verus!
