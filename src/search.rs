//! The search for the best admissible choice among candidate bundles.
use vstd::prelude::*;
use crate::candidates::copy_indices;
use crate::items::Item;
use crate::money::fits_i64;
use crate::promotions::Promotion;
use crate::solver::{
    Bundle, admissible, all_valid, bundle_saving, count_for, disjoint, picked, spent_for, taken, total_saving,
    valid_bundle, within_budget,
};

verus! {

/// What the bundle saves, or `None` where the sum leaves 64 bits.
pub(crate) fn saving_of(items: &Vec<Item>, b: &Bundle) -> (r: Option<i128>)
    requires
        forall|k: int| 0 <= k < b.members@.len() ==> (#[trigger] b.members@[k]) < items@.len(),
        b.members@.len() == b.finals@.len(),
    ensures
        r is Some ==> r->Some_0 == bundle_saving(items@, b.members@, b.finals@) && fits_i64(r->Some_0 as int),
{
    let mut acc: i128 = 0;
    let mut j: usize = 0;
    while j < b.members.len()
        invariant
            j <= b.members@.len(),
            b.members@.len() == b.finals@.len(),
            forall|k: int| 0 <= k < b.members@.len() ==> (#[trigger] b.members@[k]) < items@.len(),
            acc == bundle_saving(items@, b.members@.subrange(0, j as int), b.finals@.subrange(0, j as int)),
            fits_i64(acc as int),
        decreases b.members@.len() - j,
    {
        assert(b.members@.subrange(0, j + 1).drop_last() =~= b.members@.subrange(0, j as int));
        assert(b.finals@.subrange(0, j + 1).drop_last() =~= b.finals@.subrange(0, j as int));
        acc = acc + (items[b.members[j]].price.minor as i128 - b.finals[j] as i128);
        if acc < i64::MIN as i128 || acc > i64::MAX as i128 {
            return None;
        }
        j += 1;
    }
    assert(b.members@.subrange(0, j as int) =~= b.members@);
    assert(b.finals@.subrange(0, j as int) =~= b.finals@);
    Some(acc)
}

/// Sets `used[m]` to `value` for every member `m`.
fn set_members(used: &mut Vec<bool>, members: &Vec<usize>, value: bool)
    requires
        forall|k: int| 0 <= k < members@.len() ==> (#[trigger] members@[k]) < old(used)@.len(),
    ensures
        final(used)@.len() == old(used)@.len(),
        forall|i: usize| i < old(used)@.len() ==> #[trigger] final(used)@[i as int] == if members@.contains(i) {
            value
        } else {
            old(used)@[i as int]
        },
{
    let ghost start = used@;
    let mut j: usize = 0;
    while j < members.len()
        invariant
            j <= members@.len(),
            used@.len() == start.len(),
            forall|k: int| 0 <= k < members@.len() ==> (#[trigger] members@[k]) < start.len(),
            forall|i: usize| i < start.len() ==> #[trigger] used@[i as int] == if members@.subrange(0, j as int).contains(i) {
                value
            } else {
                start[i as int]
            },
        decreases members@.len() - j,
    {
        let m = members[j];
        used.set(m, value);
        proof {
            assert forall|i: usize| i < start.len() implies #[trigger] used@[i as int] == if members@.subrange(0, j + 1).contains(i) {
                value
            } else {
                start[i as int]
            } by {
                if members@.subrange(0, j + 1).contains(i) && i != m {
                    let w = choose|w: int| 0 <= w < j + 1 && #[trigger] members@.subrange(0, j + 1)[w] == i;
                    assert(w != j);
                    assert(members@.subrange(0, j as int)[w] == i);
                }
                if members@.subrange(0, j as int).contains(i) {
                    let w = choose|w: int| 0 <= w < j && #[trigger] members@.subrange(0, j as int)[w] == i;
                    assert(members@.subrange(0, j + 1)[w] == i);
                }
                if i == m {
                    assert(members@.subrange(0, j + 1)[j as int] == m);
                }
            }
        }
        j += 1;
    }
    assert(members@.subrange(0, j as int) =~= members@);
}

/// Whether the search state describes the bundles `picked(cands, chosen)`.
pub open spec fn state_ok(
    promos: Seq<Promotion>,
    items: Seq<Item>,
    cands: Seq<Bundle>,
    used: Seq<bool>,
    counts: Seq<u64>,
    spent: Seq<i128>,
    chosen: Seq<usize>,
    cur: i128,
) -> bool {
    let bs = picked(cands, chosen);
    &&& forall|k: int| 0 <= k < chosen.len() ==> (#[trigger] chosen[k]) < cands.len()
    &&& used.len() == items.len()
    &&& forall|i: int| 0 <= i < items.len() ==> #[trigger] used[i] == taken(bs, i)
    &&& counts.len() == promos.len()
    &&& forall|p: int| 0 <= p < promos.len() ==> #[trigger] counts[p] == count_for(bs, p)
    &&& spent.len() == promos.len()
    &&& forall|p: int| 0 <= p < promos.len() ==> #[trigger] spent[p] == spent_for(items, bs, p)
    &&& admissible(promos, items, bs)
    &&& cur == total_saving(items, bs)
    &&& cur >= 0
}

/// Whether `best` is an admissible choice saving `saving`.
pub open spec fn best_ok(promos: Seq<Promotion>, items: Seq<Item>, cands: Seq<Bundle>, best: Seq<usize>, saving: i128) -> bool {
    &&& forall|k: int| 0 <= k < best.len() ==> (#[trigger] best[k]) < cands.len()
    &&& admissible(promos, items, picked(cands, best))
    &&& saving == total_saving(items, picked(cands, best))
    &&& saving >= 0
}

/// Whether `savings` holds what each candidate saves, each positive and within 64 bits.
pub open spec fn savings_ok(items: Seq<Item>, cands: Seq<Bundle>, savings: Seq<i128>) -> bool {
    &&& savings.len() == cands.len()
    &&& forall|k: int| 0 <= k < cands.len() ==> #[trigger] savings[k] == bundle_saving(items, cands[k].members@, cands[k].finals@)
        && 0 < savings[k] <= i64::MAX
}

/// The most that the unused items from index `from` on could still save.
fn remaining_bound(used: &Vec<bool>, caps: &Vec<i128>, from: usize) -> (r: i128)
    requires
        caps@.len() == used@.len(),
        forall|i: int| 0 <= i < caps@.len() ==> 0 <= #[trigger] caps@[i] <= i64::MAX,
    ensures
        r >= 0,
{
    let mut acc: i128 = 0;
    let mut i: usize = from;
    while i < used.len()
        invariant
            caps@.len() == used@.len(),
            forall|k: int| 0 <= k < caps@.len() ==> 0 <= #[trigger] caps@[k] <= i64::MAX,
            0 <= acc <= i * 0x8000_0000_0000_0000,
        decreases used@.len() - i,
    {
        proof {
            assert((i + 1) * 0x8000_0000_0000_0000 <= 0xffff_ffff_ffff_ffff * 0x8000_0000_0000_0000) by (nonlinear_arith)
                requires i + 1 <= 0xffff_ffff_ffff_ffff;
        }
        if !used[i] {
            acc = acc + caps[i];
        }
        i += 1;
    }
    acc
}

proof fn lemma_picked_push(cands: Seq<Bundle>, chosen: Seq<usize>, c: usize)
    requires
        c < cands.len(),
    ensures
        picked(cands, chosen.push(c)) == picked(cands, chosen).push(cands[c as int]),
        picked(cands, chosen.push(c)).drop_last() == picked(cands, chosen),
{
    assert(picked(cands, chosen.push(c)) =~= picked(cands, chosen).push(cands[c as int]));
    assert(picked(cands, chosen).push(cands[c as int]).drop_last() =~= picked(cands, chosen));
}

pub proof fn lemma_taken_push(bs: Seq<Bundle>, b: Bundle, i: usize)
    ensures
        taken(bs.push(b), i as int) == (taken(bs, i as int) || b.members@.contains(i)),
{
    let bs2 = bs.push(b);
    if taken(bs2, i as int) {
        let (k, j) = choose|k: int, j: int| 0 <= k < bs2.len() && 0 <= j < bs2[k].members@.len() && (#[trigger] bs2[k].members@[j]) == i;
        if k < bs.len() {
            assert(bs[k] == bs2[k]);
            assert(bs[k].members@[j] == i);
        } else {
            assert(b.members@[j] == i);
        }
    }
    if taken(bs, i as int) {
        let (k, j) = choose|k: int, j: int| 0 <= k < bs.len() && 0 <= j < bs[k].members@.len() && (#[trigger] bs[k].members@[j]) == i;
        assert(bs2[k] == bs[k]);
        assert(bs2[k].members@[j] == i);
    }
    if b.members@.contains(i) {
        let j = choose|j: int| 0 <= j < b.members@.len() && #[trigger] b.members@[j] == i;
        assert(bs2[bs.len() as int] == b);
        assert(bs2[bs.len() as int].members@[j] == i);
    }
}

/// Adding an unused candidate within its promotion's budget keeps the state
/// describing an admissible assignment.
proof fn lemma_include(
    promos: Seq<Promotion>,
    items: Seq<Item>,
    cands: Seq<Bundle>,
    savings: Seq<i128>,
    used: Seq<bool>,
    counts: Seq<u64>,
    spent: Seq<i128>,
    chosen: Seq<usize>,
    cur: i128,
    c: usize,
    used2: Seq<bool>,
)
    requires
        all_valid(promos, items, cands),
        savings_ok(items, cands, savings),
        c < cands.len(),
        items.len() <= usize::MAX,
        state_ok(promos, items, cands, used, counts, spent, chosen, cur),
        forall|j: int| 0 <= j < cands[c as int].members@.len() ==> !used[#[trigger] cands[c as int].members@[j] as int],
        counts[cands[c as int].promotion as int] < u64::MAX,
        within_budget(
            promos[cands[c as int].promotion as int].budget_of(),
            (counts[cands[c as int].promotion as int] + 1) as nat,
            spent[cands[c as int].promotion as int] + savings[c as int],
        ),
        fits_i128(spent[cands[c as int].promotion as int] + savings[c as int]),
        fits_i128(cur + savings[c as int]),
        used2.len() == used.len(),
        forall|i: usize| i < used.len() ==> #[trigger] used2[i as int] == if cands[c as int].members@.contains(i) {
            true
        } else {
            used[i as int]
        },
    ensures
        ({
            let p = cands[c as int].promotion as int;
            state_ok(
                promos,
                items,
                cands,
                used2,
                counts.update(p, (counts[p] + 1) as u64),
                spent.update(p, (spent[p] + savings[c as int]) as i128),
                chosen.push(c),
                (cur + savings[c as int]) as i128,
            )
        }),
{
    let b = cands[c as int];
    let p = b.promotion as int;
    let bs = picked(cands, chosen);
    let chosen2 = chosen.push(c);
    lemma_picked_push(cands, chosen, c);
    let bs2 = picked(cands, chosen2);
    assert(bs2 == bs.push(b));
    assert(bs2.drop_last() == bs);
    assert(valid_bundle(promos, items, b));
    assert forall|k: int| 0 <= k < chosen2.len() implies (#[trigger] chosen2[k]) < cands.len() by {
        if k < chosen.len() {
            assert(chosen2[k] == chosen[k]);
        }
    }
    assert forall|i: int| 0 <= i < items.len() implies #[trigger] used2[i] == taken(bs2, i) by {
        lemma_taken_push(bs, b, i as usize);
        assert(used2[(i as usize) as int] == used2[i]);
    }
    let counts2 = counts.update(p, (counts[p] + 1) as u64);
    let spent2 = spent.update(p, (spent[p] + savings[c as int]) as i128);
    assert forall|q: int| 0 <= q < promos.len() implies #[trigger] counts2[q] == count_for(bs2, q) by {
        assert(count_for(bs2, q) == count_for(bs, q) + if b.promotion == q { 1nat } else { 0nat });
    }
    assert forall|q: int| 0 <= q < promos.len() implies #[trigger] spent2[q] == spent_for(items, bs2, q) by {
        assert(spent_for(items, bs2, q) == spent_for(items, bs, q) + if b.promotion == q {
            bundle_saving(items, b.members@, b.finals@)
        } else {
            0
        });
    }
    assert(total_saving(items, bs2) == total_saving(items, bs) + bundle_saving(items, b.members@, b.finals@));
    assert forall|k: int| 0 <= k < bs2.len() implies valid_bundle(promos, items, #[trigger] bs2[k]) by {
        assert(bs2[k] == cands[chosen2[k] as int]);
    }
    assert forall|x: int, y: int| 0 <= x < bs2.len() && 0 <= y < bs2.len() && x != y implies disjoint(#[trigger] bs2[x], #[trigger] bs2[y]) by {
        if x < bs.len() && y < bs.len() {
            assert(bs2[x] == bs[x] && bs2[y] == bs[y]);
            assert(disjoint(bs[x], bs[y]));
        } else {
            let k = if x < bs.len() { x } else { y };
            assert(bs2[k] == bs[k]);
            assert forall|u: int, v: int| 0 <= u < bs[k].members@.len() && 0 <= v < b.members@.len() implies bs[k].members@[u] != b.members@[v] by {
                let m = b.members@[v];
                assert(!used[m as int]);
                assert(m < items.len());
                if bs[k].members@[u] == m {
                    assert(taken(bs, m as int));
                }
            }
        }
    }
    assert forall|q: int| 0 <= q < promos.len() implies within_budget(#[trigger] promos[q].budget_of(), count_for(bs2, q), spent_for(items, bs2, q)) by {
        if q != p {
            assert(within_budget(promos[q].budget_of(), count_for(bs, q), spent_for(items, bs, q)));
        }
    }
}

pub open spec fn fits_i128(x: int) -> bool {
    i128::MIN <= x <= i128::MAX
}

/// Whether no member of `b` is used yet.
fn members_free(used: &Vec<bool>, b: &Bundle) -> (r: bool)
    requires
        forall|k: int| 0 <= k < b.members@.len() ==> (#[trigger] b.members@[k]) < used@.len(),
    ensures
        r == forall|j: int| 0 <= j < b.members@.len() ==> !used@[#[trigger] b.members@[j] as int],
{
    let mut j: usize = 0;
    while j < b.members.len()
        invariant
            j <= b.members@.len(),
            forall|k: int| 0 <= k < b.members@.len() ==> (#[trigger] b.members@[k]) < used@.len(),
            forall|k: int| 0 <= k < j ==> !used@[#[trigger] b.members@[k] as int],
        decreases b.members@.len() - j,
    {
        if used[b.members[j]] {
            return false;
        }
        j += 1;
    }
    true
}

/// Explores the choices for candidates `c..`, include before exclude, and keeps
/// in `best` the first choice found with the largest saving and, among those,
/// the fewest bundles.
pub(crate) fn search(
    promos: &Vec<Promotion>,
    items: &Vec<Item>,
    cands: &Vec<Bundle>,
    savings: &Vec<i128>,
    caps: &Vec<i128>,
    lows: &Vec<usize>,
    c: usize,
    used: &mut Vec<bool>,
    counts: &mut Vec<u64>,
    spent: &mut Vec<i128>,
    chosen: &mut Vec<usize>,
    cur: i128,
    best: &mut Vec<usize>,
    best_saving: &mut i128,
)
    requires
        all_valid(promos@, items@, cands@),
        savings_ok(items@, cands@, savings@),
        caps@.len() == items@.len(),
        forall|i: int| 0 <= i < caps@.len() ==> 0 <= #[trigger] caps@[i] <= i64::MAX,
        lows@.len() == cands@.len(),
        c <= cands@.len(),
        state_ok(promos@, items@, cands@, old(used)@, old(counts)@, old(spent)@, old(chosen)@, cur),
        best_ok(promos@, items@, cands@, old(best)@, *old(best_saving)),
    ensures
        final(used)@ == old(used)@,
        final(counts)@ == old(counts)@,
        final(spent)@ == old(spent)@,
        final(chosen)@ == old(chosen)@,
        best_ok(promos@, items@, cands@, final(best)@, *final(best_saving)),
    decreases cands@.len() - c,
{
    if c == cands.len() {
        if cur > *best_saving || (cur == *best_saving && chosen.len() < best.len()) {
            *best = copy_indices(chosen);
            *best_saving = cur;
        }
        return ;
    }
    let bound = remaining_bound(used, caps, lows[c]);
    if bound < *best_saving - cur {
        return ;
    }
    let b = &cands[c];
    let p = b.promotion;
    let sv = savings[c];
    assert(valid_bundle(promos@, items@, cands@[c as int]));
    let budget = promos[p].budget();
    let count_ok = match budget.redemption_limit {
        Some(l) => counts[p] < l as u64,
        None => counts[p] < u64::MAX,
    };
    let spent_ok = spent[p] <= i128::MAX - sv && match budget.monetary_limit {
        Some(m) => spent[p] + sv <= m.minor as i128,
        None => true,
    };
    if count_ok && spent_ok && cur <= i128::MAX - sv && members_free(used, b) {
        let ghost u0 = used@;
        let ghost k0 = counts@;
        let ghost s0 = spent@;
        let ghost ch0 = chosen@;
        let old_count = counts[p];
        let old_spent = spent[p];
        let n_items: usize = items.len();
        set_members(used, &b.members, true);
        proof {
            assert(items@.len() == n_items);
            lemma_include(promos@, items@, cands@, savings@, u0, k0, s0, ch0, cur, c, used@);
        }
        counts.set(p, old_count + 1);
        spent.set(p, old_spent + sv);
        chosen.push(c);
        search(promos, items, cands, savings, caps, lows, c + 1, used, counts, spent, chosen, cur + sv, best, best_saving);
        chosen.pop();
        spent.set(p, old_spent);
        counts.set(p, old_count);
        set_members(used, &b.members, false);
        proof {
            assert(chosen@ =~= ch0);
            assert(spent@ =~= s0);
            assert(counts@ =~= k0);
            assert(used@ =~= u0) by {
                assert(u0.len() == n_items);
                assert forall|i: int| 0 <= i < u0.len() implies used@[i] == u0[i] by {
                    assert(used@[(i as usize) as int] == used@[i]);
                    if b.members@.contains(i as usize) {
                        let j = choose|j: int| 0 <= j < b.members@.len() && #[trigger] b.members@[j] == i as usize;
                        assert(!u0[b.members@[j] as int]);
                    }
                }
            }
        }
    }
    search(promos, items, cands, savings, caps, lows, c + 1, used, counts, spent, chosen, cur, best, best_saving);
}

/// Whether two sequences of bundles agree on promotions, members and prices.
pub open spec fn same_bundles(a: Seq<Bundle>, b: Seq<Bundle>) -> bool {
    &&& a.len() == b.len()
    &&& forall|k: int| 0 <= k < a.len() ==> (#[trigger] a[k]).promotion == b[k].promotion
        && a[k].members@ == b[k].members@ && a[k].finals@ == b[k].finals@
}

proof fn lemma_same_bundles(promos: Seq<Promotion>, items: Seq<Item>, a: Seq<Bundle>, b: Seq<Bundle>)
    requires
        same_bundles(a, b),
    ensures
        forall|p: int| #[trigger] count_for(a, p) == count_for(b, p),
        forall|p: int| #[trigger] spent_for(items, a, p) == spent_for(items, b, p),
        total_saving(items, a) == total_saving(items, b),
    decreases a.len(),
{
    if a.len() > 0 {
        assert(same_bundles(a.drop_last(), b.drop_last())) by {
            assert forall|k: int| 0 <= k < a.drop_last().len() implies (#[trigger] a.drop_last()[k]).promotion == b.drop_last()[k].promotion
                && a.drop_last()[k].members@ == b.drop_last()[k].members@ && a.drop_last()[k].finals@ == b.drop_last()[k].finals@ by {
                assert(a.drop_last()[k] == a[k]);
                assert(b.drop_last()[k] == b[k]);
            }
        }
        lemma_same_bundles(promos, items, a.drop_last(), b.drop_last());
        assert(a.last() == a[a.len() - 1]);
        assert(b.last() == b[b.len() - 1]);
        assert forall|p: int| #[trigger] count_for(a, p) == count_for(b, p) by {
            assert(count_for(a.drop_last(), p) == count_for(b.drop_last(), p));
        }
        assert forall|p: int| #[trigger] spent_for(items, a, p) == spent_for(items, b, p) by {
            assert(spent_for(items, a.drop_last(), p) == spent_for(items, b.drop_last(), p));
        }
    }
}

pub(crate) proof fn lemma_same_admissible(promos: Seq<Promotion>, items: Seq<Item>, a: Seq<Bundle>, b: Seq<Bundle>)
    requires
        same_bundles(a, b),
        admissible(promos, items, a),
    ensures
        admissible(promos, items, b),
        total_saving(items, a) == total_saving(items, b),
{
    lemma_same_bundles(promos, items, a, b);
    {
        assert forall|k: int| 0 <= k < b.len() implies valid_bundle(promos, items, #[trigger] b[k]) by {
            assert(valid_bundle(promos, items, a[k]));
        }
        assert forall|x: int, y: int| 0 <= x < b.len() && 0 <= y < b.len() && x != y implies disjoint(#[trigger] b[x], #[trigger] b[y]) by {
            assert(disjoint(a[x], a[y]));
            assert(a[x].members@ == b[x].members@);
            assert(a[y].members@ == b[y].members@);
        }
        assert forall|p: int| 0 <= p < promos.len() implies within_budget(#[trigger] promos[p].budget_of(), count_for(b, p), spent_for(items, b, p)) by {
            assert(count_for(a, p) == count_for(b, p));
            assert(spent_for(items, a, p) == spent_for(items, b, p));
        }
    }
}

fn copy_prices(v: &Vec<i64>) -> (r: Vec<i64>)
    ensures
        r@ == v@,
{
    let mut r: Vec<i64> = Vec::new();
    let mut i: usize = 0;
    while i < v.len()
        invariant
            i <= v@.len(),
            r@ == v@.subrange(0, i as int),
        decreases v@.len() - i,
    {
        r.push(v[i]);
        i += 1;
    }
    assert(v@.subrange(0, v@.len() as int) =~= v@);
    r
}

/// A copy of a bundle.
pub fn copy_bundle(b: &Bundle) -> (r: Bundle)
    ensures
        r.promotion == b.promotion,
        r.members@ == b.members@,
        r.finals@ == b.finals@,
{
    Bundle { promotion: b.promotion, members: copy_indices(&b.members), finals: copy_prices(&b.finals) }
}

/// The lowest item index of a bundle.
pub(crate) fn lowest_member(b: &Bundle) -> (r: usize)
    ensures
        forall|j: int| 0 <= j < b.members@.len() ==> r <= #[trigger] b.members@[j],
        b.members@.len() > 0 ==> b.members@.contains(r),
        b.members@.len() == 0 ==> r == usize::MAX,
{
    let mut low: usize = usize::MAX;
    let mut j: usize = 0;
    while j < b.members.len()
        invariant
            j <= b.members@.len(),
            forall|k: int| 0 <= k < j ==> low <= #[trigger] b.members@[k],
            j > 0 ==> b.members@.take(j as int).contains(low),
            j == 0 ==> low == usize::MAX,
        decreases b.members@.len() - j,
    {
        proof {
            if j > 0 {
                let w = choose|w: int| 0 <= w < j && b.members@.take(j as int)[w] == low;
                assert(b.members@.take(j + 1)[w] == low);
            }
            assert(b.members@.take(j + 1)[j as int] == b.members@[j as int]);
        }
        if b.members[j] < low {
            low = b.members[j];
        }
        j += 1;
    }
    proof {
        if j > 0 {
            assert(b.members@.take(j as int) =~= b.members@);
        }
    }
    low
}

/// The search order of the candidates: by lowest item, then by larger saving,
/// then as found.
pub(crate) fn candidate_order(lows: &Vec<usize>, savings: &Vec<i128>) -> (r: Vec<usize>)
    requires
        lows@.len() == savings@.len(),
    ensures
        forall|x: int| 0 <= x < r@.len() ==> (#[trigger] r@[x]) < lows@.len(),
{
    let mut r: Vec<usize> = Vec::new();
    let mut k: usize = 0;
    while k < lows.len()
        invariant
            k <= lows@.len(),
            lows@.len() == savings@.len(),
            forall|x: int| 0 <= x < r@.len() ==> (#[trigger] r@[x]) < k,
        decreases lows@.len() - k,
    {
        let mut pos: usize = r.len();
        while pos > 0 && (lows[r[pos - 1]] > lows[k] || (lows[r[pos - 1]] == lows[k] && savings[r[pos - 1]] < savings[k]))
            invariant
                pos <= r@.len(),
                k < lows@.len(),
                lows@.len() == savings@.len(),
                forall|x: int| 0 <= x < r@.len() ==> (#[trigger] r@[x]) < k,
            decreases pos,
        {
            pos -= 1;
        }
        r.insert(pos, k);
        k += 1;
    }
    r
}

} // verus!
