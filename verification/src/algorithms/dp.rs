use vstd::prelude::*;

verus! {

/// An item of the 0-1 knapsack problem.
#[derive(Debug, PartialEq, Eq, Structural)]
pub struct SimpleKnapsackItem {
    /// The item's cost.
    pub weight: usize,
    /// The item's profit.
    pub value: usize,
}

/// The items that the selection `sel` keeps, in their original order.
pub open spec fn picked(items: Seq<SimpleKnapsackItem>, sel: Seq<bool>) -> Seq<SimpleKnapsackItem>
    decreases sel.len(),
{
    if sel.len() == 0 {
        Seq::empty()
    } else {
        let rest = picked(items, sel.drop_last());
        if sel.last() {
            rest.push(items[sel.len() - 1])
        } else {
            rest
        }
    }
}

/// Total weight of a sequence of items.
pub open spec fn weight_sum(s: Seq<SimpleKnapsackItem>) -> int
    decreases s.len(),
{
    if s.len() == 0 {
        0
    } else {
        weight_sum(s.drop_last()) + s.last().weight
    }
}

/// Total value of a sequence of items.
pub open spec fn value_sum(s: Seq<SimpleKnapsackItem>) -> int
    decreases s.len(),
{
    if s.len() == 0 {
        0
    } else {
        value_sum(s.drop_last()) + s.last().value
    }
}

/// The items behind a sequence of references.
pub open spec fn item_vals(s: Seq<&SimpleKnapsackItem>) -> Seq<SimpleKnapsackItem> {
    s.map_values(|r: &SimpleKnapsackItem| *r)
}

/// A selection over all of `items`.
pub open spec fn is_selection(items: Seq<SimpleKnapsackItem>, sel: Seq<bool>) -> bool {
    sel.len() == items.len()
}

/// `r` is an order-preserving choice of items, the most valuable among those whose
/// weight is `capacity` (when `exact`) or at most `capacity` (otherwise).
pub open spec fn is_optimal_pick(
    items: Seq<SimpleKnapsackItem>,
    capacity: int,
    exact: bool,
    r: Seq<SimpleKnapsackItem>,
) -> bool {
    &&& exists|sel: Seq<bool>| is_selection(items, sel) && #[trigger] picked(items, sel) == r
    &&& if exact {
        weight_sum(r) == capacity
    } else {
        weight_sum(r) <= capacity
    }
    &&& forall|sel: Seq<bool>|
        is_selection(items, sel) && (if exact {
            weight_sum(#[trigger] picked(items, sel)) == capacity
        } else {
            weight_sum(picked(items, sel)) <= capacity
        }) ==> value_sum(picked(items, sel)) <= value_sum(r)
}

/// Some selection fills exactly `capacity`.
pub open spec fn fillable(items: Seq<SimpleKnapsackItem>, capacity: int) -> bool {
    exists|sel: Seq<bool>|
        is_selection(items, sel) && weight_sum(#[trigger] picked(items, sel)) == capacity
}

/// The result contract of the 0-1 knapsack solvers.
pub open spec fn knapsack_result(
    items: Seq<SimpleKnapsackItem>,
    capacity: int,
    force_full: bool,
    r: Seq<SimpleKnapsackItem>,
) -> bool {
    if force_full && !fillable(items, capacity) {
        r.len() == 0
    } else {
        is_optimal_pick(items, capacity, force_full, r)
    }
}

/// Larger of two optional values (`None` is the smallest).
pub open spec fn max_opt(a: Option<int>, b: Option<int>) -> Option<int> {
    match (a, b) {
        (None, _) => b,
        (_, None) => a,
        (Some(x), Some(y)) => if y > x {
            b
        } else {
            a
        },
    }
}

/// The best value over selections of the first `i` items whose weight is exactly `j`.
pub open spec fn best(items: Seq<SimpleKnapsackItem>, i: int, j: int) -> Option<int>
    decreases i,
{
    if i <= 0 {
        if j == 0 {
            Some(0)
        } else {
            None
        }
    } else {
        let it = items[i - 1];
        let keep = best(items, i - 1, j);
        let take = if j >= it.weight {
            match best(items, i - 1, j - it.weight) {
                Some(x) => Some(x + it.value),
                None => None,
            }
        } else {
            None
        };
        max_opt(keep, take)
    }
}

/// Weights and values add up to non-negative totals.
pub proof fn lemma_sums_nonneg(s: Seq<SimpleKnapsackItem>)
    ensures
        weight_sum(s) >= 0,
        value_sum(s) >= 0,
    decreases s.len(),
{
    if s.len() > 0 {
        lemma_sums_nonneg(s.drop_last());
    }
}

/// Every selection of the first `i` items is bounded by `best`.
proof fn lemma_best_is_upper_bound(items: Seq<SimpleKnapsackItem>, sel: Seq<bool>)
    requires
        sel.len() <= items.len(),
    ensures
        best(items, sel.len() as int, weight_sum(picked(items, sel))) matches Some(x)
            && value_sum(picked(items, sel)) <= x,
    decreases sel.len(),
{
    if sel.len() > 0 {
        let q = sel.drop_last();
        lemma_best_is_upper_bound(items, q);
        let i = sel.len() as int;
        let it = items[i - 1];
        if sel.last() {
            let r = picked(items, q);
            assert(picked(items, sel).drop_last() =~= r);
            lemma_sums_nonneg(r);
        } else {
        }
    }
}

/// A value that `best` reports is reached by a selection.
proof fn lemma_best_is_reached(items: Seq<SimpleKnapsackItem>, i: int, j: int) -> (sel: Seq<bool>)
    requires
        0 <= i <= items.len(),
        best(items, i, j) is Some,
    ensures
        sel.len() == i,
        weight_sum(picked(items, sel)) == j,
        value_sum(picked(items, sel)) == best(items, i, j)->Some_0,
    decreases i,
{
    if i == 0 {
        Seq::empty()
    } else {
        let it = items[i - 1];
        let keep = best(items, i - 1, j);
        if best(items, i, j) == keep {
            let q = lemma_best_is_reached(items, i - 1, j);
            let sel = q.push(false);
            assert(sel.drop_last() =~= q);
            sel
        } else {
            let q = lemma_best_is_reached(items, i - 1, j - it.weight);
            let sel = q.push(true);
            assert(sel.drop_last() =~= q);
            assert(picked(items, sel).drop_last() =~= picked(items, q));
            sel
        }
    }
}

/// `best` never exceeds the total value of the first `i` items.
proof fn lemma_best_bounded(items: Seq<SimpleKnapsackItem>, i: int, j: int)
    requires
        0 <= i <= items.len(),
        best(items, i, j) is Some,
    ensures
        0 <= best(items, i, j)->Some_0 <= value_sum(items.take(i)),
    decreases i,
{
    if i > 0 {
        let it = items[i - 1];
        assert(items.take(i).drop_last() =~= items.take(i - 1));
        if best(items, i - 1, j) is Some {
            lemma_best_bounded(items, i - 1, j);
        }
        if j >= it.weight && best(items, i - 1, j - it.weight) is Some {
            lemma_best_bounded(items, i - 1, j - it.weight);
        }
        lemma_sums_nonneg(items.take(i - 1));
    }
}

proof fn lemma_value_sum_take_mono(items: Seq<SimpleKnapsackItem>, i: int)
    requires
        0 <= i <= items.len(),
    ensures
        value_sum(items.take(i)) <= value_sum(items),
    decreases items.len() - i,
{
    if i < items.len() {
        lemma_value_sum_take_mono(items, i + 1);
        assert(items.take(i + 1).drop_last() =~= items.take(i));
    } else {
        assert(items.take(i) =~= items);
    }
}

/// The integer view of an optional table entry.
pub open spec fn opt_view(o: Option<usize>) -> Option<int> {
    match o {
        Some(x) => Some(x as int),
        None => None,
    }
}

proof fn lemma_sum_prepend(x: SimpleKnapsackItem, s: Seq<SimpleKnapsackItem>)
    ensures
        weight_sum(seq![x] + s) == x.weight + weight_sum(s),
        value_sum(seq![x] + s) == x.value + value_sum(s),
    decreases s.len(),
{
    let t = seq![x] + s;
    if s.len() > 0 {
        lemma_sum_prepend(x, s.drop_last());
        assert(t.drop_last() =~= seq![x] + s.drop_last());
        assert(t.last() == s.last());
        assert(weight_sum(t) == weight_sum(t.drop_last()) + t.last().weight);
        assert(value_sum(t) == value_sum(t.drop_last()) + t.last().value);
    } else {
        assert(t.drop_last() =~= Seq::<SimpleKnapsackItem>::empty());
        assert(t.last() == x);
        assert(weight_sum(t) == weight_sum(t.drop_last()) + t.last().weight);
        assert(value_sum(t) == value_sum(t.drop_last()) + t.last().value);
    }
}

/// 0-1 knapsack by dynamic programming over (prefix of items, exact weight).
///
/// Returns references to chosen items, in the order of `items`, whose total weight
/// fits the capacity (equals it when `force_full`) and whose total value is the
/// largest possible. With `force_full`, when no choice of items fills the capacity
/// exactly, the result is empty.
pub fn simple_knapsack<'a>(items: &'a [SimpleKnapsackItem], capacity: usize, force_full: bool) -> (result: Vec<
    &'a SimpleKnapsackItem,
>)
    requires
        capacity < usize::MAX,
        value_sum(items@) <= usize::MAX,
    ensures
        knapsack_result(items@, capacity as int, force_full, item_vals(result@)),
{
    let n = items.len();
    let ghost its = items@;
    let mut dp: Vec<Vec<Option<usize>>> = Vec::new();
    let mut row0: Vec<Option<usize>> = vec![None; capacity + 1];
    row0.set(0, Some(0));
    dp.push(row0);
    assert forall|j: int| 0 <= j <= capacity implies opt_view(#[trigger] dp[0]@[j]) == best(its, 0, j) by {}
    let mut i: usize = 0;
    while i < n
        invariant
            n == items.len() == its.len(),
            its == items@,
            capacity < usize::MAX,
            value_sum(its) <= usize::MAX,
            i <= n,
            dp.len() == i + 1,
            forall|r: int| 0 <= r <= i ==> (#[trigger] dp[r]).len() == capacity + 1,
            forall|r: int, j: int|
                0 <= r <= i && 0 <= j <= capacity ==> opt_view(#[trigger] dp[r]@[j]) == best(its, r, j),
        decreases n - i,
    {
        let item = &items[i];
        let mut row: Vec<Option<usize>> = Vec::new();
        let mut j: usize = 0;
        while j <= capacity
            invariant
                n == items.len() == its.len(),
                its == items@,
                capacity < usize::MAX,
                value_sum(its) <= usize::MAX,
                i < n,
                *item == its[i as int],
                dp.len() == i + 1,
                forall|r: int| 0 <= r <= i ==> (#[trigger] dp[r]).len() == capacity + 1,
                forall|r: int, jj: int|
                    0 <= r <= i && 0 <= jj <= capacity ==> opt_view(#[trigger] dp[r]@[jj]) == best(its, r, jj),
                j <= capacity + 1,
                row.len() == j,
                forall|jj: int| 0 <= jj < j ==> opt_view(#[trigger] row@[jj]) == best(its, i + 1, jj),
            decreases capacity + 1 - j,
        {
            let mut cell = dp[i][j];
            if j >= item.weight {
                match dp[i][j - item.weight] {
                    Some(prev_value) => {
                        proof {
                            lemma_best_bounded(its, i + 1, j as int);
                            assert(its.take(i + 1).drop_last() =~= its.take(i as int));
                            lemma_value_sum_take_mono(its, i + 1);
                        }
                        let new_value = prev_value + item.value;
                        match cell {
                            None => {
                                cell = Some(new_value);
                            },
                            Some(v) => {
                                if new_value > v {
                                    cell = Some(new_value);
                                }
                            },
                        }
                    },
                    None => {},
                }
            }
            row.push(cell);
            j = j + 1;
        }
        dp.push(row);
        i = i + 1;
    }
    let mut now_p: usize = 0;
    if force_full {
        match dp[n][capacity] {
            None => {
                proof {
                    assert forall|sel: Seq<bool>| is_selection(its, sel) implies weight_sum(
                        #[trigger] picked(its, sel),
                    ) != capacity by {
                        lemma_best_is_upper_bound(its, sel);
                    }
                }
                return Vec::new();
            },
            Some(_) => {
                now_p = capacity;
            },
        }
    } else {
        let mut best_val: usize = 0;
        let mut j: usize = 0;
        while j <= capacity
            invariant
                n == its.len(),
                capacity < usize::MAX,
                dp.len() == n + 1,
                dp[n as int].len() == capacity + 1,
                forall|jj: int|
                    0 <= jj <= capacity ==> opt_view(#[trigger] dp[n as int]@[jj]) == best(its, n as int, jj),
                j <= capacity + 1,
                now_p <= capacity,
                j > 0 ==> best(its, n as int, now_p as int) == Some(best_val as int),
                forall|jj: int| 0 <= jj < j ==> match #[trigger] best(its, n as int, jj) {
                    Some(x) => x <= best_val,
                    None => true,
                },
            decreases capacity + 1 - j,
        {
            match dp[n][j] {
                Some(v) => {
                    if j == 0 || v >= best_val {
                        best_val = v;
                        now_p = j;
                    }
                },
                None => {
                    proof {
                        if j == 0 {
                            lemma_best_is_upper_bound(its, Seq::new(n as nat, |k: int| false));
                            lemma_picked_none(its, Seq::new(n as nat, |k: int| false));
                        }
                    }
                },
            }
            j = j + 1;
        }
    }
    // Walk back through the table, collecting the chosen items from last to first.
    let ghost target = best(its, n as int, now_p as int)->Some_0;
    let ghost target_w = now_p as int;
    let mut chosen: Vec<usize> = Vec::new();
    let ghost mut tail: Seq<bool> = Seq::empty();
    let ghost mut suffix: Seq<SimpleKnapsackItem> = Seq::empty();
    let ghost mut rem: int = target;
    let mut idx: usize = n;
    proof {
        assert forall|p: Seq<bool>| p.len() == n implies #[trigger] picked(its, p + tail) =~= picked(its, p) + suffix by {
            assert(p + tail =~= p);
        }
    }
    while idx > 0
        invariant
            n == items.len() == its.len(),
            its == items@,
            value_sum(its) <= usize::MAX,
            dp.len() == n + 1,
            forall|r: int| 0 <= r <= n ==> (#[trigger] dp[r]).len() == capacity + 1,
            forall|r: int, jj: int|
                0 <= r <= n && 0 <= jj <= capacity ==> opt_view(#[trigger] dp[r]@[jj]) == best(its, r, jj),
            idx <= n,
            now_p <= capacity,
            best(its, idx as int, now_p as int) == Some(rem),
            tail.len() == n - idx,
            weight_sum(suffix) == target_w - now_p,
            value_sum(suffix) == target - rem,
            forall|p: Seq<bool>| p.len() == idx ==> #[trigger] picked(its, p + tail) =~= picked(its, p) + suffix,
            forall|k: int| 0 <= k < chosen.len() ==> #[trigger] chosen@[k] < n,
            suffix =~= Seq::new(chosen.len() as nat, |k: int| its[chosen@[chosen.len() - 1 - k] as int]),
        decreases idx,
    {
        let item = &items[idx - 1];
        let mut taken = false;
        if now_p >= item.weight {
            match dp[idx - 1][now_p - item.weight] {
                Some(prev_value) => {
                    proof {
                        lemma_best_bounded(its, idx as int, now_p as int);
                        lemma_value_sum_take_mono(its, idx as int);
                        lemma_best_bounded(its, idx - 1, now_p - item.weight);
                    }
                    if dp[idx][now_p] == Some(prev_value + item.value) {
                        taken = true;
                    }
                },
                None => {},
            }
        }
        let ghost old_suffix = suffix;
        let ghost old_tail = tail;
        proof {
            tail = seq![taken] + tail;
            if taken {
                suffix = seq![*item] + suffix;
                rem = rem - item.value;
                lemma_sum_prepend(*item, old_suffix);
            }
            assert forall|p: Seq<bool>| p.len() == idx - 1 implies #[trigger] picked(its, p + tail) =~= picked(
                its,
                p,
            ) + suffix by {
                assert(p + tail =~= p.push(taken) + old_tail);
                assert(picked(its, p.push(taken) + old_tail) =~= picked(its, p.push(taken)) + old_suffix);
                assert(p.push(taken).drop_last() =~= p);
            }
        }
        if taken {
            chosen.push(idx - 1);
            now_p = now_p - item.weight;
        }
        idx = idx - 1;
    }
    proof {
        assert(picked(its, Seq::<bool>::empty() + tail) =~= picked(its, Seq::<bool>::empty()) + suffix);
        assert(Seq::<bool>::empty() + tail =~= tail);
        lemma_sums_nonneg(suffix);
    }
    let mut result: Vec<&'a SimpleKnapsackItem> = Vec::new();
    let mut k: usize = chosen.len();
    while k > 0
        invariant
            n == items.len() == its.len(),
            its == items@,
            k <= chosen.len(),
            forall|q: int| 0 <= q < chosen.len() ==> #[trigger] chosen@[q] < n,
            suffix =~= Seq::new(chosen.len() as nat, |q: int| its[chosen@[chosen.len() - 1 - q] as int]),
            item_vals(result@) =~= suffix.take(chosen.len() - k),
        decreases k,
    {
        let ghost before = result@;
        result.push(&items[chosen[k - 1]]);
        proof {
            let m = chosen.len() - k;
            assert(item_vals(result@) =~= item_vals(before).push(its[chosen@[k - 1] as int]));
            assert(suffix.take(m + 1) =~= suffix.take(m).push(suffix[m]));
        }
        k = k - 1;
    }
    proof {
        assert(suffix.take(chosen.len() as int) =~= suffix);
        assert(picked(its, tail) == item_vals(result@));
        if force_full {
            assert(fillable(its, capacity as int));
        }
        assert forall|sel: Seq<bool>|
            is_selection(its, sel) && (if force_full {
                weight_sum(#[trigger] picked(its, sel)) == capacity
            } else {
                weight_sum(picked(its, sel)) <= capacity
            }) implies value_sum(picked(its, sel)) <= value_sum(item_vals(result@)) by {
            lemma_best_is_upper_bound(its, sel);
            lemma_sums_nonneg(picked(its, sel));
        }
    }
    result
}

/// Choosing nothing picks nothing.
proof fn lemma_picked_none(items: Seq<SimpleKnapsackItem>, sel: Seq<bool>)
    requires
        forall|k: int| 0 <= k < sel.len() ==> !#[trigger] sel[k],
    ensures
        picked(items, sel) =~= Seq::<SimpleKnapsackItem>::empty(),
    decreases sel.len(),
{
    if sel.len() > 0 {
        lemma_picked_none(items, sel.drop_last());
    }
}

/// Sum of the first `i` entries of `s`.
pub open spec fn psum(s: Seq<usize>, i: int) -> int
    decreases i,
{
    if i <= 0 || s.len() == 0 {
        0
    } else {
        psum(s, i - 1) + s[i - 1]
    }
}

/// `cuts` splits the jobs `0..n` into consecutive non-empty batches:
/// batch `b` holds the jobs `cuts[b]..cuts[b + 1]`.
pub open spec fn valid_cuts(n: int, cuts: Seq<int>) -> bool {
    &&& cuts.len() >= 1
    &&& cuts[0] == 0
    &&& cuts.last() == n
    &&& forall|k: int| 0 <= k < cuts.len() - 1 ==> #[trigger] cuts[k] < cuts[k + 1]
}

/// Total cost of a batching: the jobs of batch `m` (1-based) all complete at
/// `m * startup + (processing time of all jobs up to the end of that batch)`, and
/// each job pays its completion time times its fee.
#[verifier::opaque]
pub open spec fn batch_cost(startup: int, duration: Seq<usize>, fee: Seq<usize>, cuts: Seq<int>) -> int
    decreases cuts.len(),
{
    if cuts.len() <= 1 {
        0
    } else {
        let m = cuts.len() - 1;
        let hi = cuts[m];
        let lo = cuts[m - 1];
        batch_cost(startup, duration, fee, cuts.drop_last()) + (m * startup + psum(duration, hi)) * (
        psum(fee, hi) - psum(fee, lo))
    }
}

/// `cost` is the least total cost over all batchings of the jobs, and some batching reaches it.
pub open spec fn is_optimal_batch_cost(startup: int, duration: Seq<usize>, fee: Seq<usize>, cost: int) -> bool {
    let n = duration.len() as int;
    &&& exists|cuts: Seq<int>| valid_cuts(n, cuts) && #[trigger] batch_cost(startup, duration, fee, cuts) == cost
    &&& forall|cuts: Seq<int>| valid_cuts(n, cuts) ==> cost <= #[trigger] batch_cost(startup, duration, fee, cuts)
}

/// The same cost with each batch's startup charged, up front, to all jobs not yet finished.
#[verifier::opaque]
spec fn shifted_cost(startup: int, duration: Seq<usize>, fee: Seq<usize>, n: int, cuts: Seq<int>) -> int
    decreases cuts.len(),
{
    if cuts.len() <= 1 {
        0
    } else {
        let m = cuts.len() - 1;
        let hi = cuts[m];
        let lo = cuts[m - 1];
        shifted_cost(startup, duration, fee, n, cuts.drop_last()) + psum(duration, hi) * (psum(fee, hi)
            - psum(fee, lo)) + startup * (psum(fee, n) - psum(fee, lo))
    }
}

proof fn lemma_psum_nonneg(s: Seq<usize>, i: int)
    ensures
        0 <= psum(s, i),
    decreases i,
{
    if i > 0 && s.len() > 0 {
        lemma_psum_nonneg(s, i - 1);
    }
}

proof fn lemma_psum_mono(s: Seq<usize>, i: int, j: int)
    requires
        0 <= i <= j <= s.len(),
    ensures
        0 <= psum(s, i) <= psum(s, j),
    decreases j,
{
    if j > i {
        lemma_psum_mono(s, i, j - 1);
    } else {
        lemma_psum_nonneg(s, i);
    }
}

proof fn lemma_valid_cuts_prefix(n: int, cuts: Seq<int>)
    requires
        valid_cuts(n, cuts),
        cuts.len() >= 2,
    ensures
        valid_cuts(cuts[cuts.len() - 2], cuts.drop_last()),
        0 <= cuts[cuts.len() - 2] < n,
        cuts.len() - 1 <= n,
    decreases cuts.len(),
{
    let d = cuts.drop_last();
    assert(d.last() == cuts[cuts.len() - 2]);
    if cuts.len() > 2 {
        lemma_valid_cuts_prefix(cuts[cuts.len() - 2], d);
    }
}

/// The two ways of charging the startups differ by the startups still owed to unfinished jobs.
proof fn lemma_shifted_vs_batch(startup: int, duration: Seq<usize>, fee: Seq<usize>, n: int, cuts: Seq<int>)
    requires
        cuts.len() >= 1,
    ensures
        shifted_cost(startup, duration, fee, n, cuts) == batch_cost(startup, duration, fee, cuts) + startup
            * (cuts.len() - 1) * (psum(fee, n) - psum(fee, cuts.last())),
    decreases cuts.len(),
{
    reveal(shifted_cost);
    reveal(batch_cost);
    if cuts.len() > 1 {
        let d = cuts.drop_last();
        lemma_shifted_vs_batch(startup, duration, fee, n, d);
        let m = cuts.len() - 1;
        let hi = cuts[m];
        let lo = cuts[m - 1];
        assert(d.last() == lo);
        let s_prev = shifted_cost(startup, duration, fee, n, d);
        let b_prev = batch_cost(startup, duration, fee, d);
        let fn_ = psum(fee, n);
        let fh = psum(fee, hi);
        let fl = psum(fee, lo);
        let th = psum(duration, hi);
        assert(s_prev + th * (fh - fl) + startup * (fn_ - fl) == b_prev + (m * startup + th) * (fh - fl)
            + startup * m * (fn_ - fh)) by (nonlinear_arith)
            requires
                s_prev == b_prev + startup * (m - 1) * (fn_ - fl),
        ;
    } else {
        assert(startup * (cuts.len() - 1) * (psum(fee, n) - psum(fee, cuts.last())) == 0) by (nonlinear_arith)
            requires
                cuts.len() - 1 == 0,
        ;
    }
}

/// Extending a batching by one more batch ending at `i`.
proof fn lemma_shifted_push(startup: int, duration: Seq<usize>, fee: Seq<usize>, n: int, c: Seq<int>, i: int)
    requires
        c.len() >= 1,
    ensures
        c.push(i).drop_last() == c,
        shifted_cost(startup, duration, fee, n, c.push(i)) == shifted_cost(startup, duration, fee, n, c) + psum(
            duration,
            i,
        ) * (psum(fee, i) - psum(fee, c.last())) + startup * (psum(fee, n) - psum(fee, c.last())),
{
    reveal(shifted_cost);
    assert(c.push(i).drop_last() =~= c);
}

/// Appending a later end point keeps a batching valid.
proof fn lemma_extend_cuts(i: int, j: int, c: Seq<int>)
    requires
        valid_cuts(j, c),
        j < i,
    ensures
        valid_cuts(i, c.push(i)),
{
    let cj = c.push(i);
    assert forall|k: int| 0 <= k < cj.len() - 1 implies #[trigger] cj[k] < cj[k + 1] by {
        if k < cj.len() - 2 {
            assert(c[k] < c[k + 1]);
        }
    }
}

/// The only batching of no jobs costs nothing.
proof fn lemma_empty_cuts(startup: int, duration: Seq<usize>, fee: Seq<usize>, n: int, cuts: Seq<int>)
    requires
        valid_cuts(0, cuts),
    ensures
        cuts.len() == 1,
        shifted_cost(startup, duration, fee, n, cuts) == 0,
        batch_cost(startup, duration, fee, cuts) == 0,
{
    reveal(shifted_cost);
    reveal(batch_cost);
    if cuts.len() > 1 {
        assert(cuts[0] < cuts[1]);
        lemma_valid_cuts_prefix(0, cuts);
    }
}

/// The shifted cost of a batching of the first `i` jobs stays within the overall bound.
proof fn lemma_shifted_bound(startup: int, duration: Seq<usize>, fee: Seq<usize>, n: int, cuts: Seq<int>)
    requires
        0 <= startup,
        n == duration.len() == fee.len(),
        valid_cuts(cuts.last(), cuts),
        cuts.last() <= n,
    ensures
        0 <= shifted_cost(startup, duration, fee, n, cuts) <= psum(duration, cuts.last()) * psum(fee, cuts.last())
            + startup * (cuts.len() - 1) * psum(fee, n),
    decreases cuts.len(),
{
    reveal(shifted_cost);
    if cuts.len() > 1 {
        let d = cuts.drop_last();
        lemma_valid_cuts_prefix(cuts.last(), cuts);
        lemma_shifted_bound(startup, duration, fee, n, d);
        let m = cuts.len() - 1;
        let hi = cuts[m];
        let lo = cuts[m - 1];
        lemma_psum_mono(duration, lo, hi);
        lemma_psum_mono(fee, lo, hi);
        lemma_psum_mono(fee, hi, n);
        let prev = shifted_cost(startup, duration, fee, n, d);
        let tl = psum(duration, lo);
        let th = psum(duration, hi);
        let fl = psum(fee, lo);
        let fh = psum(fee, hi);
        let fn_ = psum(fee, n);
        assert(0 <= prev + th * (fh - fl) + startup * (fn_ - fl) <= th * fh + startup * m * fn_)
            by (nonlinear_arith)
            requires
                0 <= prev <= tl * fl + startup * (m - 1) * fn_,
                0 <= tl <= th,
                0 <= fl <= fh <= fn_,
                0 <= startup,
        ;
    } else {
        assert(cuts.last() == 0);
        assert(startup * (cuts.len() - 1) * psum(fee, n) == 0) by (nonlinear_arith)
            requires
                cuts.len() - 1 == 0,
        ;
        lemma_psum_nonneg(duration, 0);
        lemma_psum_nonneg(fee, 0);
        assert(psum(duration, cuts.last()) * psum(fee, cuts.last()) >= 0) by (nonlinear_arith)
            requires
                psum(duration, cuts.last()) >= 0,
                psum(fee, cuts.last()) >= 0,
        ;
    }
}

/// The table entry `d` for the first `r` jobs is the least shifted cost, reached by `w`.
#[verifier::opaque]
spec fn row_ok(d: int, w: Seq<int>, r: int, startup: int, duration: Seq<usize>, fee: Seq<usize>, n: int) -> bool {
    &&& valid_cuts(r, w)
    &&& d == shifted_cost(startup, duration, fee, n, w)
    &&& d < usize::MAX
    &&& forall|cuts: Seq<int>| valid_cuts(r, cuts) ==> d <= #[trigger] shifted_cost(startup, duration, fee, n, cuts)
}

/// The candidate that closes a batch at `i` after an optimal batching of the first `j` jobs.
proof fn lemma_candidate(
    st: int,
    t: Seq<usize>,
    f: Seq<usize>,
    n: int,
    wj: Seq<int>,
    j: int,
    i: int,
    bound: int,
)
    requires
        0 <= st,
        n == t.len() == f.len(),
        0 <= j < i <= n,
        valid_cuts(j, wj),
        0 <= shifted_cost(st, t, f, n, wj),
        bound == (psum(t, n) + st * n) * psum(f, n),
    ensures
        valid_cuts(i, wj.push(i)),
        shifted_cost(st, t, f, n, wj.push(i)) == shifted_cost(st, t, f, n, wj) + psum(t, i) * (psum(f, i)
            - psum(f, j)) + st * (psum(f, n) - psum(f, j)),
        shifted_cost(st, t, f, n, wj.push(i)) <= bound,
        0 <= psum(t, i) * (psum(f, i) - psum(f, j)) <= bound,
        0 <= st * (psum(f, n) - psum(f, j)) <= bound,
        0 <= psum(f, j) <= psum(f, i) <= psum(f, n),
        0 <= psum(t, i) <= psum(t, n),
{
    let cj = wj.push(i);
    lemma_psum_mono(f, j, i);
    lemma_psum_mono(f, i, n);
    lemma_psum_mono(t, i, n);
    lemma_extend_cuts(i, j, wj);
    lemma_shifted_push(st, t, f, n, wj, i);
    lemma_shifted_bound(st, t, f, n, cj);
    lemma_valid_cuts_prefix(i, cj);
    assert(psum(t, i) * psum(f, i) + st * (cj.len() - 1) * psum(f, n) <= bound) by (nonlinear_arith)
        requires
            0 <= psum(t, i) <= psum(t, n),
            0 <= psum(f, i) <= psum(f, n),
            0 <= st,
            cj.len() - 1 <= n,
            bound == (psum(t, n) + st * n) * psum(f, n),
    ;
    assert(0 <= psum(t, i) * (psum(f, i) - psum(f, j)) <= bound) by (nonlinear_arith)
        requires
            0 <= psum(t, i) <= psum(t, n),
            0 <= psum(f, i) - psum(f, j) <= psum(f, n),
            0 <= st,
            0 <= n,
            bound == (psum(t, n) + st * n) * psum(f, n),
    ;
    assert(0 <= st * (psum(f, n) - psum(f, j)) <= bound) by (nonlinear_arith)
        requires
            0 <= st,
            1 <= n,
            0 <= psum(f, n) - psum(f, j) <= psum(f, n),
            0 <= psum(t, n),
            bound == (psum(t, n) + st * n) * psum(f, n),
    ;
}

/// After trying every last batch, the entry for the first `i` jobs is optimal.
proof fn lemma_row_done(
    dp: Seq<usize>,
    wit: Seq<Seq<int>>,
    i: int,
    st: int,
    t: Seq<usize>,
    f: Seq<usize>,
    n: int,
)
    requires
        1 <= i <= n,
        dp.len() == n + 1,
        wit.len() == n + 1,
        forall|r: int| 0 <= r < i ==> #[trigger] row_ok(dp[r] as int, wit[r], r, st, t, f, n),
        valid_cuts(i, wit[i]),
        dp[i] as int == shifted_cost(st, t, f, n, wit[i]),
        forall|jj: int|
            0 <= jj < i ==> dp[i] <= #[trigger] dp[jj] + psum(t, i) * (psum(f, i) - psum(f, jj)) + st * (psum(
                f,
                n,
            ) - psum(f, jj)),
        dp[i] < usize::MAX,
    ensures
        row_ok(dp[i] as int, wit[i], i, st, t, f, n),
{
    reveal(row_ok);
    assert forall|cuts: Seq<int>| valid_cuts(i, cuts) implies dp[i] <= #[trigger] shifted_cost(st, t, f, n, cuts) by {
        assert(cuts.len() >= 2) by {
            if cuts.len() == 1 {
                assert(cuts[0] == cuts.last());
            }
        }
        lemma_valid_cuts_prefix(i, cuts);
        let jj = cuts[cuts.len() - 2];
        lemma_shifted_push(st, t, f, n, cuts.drop_last(), i);
        assert(cuts.drop_last().push(i) =~= cuts);
        assert(row_ok(dp[jj] as int, wit[jj], jj, st, t, f, n));
        assert(dp[i] <= dp[jj] + psum(t, i) * (psum(f, i) - psum(f, jj)) + st * (psum(f, n) - psum(f, jj)));
    }
}

/// The cost that the dynamic program forms for the jobs up to `i` when the last batch
/// starts after job `j`, the cost up to `j` being `prev`.
pub open spec fn candidate(st: int, t: Seq<usize>, f: Seq<usize>, i: int, j: int, prev: int) -> int {
    prev + psum(t, i) * (psum(f, i) - psum(f, j)) + st * (psum(f, t.len() as int) - psum(f, j))
}

/// The value the dynamic program keeps for the jobs up to `i`.
pub open spec fn dp_value(st: int, t: Seq<usize>, f: Seq<usize>, i: int) -> int
    decreases i, i + 1,
{
    if i <= 0 {
        0
    } else {
        dp_best(st, t, f, i, i)
    }
}

/// The least of `usize::MAX` and the candidates for `i` over the first `j` starts.
pub open spec fn dp_best(st: int, t: Seq<usize>, f: Seq<usize>, i: int, j: int) -> int
    decreases i, j,
{
    if j <= 0 || j > i {
        usize::MAX as int
    } else {
        let c = candidate(st, t, f, i, j - 1, dp_value(st, t, f, j - 1));
        let m = dp_best(st, t, f, i, j - 1);
        if c < m {
            c
        } else {
            m
        }
    }
}

/// The instance is small enough for the dynamic program: the sums of durations and
/// fees fit in a `usize`, and every candidate cost it forms stays below `usize::MAX`.
pub open spec fn batch_fits(st: int, t: Seq<usize>, f: Seq<usize>) -> bool {
    &&& t.len() == f.len()
    &&& t.len() < usize::MAX
    &&& psum(t, t.len() as int) <= usize::MAX
    &&& psum(f, f.len() as int) <= usize::MAX
    &&& forall|i: int, j: int|
        1 <= i <= t.len() && 0 <= j < i ==> #[trigger] candidate(st, t, f, i, j, dp_value(st, t, f, j)) < usize::MAX
}

/// Batch scheduling: jobs run in the given order, split into consecutive batches;
/// every batch first spends `startup` time, then runs its jobs one after another.
pub struct BatchScheduling {
    /// Setup time paid before each batch.
    startup: usize,
    /// Processing time of each job.
    duration: Vec<usize>,
    /// Cost factor of each job.
    fee: Vec<usize>,
}

impl BatchScheduling {
    #[verifier::type_invariant]
    spec fn inv(self) -> bool {
        self.duration.len() == self.fee.len()
    }

    pub closed spec fn startup_time(&self) -> int {
        self.startup as int
    }

    pub closed spec fn durations(&self) -> Seq<usize> {
        self.duration@
    }

    pub closed spec fn fees(&self) -> Seq<usize> {
        self.fee@
    }

    /// Builds an instance; `duration` and `fee` describe the same jobs, so they have the same length.
    pub fn new(startup: usize, duration: Vec<usize>, fee: Vec<usize>) -> (r: Self)
        requires
            duration.len() == fee.len(),
        ensures
            r.startup_time() == startup,
            r.durations() == duration@,
            r.fees() == fee@,
    {
        Self { startup, duration, fee }
    }

    /// The least total cost over all ways of splitting the jobs into consecutive batches.
    ///
    /// Quadratic dynamic programming over the end of the last batch; the sums of
    /// durations and fees and every candidate cost the program forms must stay below
    /// `usize::MAX`.
    pub fn solve(&self) -> (cost: usize)
        requires
            batch_fits(self.startup_time(), self.durations(), self.fees()),
        ensures
            is_optimal_batch_cost(self.startup_time(), self.durations(), self.fees(), cost as int),
    {
        match self.solve_checked() {
            Some(c) => c,
            None => {
                proof {
                    assert(false);
                }
                0
            },
        }
    }

    /// The least total cost, or `None` where a sum of durations or fees, or a
    /// candidate cost of the dynamic program, does not stay below `usize::MAX`.
    pub fn solve_checked(&self) -> (r: Option<usize>)
        ensures
            r is Some <==> batch_fits(self.startup_time(), self.durations(), self.fees()),
            r matches Some(cost) ==> is_optimal_batch_cost(self.startup_time(), self.durations(), self.fees(), cost as int),
    {
        proof {
            use_type_invariant(self);
        }
        let ghost t = self.duration@;
        let ghost f = self.fee@;
        let ghost st = self.startup as int;
        let n = self.duration.len();
        if n == 0 {
            proof {
                let c = seq![0int];
                assert(valid_cuts(0, c));
                lemma_empty_cuts(st, t, f, 0, c);
                assert forall|cuts: Seq<int>| valid_cuts(0, cuts) implies 0 <= #[trigger] batch_cost(st, t, f, cuts) by {
                    lemma_empty_cuts(st, t, f, 0, cuts);
                }
            }
            return Some(0);
        }
        if n == usize::MAX {
            return None;
        }
        let mut prefix_t: Vec<usize> = vec![0; n + 1];
        let mut prefix_f: Vec<usize> = vec![0; n + 1];
        let mut i: usize = 0;
        while i < n
            invariant
                n == t.len() == f.len(),
                t == self.duration@,
                f == self.fee@,
                i <= n,
                prefix_t.len() == n + 1,
                prefix_f.len() == n + 1,
                forall|k: int| 0 <= k <= i ==> #[trigger] prefix_t[k] == psum(t, k),
                forall|k: int| 0 <= k <= i ==> #[trigger] prefix_f[k] == psum(f, k),
            decreases n - i,
        {
            proof {
                lemma_psum_mono(t, i + 1, n as int);
                lemma_psum_mono(f, i + 1, n as int);
            }
            let a = match prefix_t[i].checked_add(self.duration[i]) {
                Some(x) => x,
                None => {
                    return None;
                },
            };
            prefix_t.set(i + 1, a);
            let b = match prefix_f[i].checked_add(self.fee[i]) {
                Some(x) => x,
                None => {
                    return None;
                },
            };
            prefix_f.set(i + 1, b);
            i = i + 1;
        }
        proof {
            lemma_psum_mono(t, 0, n as int);
            lemma_psum_mono(f, 0, n as int);
            assert(prefix_t[n as int] == psum(t, n as int));
            assert(prefix_f[n as int] == psum(f, n as int));
        }
        let s = self.startup;
        let ghost bound = (psum(t, n as int) + st * n) * psum(f, n as int);
        let mut dp: Vec<usize> = vec![0; n + 1];
        let ghost mut wit: Seq<Seq<int>> = Seq::new((n + 1) as nat, |k: int| seq![0int]);
        proof {
            assert(valid_cuts(0, wit[0]));
            lemma_empty_cuts(st, t, f, n as int, wit[0]);
            assert forall|cuts: Seq<int>| valid_cuts(0, cuts) implies dp[0] <= #[trigger] shifted_cost(
                st,
                t,
                f,
                n as int,
                cuts,
            ) by {
                lemma_empty_cuts(st, t, f, n as int, cuts);
            }
        }
        let mut i: usize = 1;
        proof {
            reveal(row_ok);
        }
        while i <= n
            invariant
                n == t.len() == f.len(),
                st == s,
                1 <= i <= n + 1,
                prefix_t.len() == n + 1,
                prefix_f.len() == n + 1,
                forall|k: int| 0 <= k <= n ==> #[trigger] prefix_t[k] == psum(t, k),
                forall|k: int| 0 <= k <= n ==> #[trigger] prefix_f[k] == psum(f, k),
                psum(t, n as int) <= usize::MAX,
                psum(f, n as int) <= usize::MAX,
                bound == (psum(t, n as int) + st * n) * psum(f, n as int),
                t == self.duration@,
                f == self.fee@,
                st == self.startup as int,
                dp.len() == n + 1,
                wit.len() == n + 1,
                forall|r: int| 0 <= r < i ==> #[trigger] row_ok(dp[r] as int, wit[r], r, st, t, f, n as int),
                forall|r: int| 0 <= r < i ==> #[trigger] dp[r] as int == dp_value(st, t, f, r),
                forall|ii: int, jj: int| 1 <= ii < i && 0 <= jj < ii ==> #[trigger] candidate(st, t, f, ii, jj, dp_value(st, t, f, jj)) < usize::MAX,
            decreases n + 1 - i,
        {
            let t_i = prefix_t[i];
            dp.set(i, usize::MAX);
            let mut j: usize = 0;
            while j < i
                invariant
                    n == t.len() == f.len(),
                    st == s,
                    1 <= i <= n,
                    j <= i,
                    t_i == psum(t, i as int),
                    prefix_t.len() == n + 1,
                    prefix_f.len() == n + 1,
                    forall|k: int| 0 <= k <= n ==> #[trigger] prefix_t[k] == psum(t, k),
                    forall|k: int| 0 <= k <= n ==> #[trigger] prefix_f[k] == psum(f, k),
                    psum(t, n as int) <= usize::MAX,
                    psum(f, n as int) <= usize::MAX,
                    bound == (psum(t, n as int) + st * n) * psum(f, n as int),
                    t == self.duration@,
                    f == self.fee@,
                    st == self.startup as int,
                    dp.len() == n + 1,
                    forall|r: int| 0 <= r < i ==> #[trigger] dp[r] as int == dp_value(st, t, f, r),
                    dp[i as int] as int == dp_best(st, t, f, i as int, j as int),
                    forall|ii: int, jj: int| 1 <= ii < i && 0 <= jj < ii ==> #[trigger] candidate(st, t, f, ii, jj, dp_value(st, t, f, jj)) < usize::MAX,
                    forall|jj: int| 0 <= jj < j ==> #[trigger] candidate(st, t, f, i as int, jj, dp_value(st, t, f, jj)) < usize::MAX,
                    wit.len() == n + 1,
                    forall|r: int| 0 <= r < i ==> #[trigger] row_ok(dp[r] as int, wit[r], r, st, t, f, n as int),
                    j > 0 ==> valid_cuts(i as int, wit[i as int]),
                    j > 0 ==> dp[i as int] as int == shifted_cost(st, t, f, n as int, wit[i as int]),
                    j == 0 ==> dp[i as int] == usize::MAX,
                    j > 0 ==> dp[i as int] < usize::MAX,
                    forall|jj: int|
                        0 <= jj < j ==> dp[i as int] <= #[trigger] dp[jj] + psum(t, i as int) * (psum(f, i as int)
                            - psum(f, jj)) + st * (psum(f, n as int) - psum(f, jj)),
                decreases i - j,
            {
                let prev = dp[j];
                let ghost wj = wit[j as int];
                let ghost cj = wj.push(i as int);
                proof {
                    assert(row_ok(dp[j as int] as int, wit[j as int], j as int, st, t, f, n as int));
                    reveal(row_ok);
                    lemma_candidate(st, t, f, n as int, wj, j as int, i as int, bound);
                }
                let delta_f = prefix_f[i] - prefix_f[j];
                let rest_f = prefix_f[n] - prefix_f[j];
                let ghost c = candidate(st, t, f, i as int, j as int, dp_value(st, t, f, j as int));
                proof {
                    assert(prev as int == dp_value(st, t, f, j as int));
                    assert(c == prev + t_i * delta_f + s * rest_f);
                    assert(0 <= t_i * delta_f) by (nonlinear_arith)
                        requires
                            0 <= t_i,
                            0 <= delta_f,
                    ;
                    assert(0 <= s * rest_f) by (nonlinear_arith)
                        requires
                            0 <= s,
                            0 <= rest_f,
                    ;
                }
                let cost_in = match t_i.checked_mul(delta_f) {
                    Some(x) => x,
                    None => {
                        proof {
                            assert(c >= usize::MAX);
                            assert(!batch_fits(st, t, f));
                        }
                        return None;
                    },
                };
                let tail_startup = match s.checked_mul(rest_f) {
                    Some(x) => x,
                    None => {
                        proof {
                            assert(c >= usize::MAX);
                            assert(!batch_fits(st, t, f));
                        }
                        return None;
                    },
                };
                let part = match prev.checked_add(cost_in) {
                    Some(x) => x,
                    None => {
                        proof {
                            assert(c >= usize::MAX);
                            assert(!batch_fits(st, t, f));
                        }
                        return None;
                    },
                };
                let cand = match part.checked_add(tail_startup) {
                    Some(x) => x,
                    None => {
                        proof {
                            assert(c >= usize::MAX);
                            assert(!batch_fits(st, t, f));
                        }
                        return None;
                    },
                };
                if cand == usize::MAX {
                    proof {
                        assert(c >= usize::MAX);
                        assert(!batch_fits(st, t, f));
                    }
                    return None;
                }
                if cand < dp[i] {
                    dp.set(i, cand);
                    proof {
                        wit = wit.update(i as int, cj);
                    }
                }
                j = j + 1;
            }
            proof {
                lemma_row_done(dp@, wit, i as int, st, t, f, n as int);
            }
            i = i + 1;
        }
        proof {
            assert(row_ok(dp[n as int] as int, wit[n as int], n as int, st, t, f, n as int));
            reveal(row_ok);
        }
        let result = dp[n];
        proof {
            assert forall|ii: int, jj: int| 1 <= ii <= n && 0 <= jj < ii implies #[trigger] candidate(st, t, f, ii, jj, dp_value(st, t, f, jj))
                < usize::MAX by {}
            assert(batch_fits(st, t, f));
        }
        proof {
            lemma_shifted_vs_batch(st, t, f, n as int, wit[n as int]);
            assert(batch_cost(st, t, f, wit[n as int]) == result);
            assert forall|cuts: Seq<int>| valid_cuts(n as int, cuts) implies result <= #[trigger] batch_cost(
                st,
                t,
                f,
                cuts,
            ) by {
                lemma_shifted_vs_batch(st, t, f, n as int, cuts);
                assert(shifted_cost(st, t, f, n as int, cuts) == batch_cost(st, t, f, cuts));
            }
        }
        Some(result)
    }
}

} // verus!
