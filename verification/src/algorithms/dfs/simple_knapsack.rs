//! 0-1 knapsack by backtracking with a fractional-knapsack bound.
use vstd::prelude::*;
use crate::algorithms::dp::{
    SimpleKnapsackItem,
    picked,
    weight_sum,
    value_sum,
    item_vals,
    is_selection,
    knapsack_result,
    fillable,
};

verus! {

/// Total weight of the items that mask `m` keeps.
pub open spec fn mask_w(items: Seq<SimpleKnapsackItem>, m: Seq<bool>) -> int {
    weight_sum(picked(items, m))
}

/// Total value of the items that mask `m` keeps.
pub open spec fn mask_v(items: Seq<SimpleKnapsackItem>, m: Seq<bool>) -> int {
    value_sum(picked(items, m))
}

/// The entries kept by both masks.
pub open spec fn mask_and(a: Seq<bool>, b: Seq<bool>) -> Seq<bool> {
    Seq::new(a.len(), |i: int| a[i] && b[i])
}

/// The entries kept by `a` and not by `b`.
pub open spec fn mask_minus(a: Seq<bool>, b: Seq<bool>) -> Seq<bool> {
    Seq::new(a.len(), |i: int| a[i] && !b[i])
}

proof fn lemma_sum_push(s: Seq<SimpleKnapsackItem>, x: SimpleKnapsackItem)
    ensures
        weight_sum(s.push(x)) == weight_sum(s) + x.weight,
        value_sum(s.push(x)) == value_sum(s) + x.value,
{
    assert(s.push(x).drop_last() =~= s);
}

proof fn lemma_mask_push(items: Seq<SimpleKnapsackItem>, m: Seq<bool>, b: bool)
    requires
        m.len() < items.len(),
    ensures
        mask_w(items, m.push(b)) == mask_w(items, m) + if b {
            items[m.len() as int].weight as int
        } else {
            0
        },
        mask_v(items, m.push(b)) == mask_v(items, m) + if b {
            items[m.len() as int].value as int
        } else {
            0
        },
{
    assert(m.push(b).drop_last() =~= m);
    lemma_sum_push(picked(items, m), items[m.len() as int]);
}

proof fn lemma_mask_nonneg(items: Seq<SimpleKnapsackItem>, m: Seq<bool>)
    requires
        m.len() <= items.len(),
    ensures
        mask_w(items, m) >= 0,
        mask_v(items, m) >= 0,
    decreases m.len(),
{
    if m.len() > 0 {
        lemma_mask_nonneg(items, m.drop_last());
        lemma_mask_push(items, m.drop_last(), m.last());
        assert(m.drop_last().push(m.last()) =~= m);
    }
}

proof fn lemma_mask_none(items: Seq<SimpleKnapsackItem>, m: Seq<bool>)
    requires
        m.len() <= items.len(),
        forall|i: int| 0 <= i < m.len() ==> !m[i],
    ensures
        mask_w(items, m) == 0,
        mask_v(items, m) == 0,
    decreases m.len(),
{
    if m.len() > 0 {
        lemma_mask_none(items, m.drop_last());
        lemma_mask_push(items, m.drop_last(), m.last());
        assert(m.drop_last().push(m.last()) =~= m);
    }
}

/// Keeping one more item adds its weight and its value.
proof fn lemma_mask_set(items: Seq<SimpleKnapsackItem>, m: Seq<bool>, i: int)
    requires
        m.len() <= items.len(),
        0 <= i < m.len(),
        !m[i],
    ensures
        mask_w(items, m.update(i, true)) == mask_w(items, m) + items[i].weight,
        mask_v(items, m.update(i, true)) == mask_v(items, m) + items[i].value,
    decreases m.len(),
{
    let t = m.update(i, true);
    let k = m.len() - 1;
    lemma_mask_push(items, m.drop_last(), m.last());
    assert(m.drop_last().push(m.last()) =~= m);
    if i == k {
        lemma_mask_push(items, m.drop_last(), true);
        assert(m.drop_last().push(true) =~= t);
    } else {
        lemma_mask_set(items, m.drop_last(), i);
        assert(m.drop_last().update(i, true).push(m.last()) =~= t);
        lemma_mask_push(items, m.drop_last().update(i, true), m.last());
    }
}

/// A mask splits into the part inside `c` and the part outside it.
proof fn lemma_mask_split(items: Seq<SimpleKnapsackItem>, m: Seq<bool>, c: Seq<bool>)
    requires
        m.len() == c.len() <= items.len(),
    ensures
        mask_w(items, m) == mask_w(items, mask_and(m, c)) + mask_w(items, mask_minus(m, c)),
        mask_v(items, m) == mask_v(items, mask_and(m, c)) + mask_v(items, mask_minus(m, c)),
    decreases m.len(),
{
    if m.len() > 0 {
        let m0 = m.drop_last();
        let c0 = c.drop_last();
        lemma_mask_split(items, m0, c0);
        assert(mask_and(m, c) =~= mask_and(m0, c0).push(m.last() && c.last()));
        assert(mask_minus(m, c) =~= mask_minus(m0, c0).push(m.last() && !c.last()));
        assert(m0.push(m.last()) =~= m);
        lemma_mask_push(items, m0, m.last());
        lemma_mask_push(items, mask_and(m0, c0), m.last() && c.last());
        lemma_mask_push(items, mask_minus(m0, c0), m.last() && !c.last());
    } else {
        assert(mask_and(m, c) =~= m);
        assert(mask_minus(m, c) =~= m);
    }
}

/// A mask inside another keeps no more weight and no more value.
proof fn lemma_mask_sub(items: Seq<SimpleKnapsackItem>, a: Seq<bool>, b: Seq<bool>)
    requires
        a.len() == b.len() <= items.len(),
        forall|i: int| 0 <= i < a.len() && a[i] ==> b[i],
    ensures
        mask_w(items, a) <= mask_w(items, b),
        mask_v(items, a) <= mask_v(items, b),
    decreases a.len(),
{
    if a.len() > 0 {
        lemma_mask_sub(items, a.drop_last(), b.drop_last());
        lemma_mask_push(items, a.drop_last(), a.last());
        lemma_mask_push(items, b.drop_last(), b.last());
        assert(a.drop_last().push(a.last()) =~= a);
        assert(b.drop_last().push(b.last()) =~= b);
    }
}

/// If every kept item has value-to-weight ratio at most `V / W`, so do the totals.
proof fn lemma_mask_ratio_le(items: Seq<SimpleKnapsackItem>, m: Seq<bool>, ww: int, vv: int)
    requires
        m.len() <= items.len(),
        ww >= 0,
        vv >= 0,
        forall|i: int| 0 <= i < m.len() && m[i] ==> items[i].value * ww <= vv * items[i].weight,
    ensures
        mask_v(items, m) * ww <= vv * mask_w(items, m),
    decreases m.len(),
{
    if m.len() > 0 {
        let m0 = m.drop_last();
        lemma_mask_ratio_le(items, m0, ww, vv);
        lemma_mask_push(items, m0, m.last());
        assert(m0.push(m.last()) =~= m);
        let k = m0.len() as int;
        let a = mask_v(items, m0);
        let b = mask_w(items, m0);
        let x: int = if m.last() { items[k].value as int } else { 0 };
        let y: int = if m.last() { items[k].weight as int } else { 0 };
        assert(x * ww <= vv * y);
        assert((a + x) * ww <= vv * (b + y)) by (nonlinear_arith)
            requires
                a * ww <= vv * b,
                x * ww <= vv * y,
        ;
    }
}

/// If every kept item has value-to-weight ratio at least `V / W`, so do the totals.
proof fn lemma_mask_ratio_ge(items: Seq<SimpleKnapsackItem>, m: Seq<bool>, ww: int, vv: int)
    requires
        m.len() <= items.len(),
        ww >= 0,
        vv >= 0,
        forall|i: int| 0 <= i < m.len() && m[i] ==> items[i].value * ww >= vv * items[i].weight,
    ensures
        mask_v(items, m) * ww >= vv * mask_w(items, m),
    decreases m.len(),
{
    if m.len() > 0 {
        let m0 = m.drop_last();
        lemma_mask_ratio_ge(items, m0, ww, vv);
        lemma_mask_push(items, m0, m.last());
        assert(m0.push(m.last()) =~= m);
        let k = m0.len() as int;
        let a = mask_v(items, m0);
        let b = mask_w(items, m0);
        let x: int = if m.last() { items[k].value as int } else { 0 };
        let y: int = if m.last() { items[k].weight as int } else { 0 };
        assert(x * ww >= vv * y);
        assert((a + x) * ww >= vv * (b + y)) by (nonlinear_arith)
            requires
                a * ww >= vv * b,
                x * ww >= vv * y,
        ;
    }
}

/// Item `a` is at least as dense (value per weight) as item `b`, compared without
/// division.
pub open spec fn denser_eq(items: Seq<SimpleKnapsackItem>, a: int, b: int) -> bool {
    items[a].value * items[b].weight >= items[b].value * items[a].weight
}

/// An item with neither weight nor value.
pub open spec fn is_null(items: Seq<SimpleKnapsackItem>, a: int) -> bool {
    items[a].weight == 0 && items[a].value == 0
}

/// The search order of item indices: denser first, ties by index; items with neither
/// weight nor value last, by index.
pub open spec fn goes_before(items: Seq<SimpleKnapsackItem>, a: int, b: int) -> bool {
    if is_null(items, a) && is_null(items, b) {
        a < b
    } else if is_null(items, a) {
        false
    } else if is_null(items, b) {
        true
    } else if !denser_eq(items, b, a) {
        true
    } else {
        denser_eq(items, a, b) && a < b
    }
}

/// Index `i` occurs in `ord`.
pub open spec fn lists(ord: Seq<usize>, i: int) -> bool {
    exists|p: int| 0 <= p < ord.len() && ord[p] == i
}

/// `ord` lists every index below `n` once.
pub open spec fn is_perm(ord: Seq<usize>, n: int) -> bool {
    &&& ord.len() == n
    &&& forall|p: int| 0 <= p < n ==> #[trigger] ord[p] < n
    &&& forall|p: int, q: int| 0 <= p < q < n ==> #[trigger] ord[p] != #[trigger] ord[q]
    &&& forall|i: int| 0 <= i < n ==> #[trigger] lists(ord, i)
}

/// Each index is at least as dense as every index after it.
pub open spec fn density_sorted(items: Seq<SimpleKnapsackItem>, ord: Seq<usize>) -> bool {
    forall|p: int, q: int|
        0 <= p < q < ord.len() ==> denser_eq(items, #[trigger] ord[p] as int, #[trigger] ord[q] as int)
}

/// The position of index `i` in `ord`.
pub open spec fn pos_of(ord: Seq<usize>, i: int) -> int {
    choose|p: int| 0 <= p < ord.len() && ord[p] == i
}

proof fn lemma_pos_of(ord: Seq<usize>, n: int, p: int)
    requires
        is_perm(ord, n),
        0 <= p < n,
    ensures
        pos_of(ord, ord[p] as int) == p,
{
    let i = ord[p] as int;
    assert(lists(ord, i));
    let q = pos_of(ord, i);
    if q != p {
        if q < p {
            assert(ord[q] != ord[p]);
        } else {
            assert(ord[p] != ord[q]);
        }
    }
}

proof fn lemma_pos_of_range(ord: Seq<usize>, n: int, i: int)
    requires
        is_perm(ord, n),
        0 <= i < n,
    ensures
        0 <= pos_of(ord, i) < n,
        ord[pos_of(ord, i)] == i,
{
    assert(lists(ord, i));
}

/// Denser-or-equal is transitive among items that are not null.
proof fn lemma_denser_trans(items: Seq<SimpleKnapsackItem>, a: int, b: int, c: int)
    requires
        0 <= a < items.len(),
        0 <= b < items.len(),
        0 <= c < items.len(),
        !is_null(items, a),
        !is_null(items, b),
        !is_null(items, c),
        denser_eq(items, a, b),
        denser_eq(items, b, c),
    ensures
        denser_eq(items, a, c),
{
    let va = items[a].value as int;
    let wa = items[a].weight as int;
    let vb = items[b].value as int;
    let wb = items[b].weight as int;
    let vc = items[c].value as int;
    let wc = items[c].weight as int;
    if wb > 0 {
        assert(va * wc >= vc * wa) by (nonlinear_arith)
            requires
                va * wb >= vb * wa,
                vb * wc >= vc * wb,
                wb > 0,
                va >= 0,
                wa >= 0,
                vb >= 0,
                vc >= 0,
                wc >= 0,
        ;
    } else {
        assert(vb > 0);
        assert(vb * wa <= 0) by (nonlinear_arith)
            requires
                va * wb >= vb * wa,
                wb == 0,
        ;
        assert(wa == 0) by (nonlinear_arith)
            requires
                vb * wa <= 0,
                vb > 0,
                wa >= 0,
        ;
        assert(va * wc >= vc * wa) by (nonlinear_arith)
            requires
                va >= 0,
                wc >= 0,
                wa == 0,
        ;
    }
}

proof fn lemma_denser_refl(items: Seq<SimpleKnapsackItem>, a: int)
    ensures
        denser_eq(items, a, a),
{
    assert(items[a].value * items[a].weight >= items[a].value * items[a].weight);
}

/// The search order is a strict total order on indices.
proof fn lemma_goes_before_order(items: Seq<SimpleKnapsackItem>, a: int, b: int, c: int)
    requires
        0 <= a < items.len(),
        0 <= b < items.len(),
        0 <= c < items.len(),
    ensures
        !goes_before(items, a, a),
        a != b ==> goes_before(items, a, b) || goes_before(items, b, a),
        goes_before(items, a, b) && goes_before(items, b, c) ==> goes_before(items, a, c),
        goes_before(items, a, b) ==> denser_eq(items, a, b),
{
    lemma_denser_refl(items, a);
    if goes_before(items, a, b) && goes_before(items, b, c) {
        if !is_null(items, a) && !is_null(items, b) && !is_null(items, c) {
            if denser_eq(items, c, a) {
                lemma_denser_trans(items, c, a, b);
                lemma_denser_trans(items, b, c, a);
            }
            if !denser_eq(items, c, a) {
            } else {
                lemma_denser_trans(items, a, b, c);
            }
        }
    }
    if goes_before(items, a, b) && (is_null(items, a) || is_null(items, b)) {
        assert(items[a].value * items[b].weight >= items[b].value * items[a].weight) by (nonlinear_arith)
            requires
                is_null(items, b) || (is_null(items, a) && is_null(items, b)),
                items[a].value >= 0,
                items[a].weight >= 0,
        ;
    }
}

/// Whether item `a` comes before item `b` in the search order.
fn goes_before_exec(items: &[SimpleKnapsackItem], a: usize, b: usize) -> (r: bool)
    requires
        a < items.len(),
        b < items.len(),
    ensures
        r == goes_before(items@, a as int, b as int),
{
    let ia = &items[a];
    let ib = &items[b];
    let null_a = ia.weight == 0 && ia.value == 0;
    let null_b = ib.weight == 0 && ib.value == 0;
    if null_a && null_b {
        return a < b;
    }
    if null_a {
        return false;
    }
    if null_b {
        return true;
    }
    let va = ia.value as u128;
    let wa = ia.weight as u128;
    let vb = ib.value as u128;
    let wb = ib.weight as u128;
    assert(va * wb <= u128::MAX && vb * wa <= u128::MAX) by (nonlinear_arith)
        requires
            va <= u64::MAX,
            wa <= u64::MAX,
            vb <= u64::MAX,
            wb <= u64::MAX,
    ;
    let ab = va * wb;
    let ba = vb * wa;
    if ab > ba {
        true
    } else {
        ab == ba && a < b
    }
}

/// Indices `0..n` in the search order (densest first).
fn sort_by_density(items: &[SimpleKnapsackItem]) -> (ord: Vec<usize>)
    ensures
        is_perm(ord@, items.len() as int),
        density_sorted(items@, ord@),
        forall|p: int, q: int|
            0 <= p < q < ord.len() ==> goes_before(items@, #[trigger] ord[p] as int, #[trigger] ord[q] as int),
{
    let n = items.len();
    let mut ord: Vec<usize> = Vec::with_capacity(n);
    let mut k: usize = 0;
    while k < n
        invariant
            k <= n == items.len(),
            ord@ == Seq::new(k as nat, |p: int| p as usize),
        decreases n - k,
    {
        ord.push(k);
        k = k + 1;
        proof {
            assert(ord@ =~= Seq::new(k as nat, |p: int| p as usize));
        }
    }
    let ghost mut pos: Seq<int> = Seq::new(n as nat, |i: int| i);
    let mut i: usize = 1;
    while i < n
        invariant
            n == items.len(),
            1 <= i || n == 0,
            i <= n || n == 0,
            ord.len() == n,
            pos.len() == n,
            forall|p: int| 0 <= p < n ==> #[trigger] ord[p] < n && pos[ord[p] as int] == p,
            forall|x: int| 0 <= x < n ==> 0 <= #[trigger] pos[x] < n && ord[pos[x]] == x,
            forall|p: int, q: int|
                0 <= p < q < i && q < n ==> goes_before(items@, #[trigger] ord[p] as int, #[trigger] ord[q] as int),
        decreases n - i,
    {
        let mut j: usize = i;
        while j > 0 && goes_before_exec(items, ord[j], ord[j - 1])
            invariant
                n == items.len(),
                1 <= i < n,
                j <= i,
                ord.len() == n,
                pos.len() == n,
                forall|p: int| 0 <= p < n ==> #[trigger] ord[p] < n && pos[ord[p] as int] == p,
                forall|x: int| 0 <= x < n ==> 0 <= #[trigger] pos[x] < n && ord[pos[x]] == x,
                forall|p: int, q: int|
                    0 <= p < q <= i && p != j && q != j ==> goes_before(
                        items@,
                        #[trigger] ord[p] as int,
                        #[trigger] ord[q] as int,
                    ),
                forall|q: int| j < q <= i ==> goes_before(items@, ord[j as int] as int, #[trigger] ord[q] as int),
            decreases j,
        {
            let x = ord[j];
            let y = ord[j - 1];
            ord.set(j, y);
            ord.set(j - 1, x);
            proof {
                pos = pos.update(x as int, j - 1).update(y as int, j as int);
            }
            j = j - 1;
        }
        proof {
            assert forall|p: int, q: int|
                0 <= p < q < i + 1 && q < n implies goes_before(items@, #[trigger] ord[p] as int, #[trigger] ord[q] as int) by {
                if q == j {
                    if p < j - 1 {
                        lemma_goes_before_order(items@, ord[p] as int, ord[j - 1] as int, ord[j as int] as int);
                    }
                    if p == j - 1 {
                        lemma_goes_before_order(items@, ord[j as int] as int, ord[j - 1] as int, ord[j as int] as int);
                        assert(ord[j - 1] != ord[j as int]) by {
                            assert(pos[ord[j - 1] as int] == j - 1);
                        }
                    }
                } else if p == j {
                } else {
                }
            }
        }
        i = i + 1;
    }
    proof {
        assert forall|p: int, q: int| 0 <= p < q < n implies #[trigger] ord[p] != #[trigger] ord[q] by {
            assert(pos[ord[p] as int] == p);
        }
        assert forall|x: int| 0 <= x < n implies #[trigger] lists(ord@, x) by {
            assert(ord[pos[x]] == x);
        }
        assert forall|p: int, q: int| 0 <= p < q < n implies denser_eq(items@, #[trigger] ord[p] as int, #[trigger] ord[q] as int) by {
            lemma_goes_before_order(items@, ord[p] as int, ord[q] as int, ord[q] as int);
        }
    }
    ord
}

/// The indices at the first `p` positions of `ord`.
pub open spec fn prefix_mask(ord: Seq<usize>, n: int, p: int) -> Seq<bool> {
    Seq::new(n as nat, |i: int| pos_of(ord, i) < p)
}

/// Prefix sums of weights and values along `ord`.
pub open spec fn prefix_sums_ok(
    items: Seq<SimpleKnapsackItem>,
    ord: Seq<usize>,
    pref_w: Seq<usize>,
    pref_v: Seq<usize>,
) -> bool {
    &&& pref_w.len() == ord.len() + 1
    &&& pref_v.len() == ord.len() + 1
    &&& pref_w[0] == 0
    &&& pref_v[0] == 0
    &&& forall|p: int|
        #![trigger ord[p]]
        0 <= p < ord.len() ==> pref_w[p + 1] == pref_w[p] + items[ord[p] as int].weight
            && pref_v[p + 1] == pref_v[p] + items[ord[p] as int].value
}

proof fn lemma_prefix_mask_step(ord: Seq<usize>, n: int, p: int)
    requires
        is_perm(ord, n),
        0 <= p < n,
    ensures
        prefix_mask(ord, n, p + 1) == prefix_mask(ord, n, p).update(ord[p] as int, true),
        !prefix_mask(ord, n, p)[ord[p] as int],
{
    lemma_pos_of(ord, n, p);
    assert forall|i: int| 0 <= i < n implies #[trigger] prefix_mask(ord, n, p + 1)[i] == prefix_mask(
        ord,
        n,
        p,
    ).update(ord[p] as int, true)[i] by {
        lemma_pos_of_range(ord, n, i);
    }
    assert(prefix_mask(ord, n, p + 1) =~= prefix_mask(ord, n, p).update(ord[p] as int, true));
}

/// The prefix sums are the totals of the prefix masks.
proof fn lemma_prefix_sums(
    items: Seq<SimpleKnapsackItem>,
    ord: Seq<usize>,
    n: int,
    pref_w: Seq<usize>,
    pref_v: Seq<usize>,
    p: int,
)
    requires
        items.len() == n,
        is_perm(ord, n),
        prefix_sums_ok(items, ord, pref_w, pref_v),
        0 <= p <= n,
    ensures
        mask_w(items, prefix_mask(ord, n, p)) == pref_w[p],
        mask_v(items, prefix_mask(ord, n, p)) == pref_v[p],
    decreases p,
{
    if p == 0 {
        assert forall|i: int| 0 <= i < n implies !prefix_mask(ord, n, 0)[i] by {
            lemma_pos_of_range(ord, n, i);
        }
        lemma_mask_none(items, prefix_mask(ord, n, 0));
    } else {
        lemma_prefix_sums(items, ord, n, pref_w, pref_v, p - 1);
        lemma_prefix_mask_step(ord, n, p - 1);
        lemma_mask_set(items, prefix_mask(ord, n, p - 1), ord[p - 1] as int);
        assert(pref_w[(p - 1) + 1] == pref_w[p - 1] + items[ord[p - 1] as int].weight);
    }
}

proof fn lemma_prefix_mask_full(ord: Seq<usize>, n: int)
    requires
        is_perm(ord, n),
    ensures
        forall|i: int| 0 <= i < n ==> #[trigger] prefix_mask(ord, n, n)[i],
{
    assert forall|i: int| 0 <= i < n implies #[trigger] prefix_mask(ord, n, n)[i] by {
        lemma_pos_of_range(ord, n, i);
    }
}

/// The block of positions `idx..j` as a mask.
pub open spec fn block_mask(ord: Seq<usize>, n: int, idx: int, j: int) -> Seq<bool> {
    mask_minus(prefix_mask(ord, n, j), prefix_mask(ord, n, idx))
}

/// Totals over positions `idx..j` are differences of prefix sums.
proof fn lemma_block_sums(
    items: Seq<SimpleKnapsackItem>,
    ord: Seq<usize>,
    n: int,
    pref_w: Seq<usize>,
    pref_v: Seq<usize>,
    idx: int,
    j: int,
)
    requires
        items.len() == n,
        is_perm(ord, n),
        prefix_sums_ok(items, ord, pref_w, pref_v),
        0 <= idx <= j <= n,
    ensures
        mask_w(items, block_mask(ord, n, idx, j)) == pref_w[j] - pref_w[idx],
        mask_v(items, block_mask(ord, n, idx, j)) == pref_v[j] - pref_v[idx],
{
    lemma_prefix_sums(items, ord, n, pref_w, pref_v, j);
    lemma_prefix_sums(items, ord, n, pref_w, pref_v, idx);
    let pj = prefix_mask(ord, n, j);
    let pi = prefix_mask(ord, n, idx);
    lemma_mask_split(items, pj, pi);
    assert(mask_and(pj, pi) =~= pi);
}

/// `x * w <= y` with `w > 0` gives `x <= y / w`.
proof fn lemma_floor_div(x: int, y: int, w: int)
    requires
        w > 0,
        y >= 0,
        x * w <= y,
    ensures
        x <= y / w,
{
    vstd::arithmetic::div_mod::lemma_fundamental_div_mod(y, w);
    vstd::arithmetic::div_mod::lemma_mod_pos_bound(y, w);
    assert(x <= y / w) by (nonlinear_arith)
        requires
            w > 0,
            x * w <= y,
            y == w * (y / w) + y % w,
            0 <= y % w < w,
    ;
}

/// The fractional-knapsack bound: a choice among the positions from `idx` on that
/// fits `cap` is worth at most the whole items at positions `idx..j` plus the
/// matching fraction of the item at `j`, when the order is by density and those whole
/// items fill all of `cap` but `rem`, less than the weight of the item at `j`.
proof fn lemma_fractional(
    items: Seq<SimpleKnapsackItem>,
    ord: Seq<usize>,
    n: int,
    idx: int,
    j: int,
    sel: Seq<bool>,
    cap: int,
)
    requires
        items.len() == n,
        is_perm(ord, n),
        density_sorted(items, ord),
        0 <= idx <= j <= n,
        sel.len() == n,
        forall|i: int| 0 <= i < n && sel[i] ==> pos_of(ord, i) >= idx,
        mask_w(items, sel) <= cap,
        cap - mask_w(items, block_mask(ord, n, idx, j)) >= 0,
        j < n ==> cap - mask_w(items, block_mask(ord, n, idx, j)) < items[ord[j] as int].weight,
    ensures
        j == n ==> mask_v(items, sel) <= mask_v(items, block_mask(ord, n, idx, j)),
        j < n ==> mask_v(items, sel) <= mask_v(items, block_mask(ord, n, idx, j)) + (items[ord[j] as int].value
            * (cap - mask_w(items, block_mask(ord, n, idx, j)))) / (items[ord[j] as int].weight as int),
{
    let t = block_mask(ord, n, idx, j);
    if j == n {
        lemma_prefix_mask_full(ord, n);
        assert forall|i: int| 0 <= i < n && sel[i] implies t[i] by {
            lemma_pos_of_range(ord, n, i);
        }
        lemma_mask_sub(items, sel, t);
    } else {
        let c = ord[j] as int;
        let ww = items[c].weight as int;
        let vv = items[c].value as int;
        let rem = cap - mask_w(items, t);
        lemma_pos_of(ord, n, j);
        let a = mask_and(sel, t);
        let b = mask_minus(sel, t);
        let cm = mask_minus(t, sel);
        lemma_mask_split(items, sel, t);
        lemma_mask_split(items, t, sel);
        assert(mask_and(t, sel) =~= a);
        assert forall|i: int| 0 <= i < b.len() && b[i] implies items[i].value * ww <= vv * items[i].weight by {
            lemma_pos_of_range(ord, n, i);
            let q = pos_of(ord, i);
            assert(q >= j);
            if q > j {
                assert(denser_eq(items, ord[j] as int, ord[q] as int));
            } else {
                assert(ord[q] == ord[j]);
            }
        }
        lemma_mask_ratio_le(items, b, ww, vv);
        assert forall|i: int| 0 <= i < cm.len() && cm[i] implies items[i].value * ww >= vv * items[i].weight by {
            lemma_pos_of_range(ord, n, i);
            let q = pos_of(ord, i);
            assert(q < j);
            assert(denser_eq(items, ord[q] as int, ord[j] as int));
        }
        lemma_mask_ratio_ge(items, cm, ww, vv);
        lemma_mask_nonneg(items, a);
        lemma_mask_nonneg(items, b);
        lemma_mask_nonneg(items, cm);
        let va = mask_v(items, a);
        let vb = mask_v(items, b);
        let vc = mask_v(items, cm);
        let wa = mask_w(items, a);
        let wb = mask_w(items, b);
        let wc = mask_w(items, cm);
        assert((va + vb - (va + vc)) * ww <= vv * rem) by (nonlinear_arith)
            requires
                vb * ww <= vv * wb,
                vc * ww >= vv * wc,
                wa + wb <= wa + wc + rem,
                vv >= 0,
                ww >= 0,
        ;
        assert(vv * rem >= 0) by (nonlinear_arith)
            requires
                vv >= 0,
                rem >= 0,
        ;
        lemma_floor_div(va + vb - (va + vc), vv * rem, ww);
    }
}

proof fn lemma_prefix_mono(
    items: Seq<SimpleKnapsackItem>,
    ord: Seq<usize>,
    pref_w: Seq<usize>,
    pref_v: Seq<usize>,
    p: int,
    q: int,
)
    requires
        prefix_sums_ok(items, ord, pref_w, pref_v),
        0 <= p <= q <= ord.len(),
    ensures
        pref_w[p] <= pref_w[q],
        pref_v[p] <= pref_v[q],
    decreases q - p,
{
    if p < q {
        lemma_prefix_mono(items, ord, pref_w, pref_v, p, q - 1);
        assert(pref_w[(q - 1) + 1] == pref_w[q - 1] + items[ord[q - 1] as int].weight);
    }
}

/// What the search over the items in `ord` shares: `ord` is a density order of all the
/// indices and `pref_w`, `pref_v` are its prefix sums, which fit in a `usize`.
pub open spec fn search_setup(
    items: Seq<SimpleKnapsackItem>,
    ord: Seq<usize>,
    pref_w: Seq<usize>,
    pref_v: Seq<usize>,
) -> bool {
    &&& is_perm(ord, items.len() as int)
    &&& density_sorted(items, ord)
    &&& prefix_sums_ok(items, ord, pref_w, pref_v)
}

/// An upper bound, plus `base`, on the value that items at positions `idx..` of `ord`
/// can add within capacity `cap`: the fractional knapsack over those positions, which
/// takes whole items in density order and a fraction of the first one that does not
/// fit.
fn fractional_upper_bound(
    items: &[SimpleKnapsackItem],
    ord: &[usize],
    pref_w: &[usize],
    pref_v: &[usize],
    idx: usize,
    cap: usize,
    base: usize,
) -> (ub: usize)
    requires
        search_setup(items@, ord@, pref_w@, pref_v@),
        idx <= ord.len(),
        base + (pref_v[ord.len() as int] - pref_v[idx as int]) <= usize::MAX,
    ensures
        base <= ub <= base + (pref_v[ord.len() as int] - pref_v[idx as int]),
        forall|sel: Seq<bool>|
            sel.len() == items.len() && (forall|i: int| 0 <= i < items.len() && sel[i] ==> pos_of(ord@, i) >= idx)
                && mask_w(items@, sel) <= cap ==> base + mask_v(items@, sel) <= ub,
{
    let n = ord.len();
    let ghost nn = n as int;
    let ghost its = items@;
    let ghost od = ord@;
    let ghost idx0 = idx as int;
    let ghost base0 = base as int;
    proof {
        lemma_prefix_mono(its, od, pref_w@, pref_v@, idx as int, nn);
    }
    let mut idx = idx;
    let mut base = base;
    while idx < n && items[ord[idx]].weight == 0
        invariant
            n == ord.len() == items.len() == nn,
            its == items@,
            od == ord@,
            search_setup(its, od, pref_w@, pref_v@),
            idx0 <= idx <= n,
            base == base0 + (pref_v[idx as int] - pref_v[idx0]),
            pref_w[idx as int] == pref_w[idx0],
            base0 + (pref_v[nn] - pref_v[idx0]) <= usize::MAX,
        decreases n - idx,
    {
        proof {
            assert(pref_v[idx + 1] == pref_v[idx as int] + items[ord[idx as int] as int].value);
            lemma_prefix_mono(its, od, pref_w@, pref_v@, idx + 1, nn);
        }
        base = base + items[ord[idx]].value;
        idx = idx + 1;
    }
    proof {
        lemma_prefix_mono(its, od, pref_w@, pref_v@, idx as int, nn);
        lemma_prefix_mono(its, od, pref_w@, pref_v@, idx0, idx as int);
    }
    if idx >= n || cap == 0 {
        proof {
            let j = idx as int;
            lemma_block_sums(its, od, nn, pref_w@, pref_v@, idx0, j);
            assert forall|sel: Seq<bool>|
                sel.len() == items.len() && (forall|i: int| 0 <= i < items.len() && sel[i] ==> pos_of(od, i) >= idx0)
                    && mask_w(its, sel) <= cap implies base0 + mask_v(its, sel) <= base by {
                lemma_fractional(its, od, nn, idx0, j, sel, cap as int);
                if j < nn {
                    assert(cap == 0);
                    assert(items[ord[j] as int].value * 0 == 0) by (nonlinear_arith);
                }
            }
        }
        return base;
    }
    let base_w = pref_w[idx];
    let mut lo = idx;
    let mut hi = n;
    let mut j = idx;
    while lo <= hi
        invariant_except_break
            j == lo - 1 || (j == idx && lo == idx),
        invariant
            n == ord.len() == items.len() == nn,
            its == items@,
            od == ord@,
            search_setup(its, od, pref_w@, pref_v@),
            idx < n,
            base_w == pref_w[idx as int],
            idx <= lo <= hi + 1,
            hi <= n,
            idx <= j <= n,
            pref_w[j as int] - base_w <= cap,
            forall|p: int| hi < p <= n ==> pref_w[p] - base_w > cap,
        ensures
            idx <= j <= n,
            pref_w[j as int] - base_w <= cap,
            j < n ==> pref_w[j + 1] - base_w > cap,
        decreases hi + 1 - lo,
    {
        let mid = lo + (hi - lo) / 2;
        proof {
            lemma_prefix_mono(its, od, pref_w@, pref_v@, idx as int, mid as int);
        }
        if pref_w[mid] - base_w <= cap {
            j = mid;
            if mid == n {
                break;
            }
            lo = mid + 1;
        } else {
            proof {
                assert forall|p: int| mid <= p <= n implies pref_w[p] - base_w > cap by {
                    lemma_prefix_mono(its, od, pref_w@, pref_v@, mid as int, p);
                }
            }
            hi = mid - 1;
        }
    }
    proof {
        lemma_prefix_mono(its, od, pref_w@, pref_v@, idx as int, j as int);
        lemma_prefix_mono(its, od, pref_w@, pref_v@, j as int, nn);
    }
    let mut val = base + (pref_v[j] - pref_v[idx]);
    let used = pref_w[j] - base_w;
    let rem = cap - used;
    let ghost plain = val as int;
    if j < n && rem > 0 {
        let w = items[ord[j]].weight;
        let v = items[ord[j]].value;
        if w > 0 {
            proof {
                assert(pref_w[j + 1] == pref_w[j as int] + items[ord[j as int] as int].weight);
                assert(pref_v[j + 1] == pref_v[j as int] + items[ord[j as int] as int].value);
                lemma_prefix_mono(its, od, pref_w@, pref_v@, j + 1, nn);
            }
            let v128 = v as u128;
            let r128 = rem as u128;
            let w128 = w as u128;
            assert(v128 * r128 <= u128::MAX) by (nonlinear_arith)
                requires
                    v128 <= u64::MAX,
                    r128 <= u64::MAX,
            ;
            let prod = v128 * r128;
            let frac = prod / w128;
            assert(frac <= v128) by (nonlinear_arith)
                requires
                    prod == v128 * r128,
                    frac == prod / w128,
                    r128 < w128,
                    w128 > 0,
            ;
            val = val + frac as usize;
        }
    }
    proof {
        lemma_block_sums(its, od, nn, pref_w@, pref_v@, idx0, j as int);
        assert forall|sel: Seq<bool>|
            sel.len() == items.len() && (forall|i: int| 0 <= i < items.len() && sel[i] ==> pos_of(od, i) >= idx0)
                && mask_w(its, sel) <= cap implies base0 + mask_v(its, sel) <= val by {
            lemma_fractional(its, od, nn, idx0, j as int, sel, cap as int);
            if j < nn && rem == 0 {
                assert(items[ord[j as int] as int].value * 0 == 0) by (nonlinear_arith);
            }
            if j < nn && rem > 0 {
                assert(pref_w[j + 1] == pref_w[j as int] + items[ord[j as int] as int].weight);
            }
        }
    }
    val
}

/// `sel` agrees with `cur` on the indices at positions before `depth`.
pub open spec fn completes(ord: Seq<usize>, sel: Seq<bool>, cur: Seq<bool>, depth: int) -> bool {
    &&& sel.len() == cur.len()
    &&& forall|i: int| 0 <= i < cur.len() && pos_of(ord, i) < depth ==> sel[i] == cur[i]
}

/// The weight of `sel` fits the capacity, and fills it exactly when `force_full`.
pub open spec fn fits(items: Seq<SimpleKnapsackItem>, sel: Seq<bool>, capacity: int, force_full: bool) -> bool {
    &&& mask_w(items, sel) <= capacity
    &&& force_full ==> mask_w(items, sel) == capacity
}

/// Everything the branch and bound keeps at one position of the search.
spec fn bt_state(
    items: Seq<SimpleKnapsackItem>,
    ord: Seq<usize>,
    pref_w: Seq<usize>,
    pref_v: Seq<usize>,
    capacity: int,
    depth: int,
    cur_w: int,
    cur_v: int,
    cur: Seq<bool>,
    best_pick: Seq<bool>,
) -> bool {
    &&& search_setup(items, ord, pref_w, pref_v)
    &&& 0 <= depth <= items.len()
    &&& cur.len() == items.len()
    &&& best_pick.len() == items.len()
    &&& forall|i: int| 0 <= i < items.len() && cur[i] ==> pos_of(ord, i) < depth
    &&& cur_w == mask_w(items, cur) <= capacity
    &&& cur_v == mask_v(items, cur)
}

/// Totals of a mask inside the first `depth` positions stay below the prefix sums.
proof fn lemma_inside_prefix(
    items: Seq<SimpleKnapsackItem>,
    ord: Seq<usize>,
    pref_w: Seq<usize>,
    pref_v: Seq<usize>,
    cur: Seq<bool>,
    depth: int,
)
    requires
        search_setup(items, ord, pref_w, pref_v),
        0 <= depth <= items.len(),
        cur.len() == items.len(),
        forall|i: int| 0 <= i < items.len() && cur[i] ==> pos_of(ord, i) < depth,
    ensures
        mask_w(items, cur) <= pref_w[depth],
        mask_v(items, cur) <= pref_v[depth],
{
    let n = items.len() as int;
    lemma_prefix_sums(items, ord, n, pref_w, pref_v, depth);
    lemma_mask_sub(items, cur, prefix_mask(ord, n, depth));
}

/// A selection that agrees with `cur` before `depth` is `cur` plus its part from
/// `depth` on.
proof fn lemma_completion_split(
    items: Seq<SimpleKnapsackItem>,
    ord: Seq<usize>,
    sel: Seq<bool>,
    cur: Seq<bool>,
    depth: int,
)
    requires
        is_perm(ord, items.len() as int),
        cur.len() == items.len(),
        completes(ord, sel, cur, depth),
        forall|i: int| 0 <= i < items.len() && cur[i] ==> pos_of(ord, i) < depth,
    ensures
        mask_w(items, sel) == mask_w(items, cur) + mask_w(items, mask_minus(sel, prefix_mask(ord, items.len() as int, depth))),
        mask_v(items, sel) == mask_v(items, cur) + mask_v(items, mask_minus(sel, prefix_mask(ord, items.len() as int, depth))),
        forall|i: int|
            0 <= i < items.len() && #[trigger] mask_minus(sel, prefix_mask(ord, items.len() as int, depth))[i]
                ==> pos_of(ord, i) >= depth,
{
    let n = items.len() as int;
    let pm = prefix_mask(ord, n, depth);
    lemma_mask_split(items, sel, pm);
    assert(mask_and(sel, pm) =~= cur);
}

/// Branch and bound over the positions of `ord` from `depth` on: each item is taken
/// (when it fits) or left out, and once a choice has been found (`found`) a branch
/// stops when its fractional bound cannot beat `best_val`. `best_val` and
/// `best_pick` move to the best choice that agrees with `cur_pick` before `depth`,
/// where none was found yet or it beats them.
fn dfs(
    items: &[SimpleKnapsackItem],
    ord: &[usize],
    pref_w: &[usize],
    pref_v: &[usize],
    capacity: usize,
    force_full: bool,
    depth: usize,
    cur_w: usize,
    cur_v: usize,
    cur_pick: &mut Vec<bool>,
    best_val: &mut usize,
    best_pick: &mut Vec<bool>,
    found: &mut bool,
)
    requires
        bt_state(
            items@,
            ord@,
            pref_w@,
            pref_v@,
            capacity as int,
            depth as int,
            cur_w as int,
            cur_v as int,
            old(cur_pick)@,
            old(best_pick)@,
        ),
    ensures
        final(cur_pick)@ == old(cur_pick)@,
        final(best_pick)@.len() == items.len(),
        *old(found) ==> *final(found) && *final(best_val) >= *old(best_val),
        (*final(best_val) == *old(best_val) && final(best_pick)@ == old(best_pick)@ && *final(found) == *old(found)) || (
        *final(found) && fits(items@, final(best_pick)@, capacity as int, force_full) && mask_v(
            items@,
            final(best_pick)@,
        ) == *final(best_val)),
        forall|sel: Seq<bool>|
            completes(ord@, sel, old(cur_pick)@, depth as int) && #[trigger] fits(items@, sel, capacity as int, force_full)
                ==> *final(found) && mask_v(items@, sel) <= *final(best_val),
    decreases ord.len() - depth,
{
    let n = ord.len();
    let ghost its = items@;
    let ghost od = ord@;
    let ghost cur0 = cur_pick@;
    proof {
        lemma_inside_prefix(its, od, pref_w@, pref_v@, cur0, depth as int);
        lemma_prefix_mono(its, od, pref_w@, pref_v@, depth as int, n as int);
    }
    if depth == n {
        if cur_w <= capacity {
            if force_full && cur_w != capacity {
                proof {
                    assert forall|sel: Seq<bool>|
                        completes(od, sel, cur0, depth as int) && #[trigger] fits(its, sel, capacity as int, force_full)
                            implies *found && mask_v(its, sel) <= *best_val by {
                        assert forall|i: int| 0 <= i < n implies sel[i] == cur0[i] by {
                            lemma_pos_of_range(od, n as int, i);
                        }
                        assert(sel =~= cur0);
                    }
                }
                return;
            }
            if !*found || cur_v > *best_val {
                *best_val = cur_v;
                *best_pick = cur_pick.clone();
                *found = true;
                proof {
                    assert(best_pick@ =~= cur0);
                }
            }
        }
        proof {
            assert forall|sel: Seq<bool>|
                completes(od, sel, cur0, depth as int) && #[trigger] fits(its, sel, capacity as int, force_full)
                    implies *found && mask_v(its, sel) <= *best_val by {
                assert forall|i: int| 0 <= i < n implies sel[i] == cur0[i] by {
                    lemma_pos_of_range(od, n as int, i);
                }
                assert(sel =~= cur0);
            }
        }
        return;
    }
    let cap_left = capacity - cur_w;
    let ub = fractional_upper_bound(items, ord, pref_w, pref_v, depth, cap_left, cur_v);
    if *found && ub <= *best_val {
        proof {
            assert forall|sel: Seq<bool>|
                completes(od, sel, cur0, depth as int) && #[trigger] fits(its, sel, capacity as int, force_full)
                    implies *found && mask_v(its, sel) <= *best_val by {
                lemma_completion_split(its, od, sel, cur0, depth as int);
            }
        }
        return;
    }
    let orig = ord[depth];
    let w = items[orig].weight;
    let v = items[orig].value;
    let ghost best0 = *best_val;
    let ghost bp0 = best_pick@;
    proof {
        lemma_pos_of(od, n as int, depth as int);
        assert(pref_w[depth + 1] == pref_w[depth as int] + items[ord[depth as int] as int].weight);
        assert(pref_v[depth + 1] == pref_v[depth as int] + items[ord[depth as int] as int].value);
        lemma_prefix_mono(its, od, pref_w@, pref_v@, depth + 1, n as int);
    }
    let ghost took = cur_w + w <= capacity;
    if cur_w + w <= capacity {
        cur_pick.set(orig, true);
        proof {
            lemma_mask_set(its, cur0, orig as int);
        }
        dfs(
            items,
            ord,
            pref_w,
            pref_v,
            capacity,
            force_full,
            depth + 1,
            cur_w + w,
            cur_v + v,
            cur_pick,
            best_val,
            best_pick,
            found,
        );
        cur_pick.set(orig, false);
        proof {
            assert(cur_pick@ =~= cur0);
        }
    }
    let ghost best1 = *best_val;
    let ghost bp1 = best_pick@;
    dfs(
        items,
        ord,
        pref_w,
        pref_v,
        capacity,
        force_full,
        depth + 1,
        cur_w,
        cur_v,
        cur_pick,
        best_val,
        best_pick,
        found,
    );
    proof {
        let taken = cur0.update(orig as int, true);
        lemma_mask_set(its, cur0, orig as int);
        assert forall|sel: Seq<bool>|
            completes(od, sel, cur0, depth as int) && #[trigger] fits(its, sel, capacity as int, force_full)
                implies *found && mask_v(its, sel) <= *best_val by {
            if sel[orig as int] {
                if took {
                    assert(completes(od, sel, taken, depth + 1)) by {
                        assert forall|i: int| 0 <= i < n && pos_of(od, i) < depth + 1 implies sel[i] == taken[i] by {
                            lemma_pos_of_range(od, n as int, i);
                        }
                    }
                } else {
                    let pm = prefix_mask(od, n as int, depth + 1);
                    lemma_mask_split(its, sel, pm);
                    assert(mask_and(sel, pm) =~= taken) by {
                        assert forall|i: int| 0 <= i < n implies mask_and(sel, pm)[i] == taken[i] by {
                            lemma_pos_of_range(od, n as int, i);
                        }
                    }
                    lemma_mask_nonneg(its, mask_minus(sel, pm));
                }
            } else {
                assert(completes(od, sel, cur0, depth + 1)) by {
                    assert forall|i: int| 0 <= i < n && pos_of(od, i) < depth + 1 implies sel[i] == cur0[i] by {
                        lemma_pos_of_range(od, n as int, i);
                    }
                }
            }
        }
    }
}

/// All items are kept by the mask that keeps every index.
proof fn lemma_picked_all(items: Seq<SimpleKnapsackItem>, m: Seq<bool>)
    requires
        m.len() <= items.len(),
        forall|i: int| 0 <= i < m.len() ==> m[i],
    ensures
        picked(items, m) == items.take(m.len() as int),
    decreases m.len(),
{
    if m.len() > 0 {
        lemma_picked_all(items, m.drop_last());
        assert(items.take(m.len() as int) =~= items.take(m.len() - 1).push(items[m.len() - 1]));
    } else {
        assert(items.take(0) =~= Seq::<SimpleKnapsackItem>::empty());
    }
}

/// 0-1 knapsack by backtracking with a branch-and-bound cut.
///
/// Items are searched in order of decreasing value density `v / w` (an item of weight
/// `0` counts as densest); a branch is cut when the fractional knapsack over the items
/// left, plus the value taken so far, cannot beat the best value found. Returns
/// references to the chosen items in the order of `items`. With `force_full` only
/// choices whose weight is exactly `capacity` count, and the result is empty when
/// there is none; the contract is that of the dynamic program.
pub fn simple_knapsack_backtracking<'a>(
    items: &'a [SimpleKnapsackItem],
    capacity: usize,
    force_full: bool,
) -> (result: Vec<&'a SimpleKnapsackItem>)
    requires
        items.len() < usize::MAX,
        weight_sum(items@) <= usize::MAX,
        value_sum(items@) <= usize::MAX,
    ensures
        knapsack_result(items@, capacity as int, force_full, item_vals(result@)),
{
    let n = items.len();
    let ghost its = items@;
    if n == 0 {
        let result: Vec<&'a SimpleKnapsackItem> = Vec::new();
        proof {
            assert(item_vals(result@) =~= Seq::<SimpleKnapsackItem>::empty());
            let none = Seq::<bool>::empty();
            assert(picked(its, none) =~= Seq::<SimpleKnapsackItem>::empty());
            assert forall|sel: Seq<bool>| is_selection(its, sel) implies #[trigger] picked(its, sel) =~= Seq::<
                SimpleKnapsackItem,
            >::empty() by {
                assert(sel =~= none);
            }
            assert(is_selection(its, none));
        }
        return result;
    }
    let ord = sort_by_density(items);
    let ghost od = ord@;
    let ghost all = Seq::new(n as nat, |i: int| true);
    proof {
        lemma_picked_all(its, all);
        assert(its.take(n as int) =~= its);
    }
    let mut pref_w: Vec<usize> = vec![0usize; n + 1];
    let mut pref_v: Vec<usize> = vec![0usize; n + 1];
    proof {
        assert forall|x: int| 0 <= x < n implies !prefix_mask(od, n as int, 0)[x] by {
            lemma_pos_of_range(od, n as int, x);
        }
        lemma_mask_none(its, prefix_mask(od, n as int, 0));
    }
    let mut i: usize = 0;
    while i < n
        invariant
            n == items.len() == ord.len(),
            its == items@,
            od == ord@,
            is_perm(od, n as int),
            all == Seq::new(n as nat, |i: int| true),
            mask_w(its, all) == weight_sum(its) <= usize::MAX,
            mask_v(its, all) == value_sum(its) <= usize::MAX,
            i <= n,
            pref_w.len() == n + 1,
            pref_v.len() == n + 1,
            pref_w[0] == 0,
            pref_v[0] == 0,
            pref_w[i as int] == mask_w(its, prefix_mask(od, n as int, i as int)),
            pref_v[i as int] == mask_v(its, prefix_mask(od, n as int, i as int)),
            forall|p: int|
                #![trigger od[p]]
                0 <= p < i ==> pref_w[p + 1] == pref_w[p] + its[od[p] as int].weight && pref_v[p + 1]
                    == pref_v[p] + its[od[p] as int].value,
        decreases n - i,
    {
        let o = ord[i];
        proof {
            lemma_prefix_mask_step(od, n as int, i as int);
            lemma_mask_set(its, prefix_mask(od, n as int, i as int), o as int);
            lemma_mask_sub(its, prefix_mask(od, n as int, i + 1), all);
        }
        let nw = pref_w[i] + items[o].weight;
        let nv = pref_v[i] + items[o].value;
        pref_w.set(i + 1, nw);
        pref_v.set(i + 1, nv);
        i = i + 1;
    }
    proof {
        if n == 0 {
        }
        assert(prefix_sums_ok(its, od, pref_w@, pref_v@));
    }
    let mut best_val: usize = 0;
    let mut best_pick: Vec<bool> = vec![false; n];
    let mut cur_pick: Vec<bool> = vec![false; n];
    proof {
        lemma_mask_none(its, cur_pick@);
    }
    let mut found: bool = false;
    let ghost start_pick = best_pick@;
    dfs(
        items,
        ord.as_slice(),
        pref_w.as_slice(),
        pref_v.as_slice(),
        capacity,
        force_full,
        0,
        0,
        0,
        &mut cur_pick,
        &mut best_val,
        &mut best_pick,
        &mut found,
    );
    let mut result: Vec<&'a SimpleKnapsackItem> = Vec::new();
    let mut k: usize = 0;
    while k < n
        invariant
            n == items.len() == best_pick.len(),
            its == items@,
            k <= n,
            item_vals(result@) == picked(its, best_pick@.take(k as int)),
        decreases n - k,
    {
        let ghost before = result@;
        if best_pick[k] {
            result.push(&items[k]);
        }
        proof {
            let m = best_pick@.take(k + 1);
            assert(m.drop_last() =~= best_pick@.take(k as int));
            if best_pick[k as int] {
                assert(item_vals(result@) =~= item_vals(before).push(its[k as int]));
            } else {
                assert(item_vals(result@) =~= item_vals(before));
            }
        }
        k = k + 1;
    }
    proof {
        let bp = best_pick@;
        assert(bp.take(n as int) =~= bp);
        let r = item_vals(result@);
        assert(r == picked(its, bp));
        assert forall|sel: Seq<bool>|
            is_selection(its, sel) && (if force_full {
                weight_sum(#[trigger] picked(its, sel)) == capacity
            } else {
                weight_sum(picked(its, sel)) <= capacity
            }) implies value_sum(picked(its, sel)) <= best_val by {
            assert forall|x: int| 0 <= x < n implies pos_of(od, x) >= 0 by {
                lemma_pos_of_range(od, n as int, x);
            }
            assert(completes(od, sel, cur_pick@, 0));
            assert(fits(its, sel, capacity as int, force_full));
        }
        assert forall|x: int| 0 <= x < n implies pos_of(od, x) >= 0 by {
            lemma_pos_of_range(od, n as int, x);
        }
        if found {
            assert(is_selection(its, bp));
            if force_full {
                assert(fillable(its, capacity as int));
            }
        } else {
            assert(bp == start_pick);
            lemma_picked_none_local(its, bp);
            assert(is_selection(its, bp));
            if force_full {
                assert(!fillable(its, capacity as int)) by {
                    if fillable(its, capacity as int) {
                        let sel = choose|sel: Seq<bool>|
                            is_selection(its, sel) && weight_sum(#[trigger] picked(its, sel)) == capacity;
                        assert(completes(od, sel, cur_pick@, 0));
                        assert(fits(its, sel, capacity as int, force_full));
                    }
                }
            } else {
                assert(completes(od, bp, cur_pick@, 0));
                assert(fits(its, bp, capacity as int, force_full));
            }
        }
    }
    result
}

proof fn lemma_picked_none_local(items: Seq<SimpleKnapsackItem>, sel: Seq<bool>)
    requires
        forall|k: int| 0 <= k < sel.len() ==> !#[trigger] sel[k],
    ensures
        picked(items, sel) =~= Seq::<SimpleKnapsackItem>::empty(),
    decreases sel.len(),
{
    if sel.len() > 0 {
        lemma_picked_none_local(items, sel.drop_last());
    }
}

/// The dynamic program and the branch and bound agree: on the same items, capacity
/// and mode, the choices they return have the same total value.
pub proof fn lemma_solvers_agree(
    items: Seq<SimpleKnapsackItem>,
    capacity: int,
    force_full: bool,
    by_table: Seq<SimpleKnapsackItem>,
    by_search: Seq<SimpleKnapsackItem>,
)
    requires
        knapsack_result(items, capacity, force_full, by_table),
        knapsack_result(items, capacity, force_full, by_search),
    ensures
        value_sum(by_table) == value_sum(by_search),
{
    if force_full && !fillable(items, capacity) {
        assert(by_table =~= by_search);
    } else {
        let s1 = choose|sel: Seq<bool>| is_selection(items, sel) && #[trigger] picked(items, sel) == by_table;
        let s2 = choose|sel: Seq<bool>| is_selection(items, sel) && #[trigger] picked(items, sel) == by_search;
        assert(value_sum(picked(items, s1)) <= value_sum(by_search));
        assert(value_sum(picked(items, s2)) <= value_sum(by_table));
    }
}

} // verus!
