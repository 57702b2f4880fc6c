use vstd::prelude::*;
use crate::ds::bit::{BinaryIndexedTree, prefix};

verus! {

/// `m!`
pub open spec fn fact(m: int) -> int
    decreases m,
{
    if m <= 0 {
        1
    } else {
        m * fact(m - 1)
    }
}

/// `p` is a permutation of `1..=p.len()`.
pub open spec fn is_permutation(p: Seq<usize>) -> bool {
    &&& forall|i: int| 0 <= i < p.len() ==> 1 <= #[trigger] p[i] <= p.len()
    &&& forall|i: int, j: int| 0 <= i < j < p.len() ==> p[i] != p[j]
}

/// Entry `v - 1` is 1 when the value `v` occurs in `p` after position `i`.
pub open spec fn later_values(p: Seq<usize>, i: int) -> Seq<int> {
    Seq::new(p.len(), |u: int| if exists|j: int| i < j < p.len() && p[j] == u + 1 { 1int } else { 0int })
}

/// Lehmer code digit: how many values smaller than `p[i]` occur after position `i`.
pub open spec fn lehmer(p: Seq<usize>, i: int) -> int {
    prefix(later_values(p, i), p[i] - 1)
}

/// `sum_{k >= i} lehmer(p, k) * (n - 1 - k)!`
pub open spec fn rank_from(p: Seq<usize>, i: int) -> int
    decreases p.len() - i,
{
    if i >= p.len() || i < 0 {
        0
    } else {
        lehmer(p, i) * fact(p.len() - 1 - i) + rank_from(p, i + 1)
    }
}

/// Rank (from 1) of the permutation `p` in lexicographic order: one more than the
/// number `sum_k lehmer(p, k) * (n - 1 - k)!` whose factorial-base digits are the Lehmer code.
pub open spec fn cantor_rank(p: Seq<usize>) -> int {
    rank_from(p, 0) + 1
}

proof fn lemma_fact_pos(m: int)
    ensures
        fact(m) >= 1,
    decreases m,
{
    if m > 0 {
        lemma_fact_pos(m - 1);
        assert(m * fact(m - 1) >= 1) by (nonlinear_arith)
            requires
                m >= 1,
                fact(m - 1) >= 1,
        ;
    }
}

proof fn lemma_fact_mono(a: int, b: int)
    requires
        0 <= a <= b,
    ensures
        fact(a) <= fact(b),
        b <= fact(b),
    decreases b,
{
    lemma_fact_pos(b);
    if b > 0 {
        lemma_fact_pos(b - 1);
        if a < b {
            lemma_fact_mono(a, b - 1);
        }
        assert(fact(b - 1) <= b * fact(b - 1) && b <= b * fact(b - 1)) by (nonlinear_arith)
            requires
                b >= 1,
                fact(b - 1) >= 1,
        ;
    }
}

/// Entries in `[0, 1]` have range sums in `[0, r - l]`.
proof fn lemma_prefix_01(a: Seq<int>, l: int, r: int)
    requires
        0 <= l <= r <= a.len(),
        forall|u: int| 0 <= u < a.len() ==> 0 <= #[trigger] a[u] <= 1,
    ensures
        0 <= prefix(a, r) - prefix(a, l) <= r - l,
    decreases r - l,
{
    if r > l {
        lemma_prefix_01(a, l, r - 1);
    }
}

proof fn lemma_range_sums_fit_01(a: Seq<int>)
    requires
        a.len() <= usize::MAX / 2,
        forall|u: int| 0 <= u < a.len() ==> 0 <= #[trigger] a[u] <= 1,
    ensures
        crate::ds::bit::range_sums_fit(a),
{
    assert forall|l: int, r: int| 0 <= l <= r <= a.len() implies i64::MIN <= #[trigger] prefix(a, r)
        - #[trigger] prefix(a, l) <= i64::MAX by {
        lemma_prefix_01(a, l, r);
    }
}

/// Cantor expansion: the rank (from 1) of a permutation of `1..=n` among all
/// permutations of the same length in lexicographic order.
pub fn cantor_expansion(permutation: &[usize]) -> (rank: usize)
    requires
        is_permutation(permutation@),
        fact(permutation.len() as int) <= usize::MAX,
    ensures
        rank == cantor_rank(permutation@),
        1 <= rank <= fact(permutation.len() as int),
{
    let ghost p = permutation@;
    let n = permutation.len();
    proof {
        lemma_rank_from_bound(p, 0);
        lemma_fact_mono(0, n as int);
        if n > usize::MAX / 2 {
            lemma_fact_mono(n - 1, n - 1);
            assert(fact(n as int) >= 2 * n) by (nonlinear_arith)
                requires
                    fact(n as int) == n * fact(n - 1),
                    fact(n - 1) >= n - 1,
                    n >= 3,
            ;
        }
    }
    let mut bit = BinaryIndexedTree::new(n);
    let mut rank: usize = 0;
    let mut fac: usize = 1;
    let mut i: usize = n;
    proof {
        assert(bit@ =~= later_values(p, n - 1));
        crate::ds::bit::lemma_prefix_zeros(n as int, n as int);
    }
    while i > 0
        invariant
            p == permutation@,
            n == p.len(),
            is_permutation(p),
            fact(n as int) <= usize::MAX,
            n <= usize::MAX / 2,
            i <= n,
            bit.wf(),
            bit.spec_capacity() == n,
            bit@ =~= later_values(p, i - 1),
            prefix(bit@, n as int) == n - i,
            fac == fact(n - i),
            rank == rank_from(p, i as int),
            rank_from(p, i as int) <= fact(n - i) - 1,
        decreases i,
    {
        i = i - 1;
        let x = permutation[i];
        proof {
            lemma_prefix_01(bit@, x - 1, n as int);
            lemma_prefix_01(bit@, 0, x - 1);
            lemma_fact_mono(n - i, n as int);
            lemma_fact_pos(n - 1 - i);
            assert(lehmer(p, i as int) == prefix(bit@, x - 1));
            assert(lehmer(p, i as int) * fact(n - 1 - i) + rank_from(p, i + 1) <= fact(n - i) - 1)
                by (nonlinear_arith)
                requires
                    0 <= lehmer(p, i as int) <= n - 1 - i,
                    0 <= rank_from(p, i + 1) <= fact(n - 1 - i) - 1,
                    fact(n - i) == (n - i) * fact(n - 1 - i),
            ;
        }
        let c = bit.prefix_sum(x - 1);
        rank = rank + (c as usize) * fac;
        proof {
            assert(bit@[x - 1] == 0);
            let nb = bit@.update(x - 1, bit@[x - 1] + 1);
            assert forall|u: int| 0 <= u < nb.len() implies 0 <= #[trigger] nb[u] <= 1 by {}
            lemma_range_sums_fit_01(nb);
        }
        let ghost before = bit@;
        bit.add(x, 1);
        proof {
            assert(bit@ =~= later_values(p, i - 1)) by {
                assert forall|u: int| 0 <= u < n implies bit@[u] == later_values(p, i - 1)[u] by {
                    if u == x - 1 {
                        assert(p[i as int] == u + 1);
                    } else {
                        if exists|j: int| i - 1 < j < n && p[j] == u + 1 {
                            let j = choose|j: int| i - 1 < j < n && p[j] == u + 1;
                            assert(j != i);
                        }
                    }
                }
            }
            crate::ds::bit::lemma_prefix_update_pub(before, x - 1, before[x - 1] + 1, n as int);
        }
        proof {
            lemma_fact_mono(n - i, n as int);
            assert(fac * (n - i) == fact(n - i)) by (nonlinear_arith)
                requires
                    fac == fact(n - i - 1),
                    fact(n - i) == (n - i) * fact(n - i - 1),
            ;
        }
        fac = fac * (n - i);
    }
    rank + 1
}

/// Digit `k` (most significant first) of `r` written in the factorial number system with `n` digits.
pub open spec fn fact_digit(r: int, n: int, k: int) -> int {
    (r / fact(n - 1 - k)) % (n - k)
}

/// Entry `u` is 1 when the value `u + 1` is placed at position `k` or later (or not yet placed).
spec fn ind_ge(pos: Seq<int>, k: int) -> Seq<int> {
    Seq::new(pos.len(), |u: int| if pos[u] >= k { 1int } else { 0int })
}

proof fn lemma_prefix_agree(a: Seq<int>, b: Seq<int>, m: int)
    requires
        0 <= m <= a.len(),
        a.len() == b.len(),
        forall|u: int| 0 <= u < m ==> a[u] == b[u],
    ensures
        prefix(a, m) == prefix(b, m),
    decreases m,
{
    if m > 0 {
        lemma_prefix_agree(a, b, m - 1);
    }
}

/// Inverse Cantor expansion: the permutation of `1..=n` whose rank (from 1) in
/// lexicographic order is `rank`.
pub fn inverse_cantor_expansion(rank: usize, n: usize) -> (permutation: Vec<usize>)
    requires
        1 <= rank <= fact(n as int),
        n <= usize::MAX / 2,
    ensures
        permutation.len() == n,
        is_permutation(permutation@),
        forall|k: int| 0 <= k < n ==> #[trigger] lehmer(permutation@, k) == fact_digit(rank - 1, n as int, k),
{
    let ghost r0 = rank - 1;
    let mut r = rank - 1;
    let mut digits: Vec<usize> = vec![0; n];
    let mut i: usize = 1;
    while i <= n
        invariant
            r0 == rank - 1,
            0 <= r0,
            1 <= i <= n + 1,
            n <= usize::MAX / 2,
            digits.len() == n,
            r == r0 / fact(i - 1),
            forall|k: int| n - i < k < n ==> #[trigger] digits[k] == fact_digit(r0, n as int, k),
        decreases n + 1 - i,
    {
        proof {
            lemma_fact_pos(i - 1);
            vstd::arithmetic::div_mod::lemma_div_denominator(r0, fact(i - 1), i as int);
            assert(fact(i - 1) * i == fact(i as int)) by (nonlinear_arith)
                requires
                    fact(i as int) == i * fact(i - 1),
            ;
            assert(n - 1 - (n - i) == i - 1);
        }
        digits.set(n - i, r % i);
        r = r / i;
        i = i + 1;
    }
    let mut bit = BinaryIndexedTree::new(n);
    let mut v: usize = 1;
    proof {
        assert(bit@ =~= Seq::new(n as nat, |u: int| if u < 0 { 1int } else { 0int }));
    }
    while v <= n
        invariant
            1 <= v <= n + 1,
            n <= usize::MAX / 2,
            bit.wf(),
            bit.spec_capacity() == n,
            bit@ =~= Seq::new(n as nat, |u: int| if u < v - 1 { 1int } else { 0int }),
        decreases n + 1 - v,
    {
        proof {
            let nb = bit@.update(v - 1, bit@[v - 1] + 1);
            assert forall|u: int| 0 <= u < nb.len() implies 0 <= #[trigger] nb[u] <= 1 by {}
            lemma_range_sums_fit_01(nb);
        }
        bit.add(v, 1);
        v = v + 1;
    }
    let ghost mut pos: Seq<int> = Seq::new(n as nat, |u: int| n as int);
    let mut perm: Vec<usize> = vec![0; n];
    proof {
        assert(bit@ =~= ind_ge(pos, 0));
        assert forall|u: int| 0 <= u < n implies 0 <= #[trigger] ind_ge(pos, 0)[u] <= 1 by {}
        assert forall|u: int| 0 <= u < n implies #[trigger] ind_ge(pos, 0)[u] == 1 by {}
        lemma_prefix_all_ones(ind_ge(pos, 0), n as int);
    }
    let mut i: usize = 0;
    while i < n
        invariant
            r0 == rank - 1,
            0 <= r0,
            n <= usize::MAX / 2,
            digits.len() == n,
            forall|k: int| 0 <= k < n ==> #[trigger] digits[k] == fact_digit(r0, n as int, k),
            i <= n,
            bit.wf(),
            bit.spec_capacity() == n,
            perm.len() == n,
            pos.len() == n,
            bit@ =~= ind_ge(pos, i as int),
            prefix(bit@, n as int) == n - i,
            forall|u: int| 0 <= u < n ==> #[trigger] pos[u] == n || 0 <= pos[u] < i,
            forall|u: int| 0 <= u < n && pos[u] < n ==> #[trigger] perm[pos[u]] == u + 1,
            forall|k: int| 0 <= k < i ==> 1 <= #[trigger] perm[k] <= n && pos[perm[k] - 1] == k,
            forall|k: int| 0 <= k < i ==> #[trigger] digits[k] == prefix(ind_ge(pos, k), perm[k] - 1),
        decreases n - i,
    {
        proof {
            lemma_fact_pos(n - 1 - i);
            vstd::arithmetic::div_mod::lemma_div_pos_is_pos(r0, fact(n - 1 - i));
            vstd::arithmetic::div_mod::lemma_mod_pos_bound(r0 / fact(n - 1 - i), n - i);
            assert(forall|u: int| 0 <= u < n ==> 0 <= #[trigger] bit@[u] <= 1);
        }
        let d = digits[i];
        let found = bit.lower_bound(d as i64 + 1);
        let x = match found {
            Some(x) => x,
            None => {
                proof {
                    assert(false);
                }
                0
            },
        };
        let ghost a = bit@;
        proof {
            assert(prefix(a, x as int) == prefix(a, x - 1) + a[x - 1]);
            assert(a[x - 1] == 1);
            let nb = a.update(x - 1, a[x - 1] - 1);
            assert forall|u: int| 0 <= u < nb.len() implies 0 <= #[trigger] nb[u] <= 1 by {}
            lemma_range_sums_fit_01(nb);
            crate::ds::bit::lemma_prefix_update_pub(a, x - 1, a[x - 1] - 1, n as int);
        }
        bit.add(x, -1);
        perm.set(i, x);
        let ghost old_pos = pos;
        proof {
            pos = pos.update(x - 1, i as int);
            assert(bit@ =~= ind_ge(pos, i + 1));
            assert forall|k: int| 0 <= k <= i implies #[trigger] digits[k] == prefix(ind_ge(pos, k), perm[k] - 1) by {
                if k < i {
                    assert(ind_ge(pos, k) =~= ind_ge(old_pos, k));
                } else {
                    assert(ind_ge(pos, k) =~= a.update(x - 1, 1));
                    lemma_prefix_agree(ind_ge(pos, k), a, x - 1);
                }
            }
        }
        i = i + 1;
    }
    proof {
        let p = perm@;
        assert forall|u: int| 0 <= u < n implies #[trigger] pos[u] < n by {
            assert(forall|w: int| 0 <= w < n ==> 0 <= #[trigger] bit@[w] <= 1);
            lemma_prefix_01(bit@, u + 1, n as int);
            lemma_prefix_01(bit@, 0, u);
            assert(bit@[u] == 0);
        }
        assert forall|a: int, b: int| 0 <= a < b < n implies p[a] != p[b] by {
            assert(pos[p[a] - 1] == a);
            assert(pos[p[b] - 1] == b);
        }
        assert forall|k: int| 0 <= k < n implies #[trigger] lehmer(p, k) == fact_digit(r0, n as int, k) by {
            assert forall|u: int| 0 <= u < p[k] - 1 implies later_values(p, k)[u] == ind_ge(pos, k)[u] by {
                if pos[u] > k {
                    assert(p[pos[u]] == u + 1);
                }
                if exists|j: int| k < j < n && p[j] == u + 1 {
                    let j = choose|j: int| k < j < n && p[j] == u + 1;
                    assert(pos[p[j] - 1] == j);
                }
                if pos[u] == k {
                    assert(p[k] == u + 1);
                }
            }
            lemma_prefix_agree(later_values(p, k), ind_ge(pos, k), p[k] - 1);
            assert(digits[k] == prefix(ind_ge(pos, k), perm[k] - 1));
        }
    }
    perm
}

/// The factorial-base digits of `x` from position `i` on rebuild `x % (n - i)!`.
proof fn lemma_digits_rebuild(q: Seq<usize>, x: int, i: int)
    requires
        0 <= x,
        0 <= i <= q.len(),
        forall|k: int| 0 <= k < q.len() ==> #[trigger] lehmer(q, k) == fact_digit(x, q.len() as int, k),
    ensures
        rank_from(q, i) == x % fact(q.len() - i),
    decreases q.len() - i,
{
    let n = q.len() as int;
    if i >= n {
        vstd::arithmetic::div_mod::lemma_small_mod(0, 1);
        assert(x % 1 == 0);
    } else {
        lemma_digits_rebuild(q, x, i + 1);
        let f = fact(n - 1 - i);
        lemma_fact_pos(n - 1 - i);
        vstd::arithmetic::div_mod::lemma_mod_breakdown(x, f, n - i);
        assert(f * (n - i) == fact(n - i)) by (nonlinear_arith)
            requires
                fact(n - i) == (n - i) * fact(n - i - 1),
                f == fact(n - i - 1),
        ;
        assert(lehmer(q, i) * f == f * ((x / f) % (n - i))) by (nonlinear_arith)
            requires
                lehmer(q, i) == (x / f) % (n - i),
        ;
    }
}

/// Ranking the permutation that [`inverse_cantor_expansion`] builds for `rank` gives back `rank`:
/// [`cantor_expansion`] undoes [`inverse_cantor_expansion`].
pub proof fn lemma_cantor_of_inverse(q: Seq<usize>, rank: int)
    requires
        1 <= rank <= fact(q.len() as int),
        forall|k: int| 0 <= k < q.len() ==> #[trigger] lehmer(q, k) == fact_digit(rank - 1, q.len() as int, k),
    ensures
        cantor_rank(q) == rank,
{
    lemma_digits_rebuild(q, rank - 1, 0);
    vstd::arithmetic::div_mod::lemma_small_mod((rank - 1) as nat, fact(q.len() as int) as nat);
}

/// Changing entry `i` to `x` changes the sums of the prefixes that contain it by `x - a[i]`.
proof fn lemma_prefix_update(a: Seq<int>, i: int, x: int, m: int)
    requires
        0 <= i < a.len(),
        0 <= m <= a.len(),
    ensures
        prefix(a.update(i, x), m) == prefix(a, m) + (if i < m {
            x - a[i]
        } else {
            0
        }),
    decreases m,
{
    if m > 0 {
        lemma_prefix_update(a, i, x, m - 1);
    }
}

/// A sequence of zeros sums to zero.
proof fn lemma_prefix_zero(a: Seq<int>, m: int)
    requires
        0 <= m <= a.len(),
        forall|u: int| 0 <= u < a.len() ==> #[trigger] a[u] == 0,
    ensures
        prefix(a, m) == 0,
    decreases m,
{
    if m > 0 {
        lemma_prefix_zero(a, m - 1);
    }
}

/// Entries in `[0, 1]` that sum to the length of the prefix are all one.
proof fn lemma_prefix_full(a: Seq<int>, m: int)
    requires
        0 <= m <= a.len(),
        forall|u: int| 0 <= u < a.len() ==> 0 <= #[trigger] a[u] <= 1,
        prefix(a, m) == m,
    ensures
        forall|u: int| 0 <= u < m ==> #[trigger] a[u] == 1,
    decreases m,
{
    if m > 0 {
        lemma_prefix_01(a, 0, m - 1);
        lemma_prefix_full(a, m - 1);
    }
}

/// Stepping back from position `k + 1` to `k` adds the value at `k + 1`, which did not
/// occur after it.
proof fn lemma_later_step(p: Seq<usize>, k: int)
    requires
        is_permutation(p),
        -1 <= k,
        k + 1 < p.len(),
    ensures
        later_values(p, k) == later_values(p, k + 1).update(p[k + 1] - 1, 1),
        later_values(p, k + 1)[p[k + 1] - 1] == 0,
{
    let n = p.len() as int;
    let a = later_values(p, k);
    let b = later_values(p, k + 1);
    let x = p[k + 1] - 1;
    assert forall|u: int| 0 <= u < n implies a[u] == b.update(x, 1)[u] by {
        if u == x {
            assert(p[k + 1] == u + 1);
        } else {
            if exists|j: int| k < j < n && p[j] == u + 1 {
                let j = choose|j: int| k < j < n && p[j] == u + 1;
                assert(k + 1 < j < n && p[j] == u + 1);
            }
            if exists|j: int| k + 1 < j < n && p[j] == u + 1 {
                let j = choose|j: int| k + 1 < j < n && p[j] == u + 1;
                assert(k < j < n && p[j] == u + 1);
            }
        }
    }
    assert(a =~= b.update(x, 1));
    if exists|j: int| k + 1 < j < n && p[j] == x + 1 {
        let j = choose|j: int| k + 1 < j < n && p[j] == x + 1;
        assert(p[k + 1] != p[j]);
    }
}

/// The values after position `k` are `n - 1 - k` in number.
proof fn lemma_later_total(p: Seq<usize>, k: int)
    requires
        is_permutation(p),
        -1 <= k < p.len(),
    ensures
        prefix(later_values(p, k), p.len() as int) == p.len() - 1 - k,
        forall|u: int| 0 <= u < p.len() ==> 0 <= #[trigger] later_values(p, k)[u] <= 1,
    decreases p.len() - k,
{
    let n = p.len() as int;
    if k == n - 1 {
        let a = later_values(p, k);
        assert forall|u: int| 0 <= u < n implies #[trigger] a[u] == 0 by {
            if exists|j: int| k < j < n && p[j] == u + 1 {
                let j = choose|j: int| k < j < n && p[j] == u + 1;
            }
        }
        lemma_prefix_zero(a, n);
    } else {
        lemma_later_total(p, k + 1);
        lemma_later_step(p, k);
        lemma_prefix_update(later_values(p, k + 1), p[k + 1] - 1, 1, n);
    }
}

/// Every value `1..=n` occurs in a permutation.
proof fn lemma_permutation_onto(p: Seq<usize>, v: int)
    requires
        is_permutation(p),
        1 <= v <= p.len(),
    ensures
        exists|j: int| 0 <= j < p.len() && p[j] == v,
{
    let n = p.len() as int;
    lemma_later_total(p, -1);
    lemma_prefix_full(later_values(p, -1), n);
    assert(later_values(p, -1)[v - 1] == 1);
}

/// A Lehmer digit is at most the number of positions after it.
proof fn lemma_lehmer_bound(p: Seq<usize>, k: int)
    requires
        is_permutation(p),
        0 <= k < p.len(),
    ensures
        0 <= lehmer(p, k) <= p.len() - 1 - k,
{
    lemma_later_total(p, k);
    lemma_prefix_01(later_values(p, k), p[k] - 1, p.len() as int);
    lemma_prefix_01(later_values(p, k), 0, p[k] - 1);
}

/// The rank counted from position `i` is below `(n - i)!`.
proof fn lemma_rank_from_bound(p: Seq<usize>, i: int)
    requires
        is_permutation(p),
        0 <= i <= p.len(),
    ensures
        0 <= rank_from(p, i) < fact(p.len() - i),
    decreases p.len() - i,
{
    let n = p.len() as int;
    if i < n {
        lemma_rank_from_bound(p, i + 1);
        lemma_lehmer_bound(p, i);
        let f = fact(n - 1 - i);
        let l = lehmer(p, i);
        let r = rank_from(p, i + 1);
        assert(fact(n - i) == (n - i) * f);
        assert(0 <= l * f + r < (n - i) * f) by (nonlinear_arith)
            requires
                0 <= l <= n - 1 - i,
                0 <= r < f,
        ;
    } else {
        assert(fact(0) == 1);
    }
}

/// The rank modulo `(n - k)!` is the rank counted from position `k`.
proof fn lemma_rank_mod(p: Seq<usize>, k: int)
    requires
        is_permutation(p),
        0 <= k <= p.len(),
    ensures
        rank_from(p, 0) % fact(p.len() - k) == rank_from(p, k),
    decreases k,
{
    let n = p.len() as int;
    let r0 = rank_from(p, 0);
    lemma_rank_from_bound(p, 0);
    if k == 0 {
        vstd::arithmetic::div_mod::lemma_small_mod(r0 as nat, fact(n) as nat);
    } else {
        lemma_rank_mod(p, k - 1);
        let f = fact(n - k);
        lemma_fact_pos(n - k);
        assert(fact(n - k + 1) == (n - k + 1) * f);
        assert(f * (n - k + 1) == (n - k + 1) * f) by (nonlinear_arith);
        vstd::arithmetic::div_mod::lemma_mod_mod(r0, f, n - k + 1);
        lemma_rank_from_bound(p, k);
        lemma_lehmer_bound(p, k - 1);
        vstd::arithmetic::div_mod::lemma_fundamental_div_mod_converse(
            rank_from(p, k - 1),
            f,
            lehmer(p, k - 1),
            rank_from(p, k),
        );
    }
}

/// The factorial-base digits of the rank are the Lehmer code.
proof fn lemma_rank_digits(p: Seq<usize>, k: int)
    requires
        is_permutation(p),
        0 <= k < p.len(),
    ensures
        fact_digit(rank_from(p, 0), p.len() as int, k) == lehmer(p, k),
{
    let n = p.len() as int;
    let r0 = rank_from(p, 0);
    let f = fact(n - 1 - k);
    lemma_fact_pos(n - 1 - k);
    lemma_rank_from_bound(p, 0);
    lemma_rank_mod(p, k);
    lemma_rank_mod(p, k + 1);
    assert(fact(n - k) == (n - k) * f);
    assert(f * (n - k) == (n - k) * f) by (nonlinear_arith);
    vstd::arithmetic::div_mod::lemma_mod_breakdown(r0, f, n - k);
    let d = (r0 / f) % (n - k);
    let l = lehmer(p, k);
    assert(f * d == l * f);
    assert(d == l) by (nonlinear_arith)
        requires
            f * d == l * f,
            f >= 1,
    ;
}

/// Permutations with the same Lehmer code agree on every position before `k`.
proof fn lemma_lehmer_determines(p: Seq<usize>, q: Seq<usize>, k: int)
    requires
        is_permutation(p),
        is_permutation(q),
        p.len() == q.len(),
        forall|m: int| 0 <= m < p.len() ==> #[trigger] lehmer(p, m) == lehmer(q, m),
        0 <= k <= p.len(),
    ensures
        forall|m: int| 0 <= m < k ==> #[trigger] p[m] == q[m],
    decreases k,
{
    let n = p.len() as int;
    if k > 0 {
        let c = k - 1;
        lemma_lehmer_determines(p, q, c);
        // The values at positions `c` and later are the same in both.
        let ap = later_values(p, c - 1);
        let aq = later_values(q, c - 1);
        assert forall|u: int| 0 <= u < n implies ap[u] == aq[u] by {
            lemma_permutation_onto(p, u + 1);
            lemma_permutation_onto(q, u + 1);
            let jp = choose|j: int| 0 <= j < n && p[j] == u + 1;
            let jq = choose|j: int| 0 <= j < n && q[j] == u + 1;
            if jp < c {
                assert(q[jp] == p[jp]);
                if jq != jp {
                    assert(q[jq] == q[jp]);
                }
                if exists|j: int| c - 1 < j < n && p[j] == u + 1 {
                    let j = choose|j: int| c - 1 < j < n && p[j] == u + 1;
                    assert(p[j] == p[jp]);
                }
                if exists|j: int| c - 1 < j < n && q[j] == u + 1 {
                    let j = choose|j: int| c - 1 < j < n && q[j] == u + 1;
                    assert(q[j] == q[jp]);
                }
            } else {
                if jq < c {
                    assert(p[jq] == q[jq]);
                    assert(p[jq] == p[jp]);
                }
                assert(c - 1 < jp < n && p[jp] == u + 1);
                assert(c - 1 < jq < n && q[jq] == u + 1);
            }
        }
        assert(ap =~= aq);
        lemma_later_step(p, c - 1);
        lemma_later_step(q, c - 1);
        lemma_later_total(p, c - 1);
        lemma_later_total(p, c);
        lemma_later_total(q, c);
        let x = p[c] - 1;
        let y = q[c] - 1;
        let lp = later_values(p, c);
        let lq = later_values(q, c);
        assert(ap[x] == 1);
        assert(aq[y] == 1);
        lemma_prefix_agree(lp, ap, x);
        lemma_prefix_agree(lq, aq, y);
        assert(lehmer(p, c) == prefix(ap, x));
        assert(lehmer(q, c) == prefix(ap, y));
        if x < y {
            lemma_prefix_01(ap, x + 1, y);
            assert(prefix(ap, x + 1) == prefix(ap, x) + ap[x]);
        } else if y < x {
            lemma_prefix_01(ap, y + 1, x);
            assert(prefix(ap, y + 1) == prefix(ap, y) + ap[y]);
        }
    }
}

/// [`inverse_cantor_expansion`] undoes [`cantor_expansion`]: the rank of a permutation
/// `p` lies in `1..=n!`, and the permutation that `inverse_cantor_expansion` builds for
/// it (any permutation `q` of the same length with the Lehmer code that it promises)
/// is `p` itself.
pub proof fn lemma_inverse_of_cantor(p: Seq<usize>, q: Seq<usize>)
    requires
        is_permutation(p),
        is_permutation(q),
        q.len() == p.len(),
        forall|k: int|
            0 <= k < q.len() ==> #[trigger] lehmer(q, k) == fact_digit(cantor_rank(p) - 1, q.len() as int, k),
    ensures
        1 <= cantor_rank(p) <= fact(p.len() as int),
        q == p,
{
    lemma_rank_from_bound(p, 0);
    assert forall|k: int| 0 <= k < p.len() implies #[trigger] lehmer(p, k) == lehmer(q, k) by {
        lemma_rank_digits(p, k);
    }
    lemma_lehmer_determines(p, q, p.len() as int);
    assert(q =~= p);
}

/// A sequence of ones sums to its length.
proof fn lemma_prefix_all_ones(a: Seq<int>, m: int)
    requires
        0 <= m <= a.len(),
        forall|u: int| 0 <= u < a.len() ==> #[trigger] a[u] == 1,
    ensures
        prefix(a, m) == m,
    decreases m,
{
    if m > 0 {
        lemma_prefix_all_ones(a, m - 1);
    }
}

} // verus!
