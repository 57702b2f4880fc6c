use vstd::prelude::*;

verus! {

/// The value of the lowest set bit of `x` (for `x >= 1`).
pub open spec fn low_bit_spec(x: usize) -> int {
    x - (x & ((x - 1) as usize))
}

proof fn lemma_low_bit_basic(x: usize)
    by (bit_vector)
    requires
        x >= 1,
    ensures
        1 <= x - (x & ((x - 1) as usize)) <= x,
{
}

proof fn lemma_low_bit_gap(i: usize, j: usize)
    by (bit_vector)
    requires
        i >= 1,
        i < j,
        j < i + (i - (i & ((i - 1) as usize))),
    ensures
        j - (j - (j & ((j - 1) as usize))) >= i,
{
}

proof fn lemma_low_bit_next(i: usize, k: usize)
    by (bit_vector)
    requires
        i >= 1,
        k == i + (i - (i & ((i - 1) as usize))),
    ensures
        k - (k - (k & ((k - 1) as usize))) <= i - (i - (i & ((i - 1) as usize))),
{
}

/// The lowest set bit of `x`.
pub fn low_bit(x: usize) -> (r: usize)
    requires
        x >= 1,
    ensures
        r == low_bit_spec(x),
        1 <= r <= x,
{
    proof {
        lemma_low_bit_basic(x);
    }
    x - (x & (x - 1))
}

/// Sum of the first `i` entries of `a`.
pub open spec fn prefix(a: Seq<int>, i: int) -> int
    decreases i,
{
    if i <= 0 || a.len() == 0 {
        0
    } else {
        prefix(a, i - 1) + a[i - 1]
    }
}

/// Every sum of consecutive entries of `a` fits in an `i64`.
pub open spec fn range_sums_fit(a: Seq<int>) -> bool {
    forall|l: int, r: int|
        0 <= l <= r <= a.len() ==> i64::MIN <= #[trigger] prefix(a, r) - #[trigger] prefix(a, l) <= i64::MAX
}

proof fn lemma_prefix_update(a: Seq<int>, k: int, v: int, i: int)
    requires
        0 <= k < a.len(),
        0 <= i <= a.len(),
    ensures
        prefix(a.update(k, v), i) == prefix(a, i) + (if k < i {
            v - a[k]
        } else {
            0
        }),
    decreases i,
{
    if i > 0 {
        lemma_prefix_update(a, k, v, i - 1);
    }
}

/// Changing entry `k` to `v` changes every prefix that covers `k` by `v - a[k]`.
pub proof fn lemma_prefix_update_pub(a: Seq<int>, k: int, v: int, i: int)
    requires
        0 <= k < a.len(),
        0 <= i <= a.len(),
    ensures
        prefix(a.update(k, v), i) == prefix(a, i) + (if k < i {
            v - a[k]
        } else {
            0
        }),
{
    lemma_prefix_update(a, k, v, i);
}

pub proof fn lemma_prefix_zeros(n: int, i: int)
    requires
        0 <= i <= n,
    ensures
        prefix(Seq::new(n as nat, |k: int| 0int), i) == 0,
    decreases i,
{
    if i > 0 {
        lemma_prefix_zeros(n, i - 1);
    }
}

/// Binary indexed tree (Fenwick tree) over `i64` values; positions run from 1 to `capacity`.
pub struct BinaryIndexedTree {
    capacity: usize,
    data: Vec<i64>,
    vals: Ghost<Seq<int>>,
}

impl View for BinaryIndexedTree {
    /// Entry `k - 1` is the value at position `k`.
    type V = Seq<int>;

    closed spec fn view(&self) -> Seq<int> {
        self.vals@
    }
}

impl BinaryIndexedTree {
    /// Well-formedness: node `i` holds the sum of the positions `i - low_bit(i) + 1 ..= i`.
    pub closed spec fn wf(&self) -> bool {
        &&& self.data.len() == self.capacity + 1
        &&& self.vals@.len() == self.capacity
        &&& self.capacity <= usize::MAX / 2
        &&& range_sums_fit(self.vals@)
        &&& forall|i: int|
            1 <= i <= self.capacity ==> #[trigger] self.data[i] == prefix(self.vals@, i) - prefix(
                self.vals@,
                i - low_bit_spec(i as usize),
            )
    }

    pub closed spec fn spec_capacity(&self) -> nat {
        self.capacity as nat
    }

    pub proof fn lemma_wf(&self)
        requires
            self.wf(),
        ensures
            self@.len() == self.spec_capacity(),
            self.spec_capacity() <= usize::MAX / 2,
            range_sums_fit(self@),
    {
    }

    /// A tree of `capacity` positions, all zero.
    pub fn new(capacity: usize) -> (t: Self)
        requires
            capacity <= usize::MAX / 2,
        ensures
            t.wf(),
            t.spec_capacity() == capacity,
            t@ == Seq::new(capacity as nat, |k: int| 0int),
    {
        let ghost z = Seq::new(capacity as nat, |k: int| 0int);
        proof {
            assert forall|l: int, r: int| 0 <= l <= r <= z.len() implies i64::MIN <= #[trigger] prefix(z, r)
                - #[trigger] prefix(z, l) <= i64::MAX by {
                lemma_prefix_zeros(capacity as int, l);
                lemma_prefix_zeros(capacity as int, r);
            }
        }
        let data: Vec<i64> = vec![0; capacity + 1];
        proof {
            assert forall|i: int| 1 <= i <= capacity implies #[trigger] data[i] == prefix(z, i) - prefix(
                z,
                i - low_bit_spec(i as usize),
            ) by {
                lemma_low_bit_basic(i as usize);
                lemma_prefix_zeros(capacity as int, i);
                lemma_prefix_zeros(capacity as int, i - low_bit_spec(i as usize));
            }
        }
        BinaryIndexedTree { capacity, data, vals: Ghost(z) }
    }

    /// Adds `value` at position `index` (`1 <= index <= capacity`).
    pub fn add(&mut self, index: usize, value: i64)
        requires
            old(self).wf(),
            1 <= index <= old(self).spec_capacity(),
            range_sums_fit(old(self)@.update(index - 1, old(self)@[index - 1] + value)),
        ensures
            final(self).wf(),
            final(self).spec_capacity() == old(self).spec_capacity(),
            final(self)@ == old(self)@.update(index - 1, old(self)@[index - 1] + value),
    {
        let ghost a = self.vals@;
        let ghost b = a.update(index - 1, a[index - 1] + value);
        let cap = self.capacity;
        let mut i = index;
        proof {
            lemma_low_bit_basic(index);
        }
        while i <= cap
            invariant
                self.capacity == cap,
                self.vals@ == a,
                self.data.len() == cap + 1,
                cap <= usize::MAX / 2,
                a.len() == cap,
                1 <= index <= cap,
                b == a.update(index - 1, a[index - 1] + value),
                range_sums_fit(b),
                index <= i <= 2 * cap,
                i <= cap ==> i - low_bit_spec(i) < index,
                forall|j: int|
                    1 <= j <= cap ==> #[trigger] self.data[j] == prefix(a, j) - prefix(a, j - low_bit_spec(j as usize)) + (
                    if index <= j && j < i && j - low_bit_spec(j as usize) < index {
                        value as int
                    } else {
                        0
                    }),
            decreases 2 * cap + 1 - i,
        {
            proof {
                lemma_low_bit_basic(i);
                lemma_prefix_update(a, index - 1, a[index - 1] + value, i as int);
                lemma_prefix_update(a, index - 1, a[index - 1] + value, i - low_bit_spec(i));
                assert(i64::MIN <= prefix(b, i as int) - prefix(b, i - low_bit_spec(i)) <= i64::MAX);
            }
            let lb = low_bit(i);
            let updated = self.data[i] + value;
            self.data.set(i, updated);
            let next = i + lb;
            proof {
                lemma_low_bit_next(i, next);
                assert forall|j: int|
                    1 <= j <= cap implies #[trigger] self.data[j] == prefix(a, j) - prefix(
                        a,
                        j - low_bit_spec(j as usize),
                    ) + (if index <= j && j < next && j - low_bit_spec(j as usize) < index {
                        value as int
                    } else {
                        0
                    }) by {
                    if i < j && j < next {
                        lemma_low_bit_gap(i, j as usize);
                    }
                }
            }
            i = next;
        }
        proof {
            assert forall|j: int| 1 <= j <= cap implies #[trigger] self.data[j] == prefix(b, j) - prefix(
                b,
                j - low_bit_spec(j as usize),
            ) by {
                lemma_low_bit_basic(j as usize);
                lemma_prefix_update(a, index - 1, a[index - 1] + value, j);
                lemma_prefix_update(a, index - 1, a[index - 1] + value, j - low_bit_spec(j as usize));
            }
        }
        self.vals = Ghost(b);
    }

    /// Sum of positions `1..=index`; zero when `index == 0`.
    pub fn prefix_sum(&self, index: usize) -> (s: i64)
        requires
            self.wf(),
            index <= self.spec_capacity(),
        ensures
            s == prefix(self@, index as int),
    {
        if index == 0 {
            return 0;
        }
        let mut i = index;
        let mut sum: i64 = 0;
        while i > 0
            invariant
                i <= index <= self.capacity,
                self.data.len() == self.capacity + 1,
                self.vals@.len() == self.capacity,
                range_sums_fit(self.vals@),
                forall|j: int|
                    1 <= j <= self.capacity ==> #[trigger] self.data[j] == prefix(self.vals@, j) - prefix(
                        self.vals@,
                        j - low_bit_spec(j as usize),
                    ),
                sum == prefix(self.vals@, index as int) - prefix(self.vals@, i as int),
            decreases i,
        {
            proof {
                lemma_low_bit_basic(i);
                assert(self.data[i as int] == prefix(self.vals@, i as int) - prefix(self.vals@, i - low_bit_spec(i)));
                assert(i64::MIN <= prefix(self.vals@, index as int) - prefix(self.vals@, i - low_bit_spec(i)) <= i64::MAX);
            }
            sum = sum + self.data[i];
            i = i - low_bit(i);
        }
        sum
    }

    /// A position `x` with `prefix_sum(x - 1) < k <= prefix_sum(x)` (the first position whose
    /// prefix sum reaches `k` when no value is negative), or `None` when the whole tree sums
    /// to less than `k`.
    pub fn lower_bound(&self, k: i64) -> (r: Option<usize>)
        requires
            self.wf(),
            k >= 1,
        ensures
            r is None <==> prefix(self@, self@.len() as int) < k,
            r matches Some(x) ==> 1 <= x <= self@.len() && prefix(self@, x as int) >= k && prefix(
                self@,
                x - 1,
            ) < k,
    {
        let cap = self.capacity;
        if self.prefix_sum(cap) < k {
            return None;
        }
        let mut lo: usize = 1;
        let mut hi: usize = cap;
        while lo < hi
            invariant
                self.wf(),
                cap == self.capacity == self@.len(),
                1 <= lo <= hi <= cap,
                prefix(self@, hi as int) >= k,
                prefix(self@, lo - 1) < k,
            decreases hi - lo,
        {
            let mid = lo + (hi - lo) / 2;
            if self.prefix_sum(mid) >= k {
                hi = mid;
            } else {
                lo = mid + 1;
            }
        }
        Some(lo)
    }

    /// Sum of positions `left..=right` (`1 <= left <= right <= capacity`).
    pub fn range_sum(&self, left: usize, right: usize) -> (s: i64)
        requires
            self.wf(),
            1 <= left <= right <= self.spec_capacity(),
        ensures
            s == prefix(self@, right as int) - prefix(self@, left - 1),
    {
        let a = self.prefix_sum(right);
        let b = self.prefix_sum(left - 1);
        a - b
    }
}

} // verus!
