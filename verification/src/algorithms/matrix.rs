//! A sparse matrix stored column by column, with the product of a row vector and the
//! matrix.
use vstd::prelude::*;
use std::collections::HashMap;
use vstd::std_specs::iter::IteratorSpec;

verus! {

broadcast use vstd::std_specs::hash::group_hash_axioms;

/// `sum_{r < n} v[r] * m[r]` over the rows `r` that `m` holds.
pub open spec fn col_dot(m: Map<usize, i64>, v: Seq<i64>, n: int) -> int
    decreases n,
{
    if n <= 0 {
        0
    } else {
        col_dot(m, v, n - 1) + if m.contains_key((n - 1) as usize) {
            v[n - 1] * m[(n - 1) as usize]
        } else {
            0
        }
    }
}

/// `sum_{r < n} |v[r] * m[r]|` over the rows `r` that `m` holds.
pub open spec fn col_abs_dot(m: Map<usize, i64>, v: Seq<i64>, n: int) -> int
    decreases n,
{
    if n <= 0 {
        0
    } else {
        col_abs_dot(m, v, n - 1) + if m.contains_key((n - 1) as usize) {
            abs(v[n - 1] * m[(n - 1) as usize])
        } else {
            0
        }
    }
}

/// The absolute value.
pub open spec fn abs(x: int) -> int {
    if x < 0 {
        -x
    } else {
        x
    }
}

/// `sum_i v[s[i].0] * s[i].1`.
spec fn pair_dot(s: Seq<(usize, i64)>, v: Seq<i64>) -> int
    decreases s.len(),
{
    if s.len() == 0 {
        0
    } else {
        pair_dot(s.drop_last(), v) + v[s.last().0 as int] * s.last().1
    }
}

/// `sum_i |v[s[i].0] * s[i].1|`.
spec fn pair_abs_dot(s: Seq<(usize, i64)>, v: Seq<i64>) -> int
    decreases s.len(),
{
    if s.len() == 0 {
        0
    } else {
        pair_abs_dot(s.drop_last(), v) + abs(v[s.last().0 as int] * s.last().1)
    }
}

/// Taking one row `k < n` out of the column splits its term off the sums.
proof fn lemma_col_dot_remove(m: Map<usize, i64>, v: Seq<i64>, n: int, k: usize)
    requires
        m.contains_key(k),
        k < n <= usize::MAX + 1,
    ensures
        col_dot(m, v, n) == col_dot(m.remove(k), v, n) + v[k as int] * m[k],
        col_abs_dot(m, v, n) == col_abs_dot(m.remove(k), v, n) + abs(v[k as int] * m[k]),
    decreases n,
{
    if n - 1 > k {
        lemma_col_dot_remove(m, v, n - 1, k);
    } else {
        lemma_col_dot_same(m, m.remove(k), v, n - 1);
    }
}

/// The sums over the first `n` rows only look at those rows.
proof fn lemma_col_dot_same(m1: Map<usize, i64>, m2: Map<usize, i64>, v: Seq<i64>, n: int)
    requires
        n <= usize::MAX + 1,
        forall|r: usize| r < n ==> (m1.contains_key(r) <==> m2.contains_key(r)),
        forall|r: usize| r < n && m1.contains_key(r) ==> m1[r] == m2[r],
    ensures
        col_dot(m1, v, n) == col_dot(m2, v, n),
        col_abs_dot(m1, v, n) == col_abs_dot(m2, v, n),
    decreases n,
{
    if n > 0 {
        lemma_col_dot_same(m1, m2, v, n - 1);
    }
}

/// A listing of the entries of a column, each once, sums to the column's sums.
proof fn lemma_pair_dot_col(s: Seq<(usize, i64)>, m: Map<usize, i64>, v: Seq<i64>, n: int)
    requires
        s.no_duplicates(),
        s.to_set() == m.kv_pairs(),
        forall|r: usize| m.contains_key(r) ==> r < n,
        n <= usize::MAX + 1,
    ensures
        pair_dot(s, v) == col_dot(m, v, n),
        pair_abs_dot(s, v) == col_abs_dot(m, v, n),
    decreases s.len(),
{
    if s.len() == 0 {
        assert forall|r: usize| !m.contains_key(r) by {
            if m.contains_key(r) {
                assert(m.kv_pairs().contains((r, m[r])));
                assert(s.to_set().contains((r, m[r])));
            }
        }
        lemma_col_dot_same(m, Map::empty(), v, n);
        lemma_col_dot_empty(v, n);
    } else {
        let (k, x) = s.last();
        let rest = s.drop_last();
        assert(s.contains(s.last()));
        assert(s.to_set().contains((k, x)));
        assert(m.contains_key(k) && m[k] == x);
        let m2 = m.remove(k);
        assert(rest.no_duplicates()) by {
            assert forall|a: int, b: int| 0 <= a < b < rest.len() implies rest[a] != rest[b] by {
                assert(s[a] != s[b]);
            }
        }
        assert(rest.to_set() =~= m2.kv_pairs()) by {
            assert forall|p: (usize, i64)| rest.to_set().contains(p) implies m2.kv_pairs().contains(p) by {
                let i = choose|i: int| 0 <= i < rest.len() && rest[i] == p;
                assert(s[i] == p);
                assert(s.to_set().contains(p));
                assert(m.contains_key(p.0) && m[p.0] == p.1);
                if p.0 == k {
                    assert(p == (k, x));
                    assert(s[i] == s[s.len() - 1]);
                }
            }
            assert forall|p: (usize, i64)| m2.kv_pairs().contains(p) implies rest.to_set().contains(p) by {
                assert(m.kv_pairs().contains(p));
                assert(s.to_set().contains(p));
                let i = choose|i: int| 0 <= i < s.len() && s[i] == p;
                assert(i != s.len() - 1);
                assert(rest[i] == p);
            }
        }
        lemma_pair_dot_col(rest, m2, v, n);
        lemma_col_dot_remove(m, v, n, k);
    }
}

proof fn lemma_col_dot_empty(v: Seq<i64>, n: int)
    requires
        n <= usize::MAX + 1,
    ensures
        col_dot(Map::empty(), v, n) == 0,
        col_abs_dot(Map::empty(), v, n) == 0,
    decreases n,
{
    if n > 0 {
        lemma_col_dot_empty(v, n - 1);
    }
}

/// A sum is bounded by the sum of the absolute values, and its last term too.
proof fn lemma_pair_dot_bounds(s: Seq<(usize, i64)>, v: Seq<i64>)
    ensures
        abs(pair_dot(s, v)) <= pair_abs_dot(s, v),
        s.len() > 0 ==> abs(v[s.last().0 as int] * s.last().1) <= pair_abs_dot(s, v),
        s.len() > 0 ==> abs(pair_dot(s.drop_last(), v)) <= pair_abs_dot(s, v),
    decreases s.len(),
{
    if s.len() > 0 {
        lemma_pair_dot_bounds(s.drop_last(), v);
    }
}

/// A prefix has no larger sum of absolute values.
proof fn lemma_pair_abs_prefix(s: Seq<(usize, i64)>, i: int, v: Seq<i64>)
    requires
        0 <= i <= s.len(),
    ensures
        pair_abs_dot(s.take(i), v) <= pair_abs_dot(s, v),
    decreases s.len() - i,
{
    if i < s.len() {
        lemma_pair_abs_prefix(s, i + 1, v);
        assert(s.take(i + 1).drop_last() =~= s.take(i));
    } else {
        assert(s.take(i) =~= s);
    }
}

/// A sparse `row` by `col` matrix of `i64`, stored by columns: column `c` maps each
/// row that has an entry to its value; the other entries are zero.
pub struct CSCMatrix {
    col_elements: Vec<HashMap<usize, i64>>,
    row: usize,
    col: usize,
}

impl CSCMatrix {
    /// The entries of each column.
    pub closed spec fn columns(&self) -> Seq<Map<usize, i64>> {
        self.col_elements@.map_values(|m: HashMap<usize, i64>| m@)
    }

    /// The number of rows.
    pub closed spec fn rows(&self) -> nat {
        self.row as nat
    }

    /// Every column is there, and holds rows in range only.
    pub closed spec fn wf(&self) -> bool {
        &&& self.col_elements.len() == self.col
        &&& forall|c: int, r: usize|
            0 <= c < self.col && #[trigger] self.col_elements@[c]@.contains_key(r) ==> r < self.row
    }

    /// An all-zero matrix with `row` rows and `col` columns.
    pub fn new(row: usize, col: usize) -> (m: CSCMatrix)
        ensures
            m.wf(),
            m.rows() == row,
            m.columns() == Seq::new(col as nat, |c: int| Map::<usize, i64>::empty()),
    {
        let mut col_elements: Vec<HashMap<usize, i64>> = Vec::with_capacity(col);
        let mut c: usize = 0;
        while c < col
            invariant
                c <= col,
                col_elements.len() == c,
                forall|j: int| 0 <= j < c ==> (#[trigger] col_elements@[j])@ == Map::<usize, i64>::empty(),
            decreases col - c,
        {
            col_elements.push(HashMap::new());
            c = c + 1;
        }
        let m = CSCMatrix { col_elements, row, col };
        proof {
            assert(m.columns() =~= Seq::new(col as nat, |c: int| Map::<usize, i64>::empty()));
        }
        m
    }

    /// Sets the entry at (`row`, `col`); returns the entry it replaced, if that one was
    /// set before.
    pub fn set(&mut self, row: usize, col: usize, element: i64) -> (old_entry: Option<i64>)
        requires
            old(self).wf(),
            row < old(self).rows(),
            col < old(self).columns().len(),
        ensures
            final(self).wf(),
            final(self).rows() == old(self).rows(),
            final(self).columns() == old(self).columns().update(
                col as int,
                old(self).columns()[col as int].insert(row, element),
            ),
            old_entry == if old(self).columns()[col as int].contains_key(row) {
                Some(old(self).columns()[col as int][row])
            } else {
                None::<i64>
            },
    {
        let ghost cols0 = self.col_elements@;
        let r = self.col_elements[col].insert(row, element);
        proof {
            assert(self.columns() =~= cols0.map_values(|m: HashMap<usize, i64>| m@).update(
                col as int,
                cols0[col as int]@.insert(row, element),
            ));
        }
        r
    }

    /// The row vector `vector` times the matrix: entry `c` of the result is the sum
    /// over rows `r` of `vector[r]` times the entry at (`r`, `c`).
    pub fn left_mul(&self, vector: Vec<i64>) -> (result: Vec<i64>)
        requires
            self.wf(),
            vector.len() == self.rows(),
            forall|c: int|
                0 <= c < self.columns().len() ==> col_abs_dot(#[trigger] self.columns()[c], vector@, self.rows() as int)
                    <= i64::MAX,
        ensures
            result.len() == self.columns().len(),
            forall|c: int|
                0 <= c < result.len() ==> result@[c] == col_dot(#[trigger] self.columns()[c], vector@, self.rows() as int),
    {
        let mut result: Vec<i64> = Vec::with_capacity(self.col);
        let mut c: usize = 0;
        while c < self.col
            invariant
                self.wf(),
                vector.len() == self.rows(),
                forall|c2: int|
                    0 <= c2 < self.columns().len() ==> col_abs_dot(#[trigger] self.columns()[c2], vector@, self.rows() as int)
                        <= i64::MAX,
                c <= self.col,
                result.len() == c,
                forall|j: int| 0 <= j < c ==> result@[j] == col_dot(#[trigger] self.columns()[j], vector@, self.rows() as int),
            decreases self.col - c,
        {
            let column = &self.col_elements[c];
            let ghost m = column@;
            let mut acc: i64 = 0;
            let ghost mut done: Seq<(usize, i64)> = Seq::empty();
            assert(self.columns()[c as int] == m);
            let entries = column.iter();
            let ghost items = entries.remaining();
            proof {
                assert(items.unref().no_duplicates()) by {
                    assert forall|a: int, b: int| 0 <= a < b < items.len() implies items.unref()[a] != items.unref()[b] by {
                        assert(items[a] != items[b]);
                    }
                }
                lemma_pair_dot_col(items.unref(), m, vector@, self.rows() as int);
            }
            for (r, x) in it: entries
                invariant
                    vector.len() == self.rows(),
                    m == column@,
                    forall|rr: usize| m.contains_key(rr) ==> rr < self.rows(),
                    it.seq() == items,
                    items.unref().to_set() == m.kv_pairs(),
                    acc == pair_dot(items.unref().take(it.index() as int), vector@),
                    pair_abs_dot(items.unref(), vector@) <= i64::MAX,
            {
                let ghost i = it.index() as int;
                let ghost s = items.unref();
                proof {
                    assert(s[i] == (*r, *x));
                    assert(s.to_set().contains(s[i]));
                    assert(m.contains_key(*r));
                    assert(s.take(i + 1).drop_last() =~= s.take(i));
                    lemma_pair_dot_bounds(s.take(i + 1), vector@);
                    lemma_pair_abs_prefix(s, i + 1, vector@);
                }
                acc = acc + vector[*r] * *x;
            }
            proof {
                assert(items.unref().take(items.len() as int) =~= items.unref());
            }
            result.push(acc);
            c = c + 1;
        }
        result
    }
}

} // verus!
