//! Graphs of bounded degree in compressed sparse row form, with the map between the
//! vertices of a general graph and those of the bounded-degree graph that stands for it.
use vstd::prelude::*;
use rustc_hash::FxHashMap;
use super::pair_map::{pair_map_get, pair_map_insert};
use crate::algorithms::ssp::{
    is_capped_distance, is_distance_array, lemma_walk_end_in_range, lemma_walk_push, valid_walk, walk_end,
    walk_weight,
};
use vstd::arithmetic::div_mod::{lemma_mod_self_0, lemma_small_mod};

verus! {

/// A directed graph stored as compressed rows: the out-edges of `u` are the entries
/// `adj_off[u]..adj_off[u + 1]` of `adj_dst` (targets) and `adj_wt` (weights).
///
/// Besides the graph it keeps, for the general graph it was built from, a
/// representative vertex of each original vertex and the original vertex that each
/// vertex stands for.
#[derive(Debug)]
pub struct ConstGraph {
    adj_off: Vec<u32>,
    adj_dst: Vec<u32>,
    adj_wt: Vec<u32>,
    orig_to_const_rep: Vec<u32>,
    const_to_orig: Vec<u32>,
}

/// The rows of a compressed sparse row layout, as lists of `(target, weight)`.
pub open spec fn csr_rows(off: Seq<u32>, dst: Seq<u32>, wt: Seq<u32>) -> Seq<Seq<(u32, u32)>> {
    Seq::new(
        (off.len() - 1) as nat,
        |u: int|
            Seq::new(
                (off[u + 1] - off[u]) as nat,
                |i: int| (dst[off[u] + i], wt[off[u] + i]),
            ),
    )
}

/// Offsets start at zero, never decrease and end at the number of edges.
pub open spec fn csr_ok(off: Seq<u32>, dst: Seq<u32>, wt: Seq<u32>) -> bool {
    &&& off.len() >= 1
    &&& off[0] == 0
    &&& forall|i: int, j: int| 0 <= i <= j < off.len() ==> off[i] <= off[j]
    &&& off[off.len() - 1] == dst.len()
    &&& dst.len() == wt.len()
}

/// The edges of an adjacency list, numbered row after row.
pub open spec fn edge_count(adj: Seq<Vec<(usize, usize)>>) -> int
    decreases adj.len(),
{
    if adj.len() == 0 {
        0
    } else {
        edge_count(adj.drop_last()) + adj.last().len()
    }
}

/// An adjacency list whose targets and weights fit in 32 bits, as a list of rows of
/// `(target, weight)` pairs.
pub open spec fn rows_of(adj: Seq<Vec<(usize, usize)>>) -> Seq<Seq<(u32, u32)>> {
    Seq::new(
        adj.len(),
        |u: int| Seq::new(adj[u]@.len(), |i: int| (adj[u][i].0 as u32, adj[u][i].1 as u32)),
    )
}

proof fn lemma_edge_count_nonneg(adj: Seq<Vec<(usize, usize)>>)
    ensures
        edge_count(adj) >= 0,
    decreases adj.len(),
{
    if adj.len() > 0 {
        lemma_edge_count_nonneg(adj.drop_last());
    }
}

proof fn lemma_edge_count_prefix(adj: Seq<Vec<(usize, usize)>>, i: int)
    requires
        0 <= i <= adj.len(),
    ensures
        0 <= edge_count(adj.take(i)) <= edge_count(adj),
    decreases adj.len(),
{
    lemma_edge_count_nonneg(adj.take(i));
    if i < adj.len() {
        assert(adj.drop_last().take(i) =~= adj.take(i));
        lemma_edge_count_prefix(adj.drop_last(), i);
    } else {
        assert(adj.take(i) =~= adj);
    }
}

/// The general graph `g` has an edge from `u` to `v`.
pub open spec fn has_edge(g: Seq<Vec<(usize, usize)>>, u: int, v: int) -> bool {
    exists|i: int| #![trigger g[u][i]] 0 <= i < g[u].len() && g[u][i].0 == v
}

/// `v` and `w` are joined by an edge of `g`, in one direction or the other.
pub open spec fn adjacent(g: Seq<Vec<(usize, usize)>>, v: int, w: int) -> bool {
    has_edge(g, v, w) || has_edge(g, w, v)
}

/// The test "is adjacent to `v`" on vertex numbers.
pub open spec fn adjacent_to(g: Seq<Vec<(usize, usize)>>, v: int) -> spec_fn(usize) -> bool {
    |x: usize| adjacent(g, v, x as int)
}

/// The vertices below `w`, in increasing order.
pub open spec fn below(w: int) -> Seq<usize> {
    Seq::new(w as nat, |x: int| x as usize)
}

/// The neighbours of `v` below `w`, in increasing order.
pub open spec fn neighbours_below(g: Seq<Vec<(usize, usize)>>, v: int, w: int) -> Seq<usize> {
    below(w).filter(adjacent_to(g, v))
}

/// The keys of the ring of vertices that stands for `v`: the neighbours of `v` in
/// increasing order, or `v` alone when it has none.
pub open spec fn ring_keys(g: Seq<Vec<(usize, usize)>>, v: int) -> Seq<usize> {
    let s = neighbours_below(g, v, g.len() as int);
    if s.len() == 0 {
        seq![v as usize]
    } else {
        s
    }
}

/// The first vertex of the ring of `v`: the rings are numbered one after the other.
pub open spec fn ring_start(g: Seq<Vec<(usize, usize)>>, v: int) -> int
    decreases v,
{
    if v <= 0 {
        0
    } else {
        ring_start(g, v - 1) + ring_keys(g, v - 1).len()
    }
}

/// The smallest weight of an edge to `t` in `row`, or `u64::MAX` when there is none.
pub open spec fn min_weight(row: Seq<(usize, usize)>, t: int) -> int
    decreases row.len(),
{
    if row.len() == 0 {
        u64::MAX as int
    } else {
        let m = min_weight(row.drop_last(), t);
        if row.last().0 == t && (row.last().1 as int) < m {
            row.last().1 as int
        } else {
            m
        }
    }
}

/// The out-edges of the vertex for the pair `(v, ring_keys(g, v)[i])`: the zero-weight
/// edge to the next vertex of the ring (when the ring has more than one), then, when
/// `g` has an edge from `v` to `w = ring_keys(g, v)[i]`, the edge to the vertex for
/// `(w, v)` with the smallest weight of those edges.
pub open spec fn ring_row(g: Seq<Vec<(usize, usize)>>, v: int, i: int) -> Seq<(u32, u32)> {
    let keys = ring_keys(g, v);
    let w = keys[i] as int;
    let ring = if keys.len() > 1 {
        seq![((ring_start(g, v) + (i + 1) % (keys.len() as int)) as u32, 0u32)]
    } else {
        Seq::empty()
    };
    let cross = if has_edge(g, v, w) {
        seq![
            ((ring_start(g, w) + ring_keys(g, w).index_of(v as usize)) as u32, min_weight(g[v]@, w) as u32),
        ]
    } else {
        Seq::empty()
    };
    ring + cross
}

/// A row of `(target, weight)` pairs, narrowed to 32 bits.
pub open spec fn row_u32(r: Seq<(usize, usize)>) -> Seq<(u32, u32)> {
    Seq::new(r.len(), |i: int| (r[i].0 as u32, r[i].1 as u32))
}

/// Each row has at most two edges, with targets below `limit` and weights that fit
/// in 32 bits.
pub open spec fn small_rows(adj: Seq<Vec<(usize, usize)>>, limit: int) -> bool {
    forall|x: int| 0 <= x < adj.len() ==> #[trigger] adj[x].len() <= 2 && forall|k: int|
        0 <= k < adj[x].len() ==> (#[trigger] adj[x][k]).0 < limit && adj[x][k].1 <= u32::MAX
}

/// Some entry of `row` before position `i` has target `v`.
spec fn hits(row: Seq<(usize, usize)>, v: int, i: int) -> bool {
    exists|k: int| #![trigger row[k]] 0 <= k < i && row[k].0 == v
}

/// Some entry of `s` before position `j` is `v`.
spec fn in_prefix(s: Seq<usize>, v: int, j: int) -> bool {
    exists|k: int| #![trigger s[k]] 0 <= k < j && s[k] == v
}

/// The edges of a general graph point at its vertices and have weights that fit in
/// 32 bits.
pub open spec fn general_ok(g: Seq<Vec<(usize, usize)>>) -> bool {
    forall|u: int, i: int|
        0 <= u < g.len() && 0 <= i < g[u].len() ==> (#[trigger] g[u][i]).0 < g.len() && g[u][i].1 <= u32::MAX
}

proof fn lemma_neighbours_step(g: Seq<Vec<(usize, usize)>>, v: int, w: int)
    requires
        0 <= w < usize::MAX,
    ensures
        neighbours_below(g, v, w + 1) == (if adjacent(g, v, w) {
            neighbours_below(g, v, w).push(w as usize)
        } else {
            neighbours_below(g, v, w)
        }),
{
    reveal(Seq::filter);
    assert(below(w + 1).drop_last() =~= below(w));
    assert(below(w + 1).last() == w as usize);
}

proof fn lemma_neighbours_sorted(g: Seq<Vec<(usize, usize)>>, v: int, w: int)
    requires
        0 <= w <= usize::MAX,
    ensures
        forall|i: int| 0 <= i < neighbours_below(g, v, w).len() ==> #[trigger] neighbours_below(g, v, w)[i] < w,
        forall|i: int, j: int|
            0 <= i < j < neighbours_below(g, v, w).len() ==> #[trigger] neighbours_below(g, v, w)[i]
                < #[trigger] neighbours_below(g, v, w)[j],
    decreases w,
{
    if w == 0 {
        reveal(Seq::filter);
        assert(below(0).len() == 0);
    } else {
        lemma_neighbours_sorted(g, v, w - 1);
        lemma_neighbours_step(g, v, w - 1);
    }
}

proof fn lemma_ring_keys_sorted(g: Seq<Vec<(usize, usize)>>, v: int)
    requires
        0 <= v < g.len() <= usize::MAX,
    ensures
        ring_keys(g, v).len() >= 1,
        forall|i: int| 0 <= i < ring_keys(g, v).len() ==> #[trigger] ring_keys(g, v)[i] < g.len(),
        forall|i: int, j: int|
            0 <= i < j < ring_keys(g, v).len() ==> #[trigger] ring_keys(g, v)[i] < #[trigger] ring_keys(g, v)[j],
{
    lemma_neighbours_sorted(g, v, g.len() as int);
}

proof fn lemma_ring_keys_member(g: Seq<Vec<(usize, usize)>>, w: int, v: int)
    requires
        0 <= w < g.len() <= usize::MAX,
        0 <= v < g.len(),
        adjacent(g, w, v),
    ensures
        ring_keys(g, w).contains(v as usize),
{
    let s = below(g.len() as int);
    assert(s[v] == v as usize);
    assert(adjacent_to(g, w)(s[v]));
    s.lemma_filter_contains(adjacent_to(g, w), v);
    assert(s.filter(adjacent_to(g, w)).contains(v as usize));
}

proof fn lemma_ring_start_mono(g: Seq<Vec<(usize, usize)>>, a: int, b: int)
    requires
        0 <= a <= b,
    ensures
        ring_start(g, b) - ring_start(g, a) >= b - a,
    decreases b - a,
{
    if a < b {
        lemma_ring_start_mono(g, a, b - 1);
    }
}

proof fn lemma_min_weight(row: Seq<(usize, usize)>, t: int)
    requires
        forall|k: int| 0 <= k < row.len() ==> (#[trigger] row[k]).1 <= u32::MAX,
    ensures
        0 <= min_weight(row, t) <= u64::MAX,
        min_weight(row, t) < u64::MAX <==> hits(row, t, row.len() as int),
        min_weight(row, t) < u64::MAX ==> min_weight(row, t) <= u32::MAX,
    decreases row.len(),
{
    if row.len() > 0 {
        let init = row.drop_last();
        assert forall|k: int| 0 <= k < init.len() implies (#[trigger] init[k]).1 <= u32::MAX by {
            assert(init[k] == row[k]);
        }
        lemma_min_weight(init, t);
        if hits(init, t, init.len() as int) {
            let k = choose|k: int| #![trigger init[k]] 0 <= k < init.len() && init[k].0 == t;
            assert(row[k] == init[k]);
        }
        if hits(row, t, row.len() as int) {
            let k = choose|k: int| #![trigger row[k]] 0 <= k < row.len() && row[k].0 == t;
            if k < row.len() - 1 {
                assert(init[k] == row[k]);
            }
        }
        assert(row.last() == row[row.len() - 1]);
    }
}

proof fn lemma_edge_count_small(adj: Seq<Vec<(usize, usize)>>)
    requires
        forall|x: int| 0 <= x < adj.len() ==> #[trigger] adj[x].len() <= 2,
    ensures
        edge_count(adj) <= 2 * adj.len(),
    decreases adj.len(),
{
    if adj.len() > 0 {
        let init = adj.drop_last();
        assert forall|x: int| 0 <= x < init.len() implies #[trigger] init[x].len() <= 2 by {
            assert(init[x] == adj[x]);
        }
        lemma_edge_count_small(init);
        assert(adj.last() == adj[adj.len() - 1]);
    }
}

proof fn lemma_push_contains(s: Seq<usize>, a: usize, x: usize)
    requires
        s.contains(x) || x == a,
    ensures
        s.push(a).contains(x),
{
    if x == a {
        assert(s.push(a)[s.len() as int] == a);
    } else {
        let k = choose|k: int| 0 <= k < s.len() && s[k] == x;
        assert(s.push(a)[k] == x);
    }
}

/// For each vertex, the vertices with an edge to it (with repeats).
fn reverse_edges(graph: &[Vec<(usize, usize)>]) -> (rev: Vec<Vec<usize>>)
    requires
        general_ok(graph@),
    ensures
        rev.len() == graph@.len(),
        forall|x: int, j: int|
            0 <= x < rev.len() && 0 <= j < rev[x].len() ==> (#[trigger] rev[x][j]) < graph@.len() && has_edge(
                graph@,
                rev[x][j] as int,
                x,
            ),
        forall|u: int, i: int|
            0 <= u < graph@.len() && 0 <= i < graph@[u].len() ==> rev[(#[trigger] graph@[u][i]).0 as int]@.contains(
                u as usize,
            ),
{
    let n = graph.len();
    let mut rev: Vec<Vec<usize>> = Vec::with_capacity(n);
    let mut x: usize = 0;
    while x < n
        invariant
            x <= n,
            rev.len() == x,
            forall|y: int| 0 <= y < x ==> (#[trigger] rev[y]).len() == 0,
        decreases n - x,
    {
        rev.push(Vec::new());
        x = x + 1;
    }
    let mut u: usize = 0;
    while u < n
        invariant
            n == graph@.len(),
            u <= n,
            rev.len() == n,
            general_ok(graph@),
            forall|x2: int, j: int|
                0 <= x2 < rev.len() && 0 <= j < rev[x2].len() ==> (#[trigger] rev[x2][j]) < graph@.len()
                    && has_edge(graph@, rev[x2][j] as int, x2),
            forall|u2: int, i: int|
                0 <= u2 < u && 0 <= i < graph@[u2].len() ==> rev[(#[trigger] graph@[u2][i]).0 as int]@.contains(
                    u2 as usize,
                ),
        decreases n - u,
    {
        let row = &graph[u];
        let mut i: usize = 0;
        while i < row.len()
            invariant
                n == graph@.len(),
                u < n,
                *row == graph@[u as int],
                i <= row.len(),
                rev.len() == n,
                general_ok(graph@),
                forall|x2: int, j: int|
                    0 <= x2 < rev.len() && 0 <= j < rev[x2].len() ==> (#[trigger] rev[x2][j]) < graph@.len()
                        && has_edge(graph@, rev[x2][j] as int, x2),
                forall|u2: int, i2: int|
                    0 <= u2 < u && 0 <= i2 < graph@[u2].len() ==> rev[(#[trigger] graph@[u2][i2]).0 as int]@.contains(
                        u2 as usize,
                    ),
                forall|i2: int| 0 <= i2 < i ==> rev[(#[trigger] graph@[u as int][i2]).0 as int]@.contains(u as usize),
            decreases row.len() - i,
        {
            let v = row[i].0;
            assert(graph@[u as int][i as int].0 < n);
            let ghost old_rev = rev@;
            rev[v].push(u);
            proof {
                assert(rev@[v as int]@ == old_rev[v as int]@.push(u));
                assert forall|x2: int| 0 <= x2 < n && x2 != v implies #[trigger] rev@[x2] == old_rev[x2] by {}
                assert forall|x2: int, j: int|
                    0 <= x2 < rev.len() && 0 <= j < rev[x2].len() implies (#[trigger] rev[x2][j]) < graph@.len()
                        && has_edge(graph@, rev[x2][j] as int, x2) by {
                    if x2 == v && j == old_rev[x2].len() {
                        assert(graph@[u as int][i as int].0 == v);
                    } else {
                        assert(rev[x2][j] == old_rev[x2][j]);
                    }
                }
                assert forall|u2: int, i2: int|
                    0 <= u2 < u && 0 <= i2 < graph@[u2].len() implies rev[(#[trigger] graph@[u2][i2]).0 as int]@.contains(
                        u2 as usize,
                    ) by {
                    let t = graph@[u2][i2].0 as int;
                    assert(old_rev[t]@.contains(u2 as usize));
                    if t == v {
                        lemma_push_contains(old_rev[t]@, u, u2 as usize);
                    }
                }
                assert forall|i2: int| 0 <= i2 < i + 1 implies rev[(#[trigger] graph@[u as int][i2]).0 as int]@.contains(
                    u as usize,
                ) by {
                    let t = graph@[u as int][i2].0 as int;
                    if i2 < i {
                        assert(old_rev[t]@.contains(u as usize));
                    }
                    if t == v {
                        lemma_push_contains(old_rev[t]@, u, u);
                    }
                }
            }
            i = i + 1;
        }
        u = u + 1;
    }
    rev
}

/// Appends `w` to `list` unless it already ends with `w`.
fn push_new(list: &mut Vec<usize>, w: usize)
    ensures
        final(list)@ == (if old(list)@.len() > 0 && old(list)@.last() == w {
            old(list)@
        } else {
            old(list)@.push(w)
        }),
{
    let l = list.len();
    if l == 0 || list[l - 1] != w {
        list.push(w);
    }
}

/// The ring keys of every vertex: its neighbours in increasing order, or the vertex
/// itself when it has none.
fn neighbour_lists(graph: &[Vec<(usize, usize)>], rev: &Vec<Vec<usize>>) -> (lists: Vec<Vec<usize>>)
    requires
        general_ok(graph@),
        rev.len() == graph@.len(),
        forall|x: int, j: int|
            0 <= x < rev.len() && 0 <= j < rev[x].len() ==> (#[trigger] rev[x][j]) < graph@.len() && has_edge(
                graph@,
                rev[x][j] as int,
                x,
            ),
        forall|u: int, i: int|
            0 <= u < graph@.len() && 0 <= i < graph@[u].len() ==> rev[(#[trigger] graph@[u][i]).0 as int]@.contains(
                u as usize,
            ),
    ensures
        lists.len() == graph@.len(),
        forall|v: int| 0 <= v < graph@.len() ==> (#[trigger] lists[v])@ == ring_keys(graph@, v),
{
    let n = graph.len();
    let ghost g = graph@;
    let mut lists: Vec<Vec<usize>> = Vec::with_capacity(n);
    let mut x: usize = 0;
    while x < n
        invariant
            x <= n,
            lists.len() == x,
            forall|y: int| 0 <= y < x ==> (#[trigger] lists[y])@.len() == 0,
        decreases n - x,
    {
        lists.push(Vec::new());
        x = x + 1;
    }
    proof {
        reveal(Seq::filter);
        assert forall|y: int| 0 <= y < n implies (#[trigger] lists[y])@ == neighbours_below(g, y, 0) by {
            assert(below(0).len() == 0);
        }
    }
    let mut w: usize = 0;
    while w < n
        invariant
            g == graph@,
            n == g.len(),
            w <= n,
            lists.len() == n,
            rev.len() == n,
            general_ok(g),
            forall|x2: int, j: int|
                0 <= x2 < rev.len() && 0 <= j < rev[x2].len() ==> (#[trigger] rev[x2][j]) < g.len() && has_edge(
                    g,
                    rev[x2][j] as int,
                    x2,
                ),
            forall|u: int, i: int|
                0 <= u < g.len() && 0 <= i < g[u].len() ==> rev[(#[trigger] g[u][i]).0 as int]@.contains(u as usize),
            forall|y: int| 0 <= y < n ==> (#[trigger] lists[y])@ == neighbours_below(g, y, w as int),
        decreases n - w,
    {
        let row = &graph[w];
        let mut i: usize = 0;
        while i < row.len()
            invariant
                g == graph@,
                n == g.len(),
                w < n,
                *row == g[w as int],
                i <= row.len(),
                lists.len() == n,
                general_ok(g),
                forall|y: int|
                    0 <= y < n ==> (#[trigger] lists[y])@ == neighbours_below(g, y, w as int) + (if hits(
                        row@,
                        y,
                        i as int,
                    ) {
                        seq![w]
                    } else {
                        Seq::<usize>::empty()
                    }),
            decreases row.len() - i,
        {
            let v = row[i].0;
            assert(g[w as int][i as int].0 < n);
            proof {
                lemma_neighbours_sorted(g, v as int, w as int);
                if hits(row@, v as int, i as int) {
                    assert(lists[v as int]@.last() == w);
                } else {
                    let nb = neighbours_below(g, v as int, w as int);
                    if nb.len() > 0 {
                        assert(nb[nb.len() - 1] < w);
                    }
                }
            }
            let ghost old_lists = lists@;
            push_new(&mut lists[v], w);
            proof {
                assert forall|y: int|
                    0 <= y < n implies (#[trigger] lists[y])@ == neighbours_below(g, y, w as int) + (if hits(
                        row@,
                        y,
                        i + 1,
                    ) {
                        seq![w]
                    } else {
                        Seq::<usize>::empty()
                    }) by {
                    if hits(row@, y, i as int) {
                        let k = choose|k: int| #![trigger row@[k]] 0 <= k < i && row@[k].0 == y;
                        assert(row@[k].0 == y);
                    }
                    if y == v {
                        assert(row@[i as int].0 == v);
                    } else {
                        assert(lists@[y] == old_lists[y]);
                        if hits(row@, y, i + 1) {
                            let k = choose|k: int| #![trigger row@[k]] 0 <= k < i + 1 && row@[k].0 == y;
                            assert(row@[k].0 == y);
                        }
                    }
                }
            }
            i = i + 1;
        }
        let col = &rev[w];
        let mut j: usize = 0;
        while j < col.len()
            invariant
                g == graph@,
                n == g.len(),
                w < n,
                *col == rev[w as int],
                j <= col.len(),
                lists.len() == n,
                forall|x2: int, j2: int|
                    0 <= x2 < rev.len() && 0 <= j2 < rev[x2].len() ==> (#[trigger] rev[x2][j2]) < g.len() && has_edge(
                        g,
                        rev[x2][j2] as int,
                        x2,
                    ),
                rev.len() == n,
                forall|y: int|
                    0 <= y < n ==> (#[trigger] lists[y])@ == neighbours_below(g, y, w as int) + (if has_edge(
                        g,
                        w as int,
                        y,
                    ) || in_prefix(col@, y, j as int) {
                        seq![w]
                    } else {
                        Seq::<usize>::empty()
                    }),
            decreases col.len() - j,
        {
            let u = col[j];
            assert(rev[w as int][j as int] < n);
            proof {
                lemma_neighbours_sorted(g, u as int, w as int);
                if has_edge(g, w as int, u as int) || in_prefix(col@, u as int, j as int) {
                    assert(lists[u as int]@.last() == w);
                } else {
                    let nb = neighbours_below(g, u as int, w as int);
                    if nb.len() > 0 {
                        assert(nb[nb.len() - 1] < w);
                    }
                }
            }
            let ghost old_lists = lists@;
            push_new(&mut lists[u], w);
            proof {
                assert forall|y: int|
                    0 <= y < n implies (#[trigger] lists[y])@ == neighbours_below(g, y, w as int) + (if has_edge(
                        g,
                        w as int,
                        y,
                    ) || in_prefix(col@, y, j + 1) {
                        seq![w]
                    } else {
                        Seq::<usize>::empty()
                    }) by {
                    if in_prefix(col@, y, j as int) {
                        let k = choose|k: int| #![trigger col@[k]] 0 <= k < j && col@[k] == y;
                        assert(col@[k] == y);
                    }
                    if y == u {
                        assert(col@[j as int] == u);
                    } else {
                        assert(lists@[y] == old_lists[y]);
                        if in_prefix(col@, y, j + 1) {
                            let k = choose|k: int| #![trigger col@[k]] 0 <= k < j + 1 && col@[k] == y;
                            assert(col@[k] == y);
                        }
                    }
                }
            }
            j = j + 1;
        }
        proof {
            assert forall|y: int| 0 <= y < n implies (#[trigger] lists[y])@ == neighbours_below(g, y, w + 1) by {
                assert(hits(row@, y, row@.len() as int) <==> has_edge(g, w as int, y)) by {
                    if has_edge(g, w as int, y) {
                        let k = choose|k: int| #![trigger g[w as int][k]] 0 <= k < g[w as int].len() && g[w as int][k].0 == y;
                        assert(row@[k].0 == y);
                    }
                }
                assert(in_prefix(col@, y, col@.len() as int) <==> has_edge(g, y, w as int)) by {
                    if in_prefix(col@, y, col@.len() as int) {
                        let k = choose|k: int| #![trigger col@[k]] 0 <= k < col@.len() && col@[k] == y;
                        assert(rev[w as int][k] == y);
                    }
                    if has_edge(g, y, w as int) {
                        let k = choose|k: int| #![trigger g[y][k]] 0 <= k < g[y].len() && g[y][k].0 == w;
                        assert(rev[(g[y][k]).0 as int]@.contains(y as usize));
                        let q = choose|q: int| 0 <= q < col@.len() && col@[q] == y as usize;
                        assert(col@[q] == y);
                    }
                }
                lemma_neighbours_step(g, y, w as int);
                assert(lists[y]@ =~= neighbours_below(g, y, w + 1));
            }
        }
        w = w + 1;
    }
    let mut v: usize = 0;
    while v < n
        invariant
            g == graph@,
            n == g.len(),
            v <= n,
            lists.len() == n,
            forall|y: int| 0 <= y < v ==> (#[trigger] lists[y])@ == ring_keys(g, y),
            forall|y: int| v <= y < n ==> (#[trigger] lists[y])@ == neighbours_below(g, y, n as int),
        decreases n - v,
    {
        if lists[v].len() == 0 {
            lists[v].push(v);
            proof {
                assert(lists[v as int]@ =~= seq![v]);
            }
        }
        v = v + 1;
    }
    lists
}

/// The ring keys of each vertex are its neighbours (or itself), and `ids` numbers the
/// pair `(v, ring_keys(g, v)[i])` by `ring_start(g, v) + i` for every `v < upto`.
spec fn ids_ok(g: Seq<Vec<(usize, usize)>>, ids: Map<(usize, usize), u32>, upto: int) -> bool {
    forall|v: int, i: int|
        #![trigger ring_keys(g, v)[i]]
        0 <= v < upto && 0 <= i < ring_keys(g, v).len() ==> ids.contains_key((v as usize, ring_keys(g, v)[i]))
            && ids[(v as usize, ring_keys(g, v)[i])] == ring_start(g, v) + i
}

/// Numbers the rings one after the other: the first vertex of each ring, the
/// original vertex of each new vertex, and the number of each pair.
fn number_rings(graph: &[Vec<(usize, usize)>], lists: &Vec<Vec<usize>>) -> (r: (
    Vec<u32>,
    Vec<u32>,
    FxHashMap<(usize, usize), u32>,
))
    requires
        lists.len() == graph@.len(),
        forall|v: int| 0 <= v < graph@.len() ==> (#[trigger] lists[v])@ == ring_keys(graph@, v),
        2 * ring_start(graph@, graph@.len() as int) <= u32::MAX,
    ensures
        r.0.len() == graph@.len(),
        forall|v: int| 0 <= v < graph@.len() ==> #[trigger] r.0[v] == ring_start(graph@, v),
        r.1.len() == ring_start(graph@, graph@.len() as int),
        forall|v: int, i: int|
            0 <= v < graph@.len() && 0 <= i < ring_keys(graph@, v).len() ==> #[trigger] r.1[ring_start(graph@, v) + i]
                == v,
        ids_ok(graph@, r.2@, graph@.len() as int),
{
    let n = graph.len();
    let ghost g = graph@;
    let mut reps: Vec<u32> = Vec::with_capacity(n);
    let mut owners: Vec<u32> = Vec::new();
    let mut ids: FxHashMap<(usize, usize), u32> = FxHashMap::default();
    proof {
        lemma_ring_start_mono(g, 0, n as int);
    }
    let mut v: usize = 0;
    while v < n
        invariant
            g == graph@,
            n == g.len(),
            v <= n,
            n <= ring_start(g, n as int) <= u32::MAX / 2,
            lists.len() == n,
            forall|y: int| 0 <= y < n ==> (#[trigger] lists[y])@ == ring_keys(g, y),
            reps.len() == v,
            forall|y: int| 0 <= y < v ==> #[trigger] reps[y] == ring_start(g, y),
            owners.len() == ring_start(g, v as int),
            forall|y: int, i: int|
                0 <= y < v && 0 <= i < ring_keys(g, y).len() ==> #[trigger] owners[ring_start(g, y) + i] == y,
            ids_ok(g, ids@, v as int),
        decreases n - v,
    {
        proof {
            lemma_ring_start_mono(g, v + 1, n as int);
            lemma_ring_keys_sorted(g, v as int);
        }
        let base = owners.len();
        reps.push(base as u32);
        let keys = &lists[v];
        let mut i: usize = 0;
        while i < keys.len()
            invariant
                g == graph@,
                n == g.len(),
                v < n,
                n <= ring_start(g, n as int) <= u32::MAX / 2,
                ring_start(g, v + 1) <= ring_start(g, n as int),
                keys@ == ring_keys(g, v as int),
                forall|a: int, b: int| 0 <= a < b < keys@.len() ==> #[trigger] keys@[a] < #[trigger] keys@[b],
                base == ring_start(g, v as int),
                i <= keys.len(),
                owners.len() == base + i,
                forall|y: int, i2: int|
                    0 <= y < v && 0 <= i2 < ring_keys(g, y).len() ==> #[trigger] owners[ring_start(g, y) + i2] == y,
                forall|i2: int| 0 <= i2 < i ==> #[trigger] owners[base + i2] == v,
                ids_ok(g, ids@, v as int),
                forall|i2: int|
                    0 <= i2 < i ==> ids@.contains_key((v, #[trigger] keys@[i2])) && ids@[(v, keys@[i2])] == base + i2,
            decreases keys.len() - i,
        {
            let ghost old_ids = ids@;
            let ghost old_owners = owners@;
            owners.push(v as u32);
            pair_map_insert(&mut ids, (v, keys[i]), (base + i) as u32);
            proof {
                assert forall|y: int, i2: int|
                    #![trigger ring_keys(g, y)[i2]]
                    0 <= y < v && 0 <= i2 < ring_keys(g, y).len() implies ids@.contains_key(
                        (y as usize, ring_keys(g, y)[i2]),
                    ) && ids@[(y as usize, ring_keys(g, y)[i2])] == ring_start(g, y) + i2 by {
                    assert(old_ids.contains_key((y as usize, ring_keys(g, y)[i2])));
                }
                assert forall|y: int, i2: int|
                    0 <= y < v && 0 <= i2 < ring_keys(g, y).len() implies #[trigger] owners[ring_start(g, y) + i2]
                        == y by {
                    lemma_ring_start_mono(g, y + 1, v as int);
                    assert(ring_start(g, y + 1) == ring_start(g, y) + ring_keys(g, y).len());
                    lemma_ring_start_mono(g, 0, y);
                    assert(owners[ring_start(g, y) + i2] == old_owners[ring_start(g, y) + i2]);
                }
                assert forall|i2: int|
                    0 <= i2 < i + 1 implies ids@.contains_key((v, #[trigger] keys@[i2])) && ids@[(v, keys@[i2])]
                        == base + i2 by {
                    if i2 < i {
                        assert(keys@[i2] < keys@[i as int]);
                    }
                }
            }
            i = i + 1;
        }
        proof {
            assert forall|i2: int|
                #![trigger ring_keys(g, v as int)[i2]]
                0 <= i2 < ring_keys(g, v as int).len() implies ids@.contains_key(
                    (v as usize, ring_keys(g, v as int)[i2]),
                ) && ids@[(v as usize, ring_keys(g, v as int)[i2])] == ring_start(g, v as int) + i2 by {
                assert(keys@[i2] == ring_keys(g, v as int)[i2]);
            }
            assert forall|y: int, i2: int|
                0 <= y < v + 1 && 0 <= i2 < ring_keys(g, y).len() implies #[trigger] owners[ring_start(g, y) + i2]
                    == y by {
                if y == v {
                    assert(owners[base + i2] == v);
                }
            }
        }
        v = v + 1;
    }
    (reps, owners, ids)
}

/// Appends the rows of the ring of `v`: its zero-weight cycle and, for each edge
/// from `v` to a neighbour `w`, the edge to the vertex for `(w, v)` with the smallest
/// weight. `best` is scratch space, all `u64::MAX` before and after.
fn append_ring_rows(
    graph: &[Vec<(usize, usize)>],
    lists: &Vec<Vec<usize>>,
    reps: &Vec<u32>,
    ids: &FxHashMap<(usize, usize), u32>,
    v: usize,
    best: &mut Vec<u64>,
    adj: &mut Vec<Vec<(usize, usize)>>,
)
    requires
        general_ok(graph@),
        v < graph@.len(),
        lists.len() == graph@.len(),
        forall|y: int| 0 <= y < graph@.len() ==> (#[trigger] lists[y])@ == ring_keys(graph@, y),
        reps.len() == graph@.len(),
        forall|y: int| 0 <= y < graph@.len() ==> #[trigger] reps[y] == ring_start(graph@, y),
        ids_ok(graph@, ids@, graph@.len() as int),
        2 * ring_start(graph@, graph@.len() as int) <= u32::MAX,
        old(best).len() == graph@.len(),
        forall|t: int| 0 <= t < graph@.len() ==> #[trigger] old(best)[t] == u64::MAX,
        old(adj).len() == ring_start(graph@, v as int),
        small_rows(old(adj)@, ring_start(graph@, graph@.len() as int)),
    ensures
        final(best).len() == graph@.len(),
        forall|t: int| 0 <= t < graph@.len() ==> #[trigger] final(best)[t] == u64::MAX,
        final(adj).len() == ring_start(graph@, v + 1),
        forall|x: int| 0 <= x < old(adj).len() ==> #[trigger] final(adj)[x] == old(adj)[x],
        forall|i: int|
            0 <= i < ring_keys(graph@, v as int).len() ==> #[trigger] row_u32(
                final(adj)[ring_start(graph@, v as int) + i]@,
            ) == ring_row(graph@, v as int, i),
        small_rows(final(adj)@, ring_start(graph@, graph@.len() as int)),
{
    let ghost g = graph@;
    let n = graph.len();
    let ghost total = ring_start(g, n as int);
    proof {
        lemma_ring_start_mono(g, 0, v as int);
        lemma_ring_start_mono(g, v + 1, n as int);
        lemma_ring_keys_sorted(g, v as int);
    }
    let row = &graph[v];
    assert forall|k: int| 0 <= k < row@.len() implies (#[trigger] row@[k]).1 <= u32::MAX by {
        assert(g[v as int][k] == row@[k]);
    }
    let mut k: usize = 0;
    while k < row.len()
        invariant
            g == graph@,
            n == g.len(),
            v < n,
            *row == g[v as int],
            general_ok(g),
            k <= row.len(),
            best.len() == n,
            forall|t: int| 0 <= t < n ==> #[trigger] best[t] == min_weight(row@.take(k as int), t),
        decreases row.len() - k,
    {
        let (t, wt) = row[k];
        assert(g[v as int][k as int].0 < n);
        assert(g[v as int][k as int].1 <= u32::MAX);
        if (wt as u64) < best[t] {
            best.set(t, wt as u64);
        }
        proof {
            assert(row@.take(k + 1).drop_last() =~= row@.take(k as int));
            assert(row@.take(k + 1).last() == row@[k as int]);
        }
        k = k + 1;
    }
    proof {
        assert(row@.take(row@.len() as int) =~= row@);
    }
    let keys = &lists[v];
    let len = keys.len();
    let base = reps[v] as usize;
    assert(ring_start(g, v + 1) == ring_start(g, v as int) + ring_keys(g, v as int).len());
    let ghost adj0 = adj@;
    let mut i: usize = 0;
    while i < len
        invariant
            g == graph@,
            n == g.len(),
            v < n,
            *row == g[v as int],
            forall|k2: int| 0 <= k2 < row@.len() ==> (#[trigger] row@[k2]).1 <= u32::MAX,
            general_ok(g),
            keys@ == ring_keys(g, v as int),
            len == keys@.len(),
            base == ring_start(g, v as int),
            ring_start(g, v + 1) == base + len,
            ring_start(g, v + 1) <= total,
            total == ring_start(g, n as int),
            2 * total <= u32::MAX,
            lists.len() == n,
            forall|y: int| 0 <= y < n ==> (#[trigger] lists[y])@ == ring_keys(g, y),
            ids_ok(g, ids@, n as int),
            best.len() == n,
            forall|t: int| 0 <= t < n ==> #[trigger] best[t] == min_weight(row@, t),
            i <= len,
            adj.len() == base + i,
            adj0.len() == base,
            forall|x: int| 0 <= x < base ==> #[trigger] adj[x] == adj0[x],
            forall|i2: int| 0 <= i2 < i ==> #[trigger] row_u32(adj[base + i2]@) == ring_row(g, v as int, i2),
            small_rows(adj@, total),
        decreases len - i,
    {
        let mut r: Vec<(usize, usize)> = Vec::new();
        if len > 1 {
            r.push((base + (i + 1) % len, 0));
        }
        let w = keys[i];
        proof {
            lemma_ring_keys_sorted(g, v as int);
            assert(keys@[i as int] == ring_keys(g, v as int)[i as int]);
        }
        let ghost r0 = r@;
        if best[w] < u64::MAX {
            proof {
                lemma_min_weight(row@, w as int);
                assert(has_edge(g, v as int, w as int)) by {
                    let k2 = choose|k2: int| #![trigger row@[k2]] 0 <= k2 < row@.len() && row@[k2].0 == w;
                    assert(g[v as int][k2].0 == w);
                }
                lemma_ring_keys_member(g, w as int, v as int);
            }
            match pair_map_get(ids, (w, v)) {
                Some(id) => {
                    proof {
                        let kw = ring_keys(g, w as int);
                        let k0 = choose|k0: int| 0 <= k0 < kw.len() && kw[k0] == v as usize;
                        assert(kw[k0] == v as usize);
                        lemma_ring_keys_sorted(g, w as int);
                        let j = kw.index_of(v as usize);
                        assert(kw[j] == v as usize);
                        assert(j == k0) by {
                            if j < k0 {
                                assert(kw[j] < kw[k0]);
                            } else if k0 < j {
                                assert(kw[k0] < kw[j]);
                            }
                        }
                        assert(ids@.contains_key((w as int as usize, kw[k0])));
                        lemma_ring_start_mono(g, w + 1, n as int);
                        lemma_ring_start_mono(g, 0, w as int);
                        assert(ring_start(g, w + 1) == ring_start(g, w as int) + kw.len());
                    }
                    r.push((id as usize, best[w] as usize));
                },
                None => {},
            }
        } else {
            proof {
                lemma_min_weight(row@, w as int);
                if has_edge(g, v as int, w as int) {
                    let k2 = choose|k2: int| #![trigger g[v as int][k2]] 0 <= k2 < g[v as int].len() && g[v as int][k2].0 == w;
                    assert(row@[k2].0 == w);
                }
            }
        }
        proof {
            assert(row_u32(r@) =~= ring_row(g, v as int, i as int));
        }
        let ghost adj1 = adj@;
        adj.push(r);
        proof {
            assert forall|x: int| 0 <= x < base implies #[trigger] adj[x] == adj0[x] by {
                assert(adj[x] == adj1[x]);
            }
            assert forall|i2: int| 0 <= i2 < i + 1 implies #[trigger] row_u32(adj[base + i2]@) == ring_row(
                g,
                v as int,
                i2,
            ) by {
                if i2 < i {
                    assert(adj[base + i2] == adj1[base + i2]);
                }
            }
            assert forall|x: int| 0 <= x < adj@.len() implies #[trigger] adj@[x].len() <= 2 && forall|k2: int|
                0 <= k2 < adj@[x].len() ==> (#[trigger] adj@[x][k2]).0 < total && adj@[x][k2].1 <= u32::MAX by {
                if x < adj1.len() {
                    assert(adj@[x] == adj1[x]);
                }
            }
        }
        i = i + 1;
    }
    let mut k: usize = 0;
    while k < row.len()
        invariant
            g == graph@,
            n == g.len(),
            v < n,
            *row == g[v as int],
            general_ok(g),
            k <= row.len(),
            best.len() == n,
            forall|t: int| 0 <= t < n ==> #[trigger] best[t] == (if hits(row@, t, k as int) {
                u64::MAX as int
            } else {
                min_weight(row@, t)
            }),
        decreases row.len() - k,
    {
        let t = row[k].0;
        assert(g[v as int][k as int].0 < n);
        best.set(t, u64::MAX);
        proof {
            assert forall|t2: int| 0 <= t2 < n implies #[trigger] best[t2] == (if hits(row@, t2, k + 1) {
                u64::MAX as int
            } else {
                min_weight(row@, t2)
            }) by {
                if hits(row@, t2, k as int) {
                    let q = choose|q: int| #![trigger row@[q]] 0 <= q < k && row@[q].0 == t2;
                    assert(row@[q].0 == t2);
                }
                if hits(row@, t2, k + 1) && t2 != t {
                    let q = choose|q: int| #![trigger row@[q]] 0 <= q < k + 1 && row@[q].0 == t2;
                    assert(row@[q].0 == t2);
                }
                if t2 == t {
                    assert(row@[k as int].0 == t);
                }
            }
        }
        k = k + 1;
    }
    proof {
        assert forall|t: int| 0 <= t < n implies #[trigger] best[t] == u64::MAX by {
            lemma_min_weight(row@, t);
        }
    }
}

/// A row of `(target, weight)` pairs, widened back from 32 bits.
pub open spec fn widen(r: Seq<(u32, u32)>) -> Seq<(usize, usize)> {
    Seq::new(r.len(), |k: int| (r[k].0 as usize, r[k].1 as usize))
}

/// `h` is the adjacency list of the bounded-degree graph built from `g` (what
/// `to_adj_list` gives for `from_general_graph(g)`).
pub open spec fn ring_graph(g: Seq<Vec<(usize, usize)>>, h: Seq<Vec<(usize, usize)>>) -> bool {
    &&& general_ok(g)
    &&& 2 * ring_start(g, g.len() as int) <= u32::MAX
    &&& h.len() == ring_start(g, g.len() as int)
    &&& forall|x: int, i: int|
        #![trigger ring_keys(g, x)[i]]
        0 <= x < g.len() && 0 <= i < ring_keys(g, x).len() ==> h[ring_start(g, x) + i]@ == widen(ring_row(g, x, i))
}

proof fn lemma_walk_concat(h: Seq<Vec<(usize, usize)>>, a: int, q1: Seq<int>, q2: Seq<int>)
    requires
        valid_walk(h, a, q1),
        valid_walk(h, walk_end(h, a, q1), q2),
    ensures
        valid_walk(h, a, q1 + q2),
        walk_end(h, a, q1 + q2) == walk_end(h, walk_end(h, a, q1), q2),
        walk_weight(h, a, q1 + q2) == walk_weight(h, a, q1) + walk_weight(h, walk_end(h, a, q1), q2),
    decreases q2.len(),
{
    if q2.len() == 0 {
        assert(q1 + q2 =~= q1);
    } else {
        lemma_walk_concat(h, a, q1, q2.drop_last());
        assert((q1 + q2).drop_last() =~= q1 + q2.drop_last());
        assert((q1 + q2).last() == q2.last());
    }
}

/// Facts on the vertex for `(v, ring_keys(g, v)[i])`: it lies inside the graph, and
/// its row is the ring row.
proof fn lemma_node(g: Seq<Vec<(usize, usize)>>, h: Seq<Vec<(usize, usize)>>, v: int, i: int)
    requires
        ring_graph(g, h),
        0 <= v < g.len(),
        0 <= i < ring_keys(g, v).len(),
    ensures
        g.len() <= ring_start(g, g.len() as int),
        0 <= ring_start(g, v),
        ring_start(g, v) + ring_keys(g, v).len() == ring_start(g, v + 1),
        ring_start(g, v + 1) <= h.len(),
        h[ring_start(g, v) + i]@ == widen(ring_row(g, v, i)),
{
    lemma_ring_start_mono(g, 0, v);
    lemma_ring_start_mono(g, v + 1, g.len() as int);
    lemma_ring_start_mono(g, 0, g.len() as int);
    assert(ring_keys(g, v)[i] == ring_keys(g, v)[i]);
}

/// Two positions inside rings name the same vertex only when they are the same.
proof fn lemma_ring_node_unique(g: Seq<Vec<(usize, usize)>>, v1: int, i1: int, v2: int, i2: int)
    requires
        0 <= v1 < g.len(),
        0 <= v2 < g.len(),
        0 <= i1 < ring_keys(g, v1).len(),
        0 <= i2 < ring_keys(g, v2).len(),
        ring_start(g, v1) + i1 == ring_start(g, v2) + i2,
    ensures
        v1 == v2,
        i1 == i2,
{
    if v1 < v2 {
        lemma_ring_start_mono(g, v1 + 1, v2);
    } else if v2 < v1 {
        lemma_ring_start_mono(g, v2 + 1, v1);
    }
}

/// One step along a ring: to the next vertex of the ring, at no cost.
proof fn lemma_ring_step(g: Seq<Vec<(usize, usize)>>, h: Seq<Vec<(usize, usize)>>, v: int, i: int)
    requires
        ring_graph(g, h),
        0 <= v < g.len(),
        0 <= i < ring_keys(g, v).len(),
        ring_keys(g, v).len() > 1,
    ensures
        valid_walk(h, ring_start(g, v) + i, seq![0int]),
        walk_end(h, ring_start(g, v) + i, seq![0int]) == ring_start(g, v) + (if i + 1 < ring_keys(g, v).len() {
            i + 1
        } else {
            0
        }),
        walk_weight(h, ring_start(g, v) + i, seq![0int]) == 0,
{
    let len = ring_keys(g, v).len() as int;
    lemma_node(g, h, v, i);
    let x = ring_start(g, v) + i;
    let nx = if i + 1 < len {
        i + 1
    } else {
        0
    };
    assert((i + 1) % len == nx) by {
        if i + 1 < len {
            lemma_small_mod((i + 1) as nat, len as nat);
        } else {
            lemma_mod_self_0(len);
        }
    }
    let r = ring_row(g, v, i);
    assert(r[0] == ((ring_start(g, v) + nx) as u32, 0u32));
    assert(h[x]@[0] == ((ring_start(g, v) + nx) as usize, 0usize));
    lemma_walk_push(h, x, Seq::empty(), 0);
    assert(Seq::<int>::empty().push(0) =~= seq![0int]);
}

/// A walk along the ring of `v` from position `i` forward to position `j`, at no cost.
proof fn lemma_ring_forward(g: Seq<Vec<(usize, usize)>>, h: Seq<Vec<(usize, usize)>>, v: int, i: int, j: int) -> (q: Seq<int>)
    requires
        ring_graph(g, h),
        0 <= v < g.len(),
        0 <= i <= j < ring_keys(g, v).len(),
    ensures
        valid_walk(h, ring_start(g, v) + i, q),
        walk_end(h, ring_start(g, v) + i, q) == ring_start(g, v) + j,
        walk_weight(h, ring_start(g, v) + i, q) == 0,
    decreases j - i,
{
    lemma_node(g, h, v, i);
    if i == j {
        Seq::empty()
    } else {
        let q1 = lemma_ring_forward(g, h, v, i, j - 1);
        lemma_ring_step(g, h, v, j - 1);
        lemma_walk_concat(h, ring_start(g, v) + i, q1, seq![0int]);
        q1 + seq![0int]
    }
}

/// A walk along the ring of `v` from position `i` to position `j`, at no cost.
proof fn lemma_ring_walk(g: Seq<Vec<(usize, usize)>>, h: Seq<Vec<(usize, usize)>>, v: int, i: int, j: int) -> (q: Seq<int>)
    requires
        ring_graph(g, h),
        0 <= v < g.len(),
        0 <= i < ring_keys(g, v).len(),
        0 <= j < ring_keys(g, v).len(),
    ensures
        valid_walk(h, ring_start(g, v) + i, q),
        walk_end(h, ring_start(g, v) + i, q) == ring_start(g, v) + j,
        walk_weight(h, ring_start(g, v) + i, q) == 0,
{
    if i <= j {
        lemma_ring_forward(g, h, v, i, j)
    } else {
        let len = ring_keys(g, v).len() as int;
        let a = ring_start(g, v) + i;
        let q1 = lemma_ring_forward(g, h, v, i, len - 1);
        lemma_ring_step(g, h, v, len - 1);
        lemma_walk_concat(h, a, q1, seq![0int]);
        let q2 = lemma_ring_forward(g, h, v, 0, j);
        lemma_walk_concat(h, a, q1 + seq![0int], q2);
        q1 + seq![0int] + q2
    }
}

proof fn lemma_min_weight_le(row: Seq<(usize, usize)>, t: int, k: int)
    requires
        0 <= k < row.len(),
        row[k].0 == t,
    ensures
        min_weight(row, t) <= row[k].1,
    decreases row.len(),
{
    if k < row.len() - 1 {
        lemma_min_weight_le(row.drop_last(), t, k);
        assert(row.drop_last()[k] == row[k]);
    }
}

proof fn lemma_min_weight_attained(row: Seq<(usize, usize)>, t: int) -> (k: int)
    requires
        min_weight(row, t) < u64::MAX,
    ensures
        0 <= k < row.len(),
        row[k].0 == t,
        row[k].1 == min_weight(row, t),
    decreases row.len(),
{
    let init = row.drop_last();
    if row.last().0 == t && (row.last().1 as int) < min_weight(init, t) {
        row.len() - 1
    } else {
        let k = lemma_min_weight_attained(init, t);
        assert(init[k] == row[k]);
        k
    }
}

/// The cross edge out of the vertex for `(u, w)`, `w = ring_keys(g, u)[k]`, when `g`
/// has an edge from `u` to `w`: it leads to the vertex for `(w, u)` and weighs the
/// smallest weight of those edges.
proof fn lemma_cross_step(g: Seq<Vec<(usize, usize)>>, h: Seq<Vec<(usize, usize)>>, u: int, k: int) -> (e: int)
    requires
        ring_graph(g, h),
        0 <= u < g.len(),
        0 <= k < ring_keys(g, u).len(),
        has_edge(g, u, ring_keys(g, u)[k] as int),
    ensures
        e == (if ring_keys(g, u).len() > 1 {
            1int
        } else {
            0int
        }),
        0 <= ring_keys(g, ring_keys(g, u)[k] as int).index_of(u as usize) < ring_keys(
            g,
            ring_keys(g, u)[k] as int,
        ).len(),
        ring_keys(g, ring_keys(g, u)[k] as int)[ring_keys(g, ring_keys(g, u)[k] as int).index_of(u as usize)]
            == u as usize,
        valid_walk(h, ring_start(g, u) + k, seq![e]),
        walk_end(h, ring_start(g, u) + k, seq![e]) == ring_start(g, ring_keys(g, u)[k] as int) + ring_keys(
            g,
            ring_keys(g, u)[k] as int,
        ).index_of(u as usize),
        walk_weight(h, ring_start(g, u) + k, seq![e]) == min_weight(g[u]@, ring_keys(g, u)[k] as int),
        min_weight(g[u]@, ring_keys(g, u)[k] as int) <= u32::MAX,
{
    let n = g.len() as int;
    lemma_node(g, h, u, k);
    lemma_ring_keys_sorted(g, u);
    let w = ring_keys(g, u)[k] as int;
    lemma_ring_keys_member(g, w, u);
    let kw = ring_keys(g, w);
    let j = kw.index_of(u as usize);
    assert(0 <= j < kw.len() && kw[j] == u as usize) by {
        let j0 = choose|j0: int| 0 <= j0 < kw.len() && kw[j0] == u as usize;
        assert(kw[j0] == u as usize);
    }
    lemma_node(g, h, w, j);
    assert forall|q: int| 0 <= q < g[u]@.len() implies (#[trigger] g[u]@[q]).1 <= u32::MAX by {
        assert(g[u][q].1 <= u32::MAX);
    }
    lemma_min_weight(g[u]@, w);
    assert(hits(g[u]@, w, g[u]@.len() as int)) by {
        let q = choose|q: int| #![trigger g[u][q]] 0 <= q < g[u].len() && g[u][q].0 == w;
        assert(g[u]@[q].0 == w);
    }
    let e: int = if ring_keys(g, u).len() > 1 {
        1
    } else {
        0
    };
    let x = ring_start(g, u) + k;
    let r = ring_row(g, u, k);
    let mw = min_weight(g[u]@, w);
    assert(r[e] == ((ring_start(g, w) + j) as u32, mw as u32));
    assert(h[x]@[e] == ((ring_start(g, w) + j) as usize, mw as usize));
    lemma_walk_push(h, x, Seq::empty(), e);
    assert(Seq::<int>::empty().push(e) =~= seq![e]);
    e
}

/// Every walk of `g` from `s` has a walk of the bounded-degree graph from the
/// representative of `s` to the representative of its end, no heavier.
proof fn lemma_lift_walk(g: Seq<Vec<(usize, usize)>>, h: Seq<Vec<(usize, usize)>>, s: int, p: Seq<int>) -> (q: Seq<int>)
    requires
        ring_graph(g, h),
        0 <= s < g.len(),
        valid_walk(g, s, p),
    ensures
        valid_walk(h, ring_start(g, s), q),
        walk_end(h, ring_start(g, s), q) == ring_start(g, walk_end(g, s, p)),
        walk_weight(h, ring_start(g, s), q) <= walk_weight(g, s, p),
    decreases p.len(),
{
    let a = ring_start(g, s);
    lemma_ring_keys_sorted_len(g, s);
    lemma_node(g, h, s, 0);
    if p.len() == 0 {
        Seq::empty()
    } else {
        let p0 = p.drop_last();
        let q0 = lemma_lift_walk(g, h, s, p0);
        lemma_walk_end_in_range(g, s, p0);
        let u = walk_end(g, s, p0);
        let e = p.last();
        let v = g[u]@[e].0 as int;
        let wt = g[u]@[e].1 as int;
        assert(has_edge(g, u, v)) by {
            assert(g[u][e].0 == v);
        }
        lemma_ring_keys_member(g, u, v);
        let ku = ring_keys(g, u);
        let k = ku.index_of(v as usize);
        assert(0 <= k < ku.len() && ku[k] == v as usize) by {
            let k0 = choose|k0: int| 0 <= k0 < ku.len() && ku[k0] == v as usize;
            assert(ku[k0] == v as usize);
        }
        lemma_ring_keys_sorted_len(g, u);
        let q1 = lemma_ring_walk(g, h, u, 0, k);
        lemma_walk_concat(h, a, q0, q1);
        let e2 = lemma_cross_step(g, h, u, k);
        lemma_walk_concat(h, a, q0 + q1, seq![e2]);
        let kv = ring_keys(g, v);
        let j = kv.index_of(u as usize);
        lemma_ring_keys_sorted_len(g, v);
        let q3 = lemma_ring_walk(g, h, v, j, 0);
        lemma_walk_concat(h, a, q0 + q1 + seq![e2], q3);
        lemma_min_weight_le(g[u]@, v, e);
        assert(walk_weight(g, s, p) == walk_weight(g, s, p0) + wt);
        q0 + q1 + seq![e2] + q3
    }
}

proof fn lemma_ring_keys_sorted_len(g: Seq<Vec<(usize, usize)>>, v: int)
    requires
        0 <= v < g.len(),
        2 * ring_start(g, g.len() as int) <= u32::MAX,
    ensures
        ring_keys(g, v).len() >= 1,
        g.len() <= usize::MAX,
{
    lemma_ring_start_mono(g, 0, g.len() as int);
    lemma_ring_keys_sorted(g, v);
}

/// Every walk of the bounded-degree graph from a vertex of the ring of `s` ends in the
/// ring of some `v`, and `g` has a walk from `s` to `v` of the same weight.
proof fn lemma_project_walk(
    g: Seq<Vec<(usize, usize)>>,
    h: Seq<Vec<(usize, usize)>>,
    s: int,
    i0: int,
    q: Seq<int>,
) -> (r: (int, int, Seq<int>))
    requires
        ring_graph(g, h),
        0 <= s < g.len(),
        0 <= i0 < ring_keys(g, s).len(),
        valid_walk(h, ring_start(g, s) + i0, q),
    ensures
        0 <= r.0 < g.len(),
        0 <= r.1 < ring_keys(g, r.0).len(),
        walk_end(h, ring_start(g, s) + i0, q) == ring_start(g, r.0) + r.1,
        valid_walk(g, s, r.2),
        walk_end(g, s, r.2) == r.0,
        walk_weight(g, s, r.2) == walk_weight(h, ring_start(g, s) + i0, q),
    decreases q.len(),
{
    let a = ring_start(g, s) + i0;
    if q.len() == 0 {
        (s, i0, Seq::empty())
    } else {
        let q0 = q.drop_last();
        let (v, i, p) = lemma_project_walk(g, h, s, i0, q0);
        let x = ring_start(g, v) + i;
        let e = q.last();
        lemma_node(g, h, v, i);
        let len = ring_keys(g, v).len() as int;
        let r = ring_row(g, v, i);
        let w = ring_keys(g, v)[i] as int;
        assert(walk_end(h, a, q) == h[x]@[e].0);
        assert(walk_weight(h, a, q) == walk_weight(h, a, q0) + h[x]@[e].1);
        if len > 1 && e == 0 {
            lemma_ring_step(g, h, v, i);
            let ni = if i + 1 < len {
                i + 1
            } else {
                0
            };
            assert(h[x]@[0].0 == ring_start(g, v) + ni);
            (v, ni, p)
        } else {
            assert(has_edge(g, v, w)) by {
                if !has_edge(g, v, w) {
                    assert(r.len() == (if len > 1 {
                        1int
                    } else {
                        0int
                    }));
                }
            }
            let e2 = lemma_cross_step(g, h, v, i);
            assert(e == e2);
            let kw = ring_keys(g, w);
            let j = kw.index_of(v as usize);
            lemma_min_weight(g[v]@, w);
            let k = lemma_min_weight_attained(g[v]@, w);
            assert(g[v][k].0 < g.len());
            lemma_walk_push(g, s, p, k);
            (w, j, p.push(k))
        }
    }
}

proof fn lemma_capped_distance_unique(h: Seq<Vec<(usize, usize)>>, a: int, b: int, d1: u64, d2: u64)
    requires
        is_capped_distance(h, a, b, d1),
        is_capped_distance(h, a, b, d2),
    ensures
        d1 == d2,
{
    if d1 < u64::MAX {
        let p = choose|p: Seq<int>| valid_walk(h, a, p) && walk_end(h, a, p) == b && #[trigger] walk_weight(h, a, p) == d1;
        assert(d2 <= walk_weight(h, a, p));
    }
    if d2 < u64::MAX {
        let p = choose|p: Seq<int>| valid_walk(h, a, p) && walk_end(h, a, p) == b && #[trigger] walk_weight(h, a, p) == d2;
        assert(d1 <= walk_weight(h, a, p));
    }
}

/// Numbering the vertices of a general graph by rings and reading a representative
/// back gives the vertex again: the owner of the representative of `v` is `v`.
pub proof fn lemma_representatives_round_trip(graph: Seq<Vec<(usize, usize)>>, g: ConstGraph)
    requires
        g.reps().len() == graph.len(),
        g.owners().len() == ring_start(graph, graph.len() as int),
        forall|v: int| 0 <= v < graph.len() ==> #[trigger] g.reps()[v] == ring_start(graph, v),
        forall|v: int, i: int|
            #![trigger ring_keys(graph, v)[i]]
            0 <= v < graph.len() && 0 <= i < ring_keys(graph, v).len() ==> g.owners()[ring_start(graph, v) + i] == v,
    ensures
        forall|v: int|
            0 <= v < graph.len() ==> #[trigger] g.reps()[v] < g.owners().len() && g.owners()[g.reps()[v] as int] == v,
{
    assert forall|v: int| 0 <= v < graph.len() implies #[trigger] g.reps()[v] < g.owners().len() && g.owners()[g.reps()[v] as int]
        == v by {
        lemma_ring_start_mono(graph, v + 1, graph.len() as int);
        assert(ring_keys(graph, v).len() >= 1);
        assert(ring_keys(graph, v)[0] <= usize::MAX);
        assert(g.owners()[ring_start(graph, v)] == v);
    }
}

/// Building a graph from adjacency lists and listing its adjacency again gives the
/// lists back: every edge keeps its target and weight, which fit in 32 bits.
pub proof fn lemma_adjacency_round_trip(adj: Seq<Vec<(usize, usize)>>)
    requires
        forall|u: int, i: int|
            0 <= u < adj.len() && 0 <= i < adj[u].len() ==> #[trigger] adj[u][i].0 <= u32::MAX && adj[u][i].1 <= u32::MAX,
    ensures
        rows_of(adj).len() == adj.len(),
        forall|u: int| 0 <= u < adj.len() ==> (#[trigger] rows_of(adj)[u]).len() == adj[u].len(),
        forall|u: int, i: int|
            0 <= u < adj.len() && 0 <= i < adj[u].len() ==> (#[trigger] rows_of(adj)[u][i].0 as usize, rows_of(adj)[u][i].1 as usize)
                == adj[u][i],
{
    assert forall|u: int, i: int| 0 <= u < adj.len() && 0 <= i < adj[u].len() implies (#[trigger] rows_of(adj)[u][i].0 as usize, rows_of(
        adj,
    )[u][i].1 as usize) == adj[u][i] by {
        assert(adj[u][i].0 <= u32::MAX && adj[u][i].1 <= u32::MAX);
    }
}

/// The bounded-degree graph keeps shortest distances: in it, the representative of
/// `v` is exactly as far from the representative of `s` as `v` is from `s` in `g`
/// (distances capped at `u64::MAX`, as the shortest-path routines give them).
pub proof fn lemma_rings_keep_distances(
    g: Seq<Vec<(usize, usize)>>,
    h: Seq<Vec<(usize, usize)>>,
    s: int,
    v: int,
    d: u64,
)
    requires
        ring_graph(g, h),
        0 <= s < g.len(),
        0 <= v < g.len(),
    ensures
        is_capped_distance(g, s, v, d) <==> is_capped_distance(h, ring_start(g, s), ring_start(g, v), d),
{
    let a = ring_start(g, s);
    let b = ring_start(g, v);
    lemma_ring_keys_sorted_len(g, s);
    lemma_ring_keys_sorted_len(g, v);
    assert(a + 0 == a);
    assert forall|q: Seq<int>| valid_walk(h, a, q) && walk_end(h, a, q) == b implies exists|p: Seq<int>|
        valid_walk(g, s, p) && walk_end(g, s, p) == v && walk_weight(g, s, p) == #[trigger] walk_weight(h, a, q) by {
        let (v2, i2, p) = lemma_project_walk(g, h, s, 0, q);
        lemma_ring_node_unique(g, v2, i2, v, 0);
    }
    if is_capped_distance(g, s, v, d) {
        assert forall|q: Seq<int>| valid_walk(h, a, q) && walk_end(h, a, q) == b implies d <= #[trigger] walk_weight(
            h,
            a,
            q,
        ) by {
            let p = choose|p: Seq<int>|
                valid_walk(g, s, p) && walk_end(g, s, p) == v && walk_weight(g, s, p) == #[trigger] walk_weight(h, a, q);
            assert(d <= walk_weight(g, s, p));
        }
        if d < u64::MAX {
            let p = choose|p: Seq<int>| valid_walk(g, s, p) && walk_end(g, s, p) == v && #[trigger] walk_weight(g, s, p) == d;
            let q = lemma_lift_walk(g, h, s, p);
            assert(walk_weight(h, a, q) == d);
        }
    }
    if is_capped_distance(h, a, b, d) {
        assert forall|p: Seq<int>| valid_walk(g, s, p) && walk_end(g, s, p) == v implies d <= #[trigger] walk_weight(
            g,
            s,
            p,
        ) by {
            let q = lemma_lift_walk(g, h, s, p);
            assert(d <= walk_weight(h, a, q));
        }
        if d < u64::MAX {
            let q = choose|q: Seq<int>| valid_walk(h, a, q) && walk_end(h, a, q) == b && #[trigger] walk_weight(h, a, q) == d;
            let p = choose|p: Seq<int>|
                valid_walk(g, s, p) && walk_end(g, s, p) == v && walk_weight(g, s, p) == #[trigger] walk_weight(h, a, q);
            assert(walk_weight(g, s, p) == d);
        }
    }
}

/// The shortest-path routines agree across the transformation: the distance array of
/// the bounded-degree graph from the representative of `s`, read at the
/// representatives, is the distance array of `g` from `s`.
pub proof fn lemma_rings_keep_distance_arrays(
    g: Seq<Vec<(usize, usize)>>,
    h: Seq<Vec<(usize, usize)>>,
    s: int,
    d1: Seq<u64>,
    d2: Seq<u64>,
)
    requires
        ring_graph(g, h),
        0 <= s < g.len(),
        is_distance_array(g, s, d1),
        is_distance_array(h, ring_start(g, s), d2),
    ensures
        forall|v: int| 0 <= v < g.len() ==> d2[ring_start(g, v)] == #[trigger] d1[v],
{
    assert forall|v: int| 0 <= v < g.len() implies d2[ring_start(g, v)] == #[trigger] d1[v] by {
        lemma_ring_keys_sorted_len(g, v);
        lemma_ring_keys_sorted_len(g, s);
        lemma_node(g, h, v, 0);
        lemma_node(g, h, s, 0);
        lemma_rings_keep_distances(g, h, s, v, d1[v]);
        assert(is_capped_distance(g, s, v, d1[v]));
        assert(is_capped_distance(h, ring_start(g, s), ring_start(g, v), d2[ring_start(g, v)]));
        lemma_capped_distance_unique(h, ring_start(g, s), ring_start(g, v), d1[v], d2[ring_start(g, v)]);
    }
}

/// The vertex before the one for `(v, ring_keys(g, v)[j])` on the ring of `v`.
pub open spec fn ring_pred(g: Seq<Vec<(usize, usize)>>, v: int, j: int) -> int {
    ring_start(g, v) + (if j == 0 {
        ring_keys(g, v).len() - 1
    } else {
        j - 1
    })
}

/// The vertex for the reversed pair of `(v, ring_keys(g, v)[j])`.
pub open spec fn ring_partner(g: Seq<Vec<(usize, usize)>>, v: int, j: int) -> int {
    let w = ring_keys(g, v)[j] as int;
    ring_start(g, w) + ring_keys(g, w).index_of(v as usize)
}

/// Every vertex of the bounded-degree graph lies on the ring of some vertex of `g`.
proof fn lemma_node_owner(g: Seq<Vec<(usize, usize)>>, h: Seq<Vec<(usize, usize)>>, x: int, v: int) -> (r: (int, int))
    requires
        ring_graph(g, h),
        0 <= v < g.len(),
        ring_start(g, v) <= x < h.len(),
    ensures
        v <= r.0 < g.len(),
        0 <= r.1 < ring_keys(g, r.0).len(),
        x == ring_start(g, r.0) + r.1,
    decreases g.len() - v,
{
    lemma_ring_keys_sorted_len(g, v);
    lemma_node(g, h, v, 0);
    if x < ring_start(g, v + 1) {
        (v, x - ring_start(g, v))
    } else {
        if v + 1 == g.len() {
            assert(false);
        }
        lemma_node_owner(g, h, x, v + 1)
    }
}

/// Every vertex of the bounded-degree graph has at most two out-edges and at most two
/// in-edges: an edge into the vertex for `(v, ring_keys(g, v)[j])` is the first edge of
/// its predecessor on the ring or the last edge of the vertex for the reversed pair.
pub proof fn lemma_rings_bounded_degree(
    g: Seq<Vec<(usize, usize)>>,
    h: Seq<Vec<(usize, usize)>>,
    v: int,
    j: int,
    x: int,
    k: int,
)
    requires
        ring_graph(g, h),
        0 <= v < g.len(),
        0 <= j < ring_keys(g, v).len(),
        0 <= x < h.len(),
        0 <= k < h[x]@.len(),
        h[x]@[k].0 == ring_start(g, v) + j,
    ensures
        h[x]@.len() <= 2,
        (x == ring_pred(g, v, j) && k == 0) || (x == ring_partner(g, v, j) && k == h[x]@.len() - 1),
{
    lemma_ring_keys_sorted_len(g, 0);
    lemma_node(g, h, 0, 0);
    assert(ring_start(g, 0) == 0);
    let (v2, i2) = lemma_node_owner(g, h, x, 0);
    lemma_node(g, h, v2, i2);
    lemma_node(g, h, v, j);
    let len2 = ring_keys(g, v2).len() as int;
    let r = ring_row(g, v2, i2);
    let w2 = ring_keys(g, v2)[i2] as int;
    lemma_ring_keys_sorted(g, v2);
    if len2 > 1 && k == 0 {
        lemma_ring_step(g, h, v2, i2);
        let ni = if i2 + 1 < len2 {
            i2 + 1
        } else {
            0
        };
        assert(h[x]@[0].0 == ring_start(g, v2) + ni);
        lemma_ring_node_unique(g, v2, ni, v, j);
    } else {
        assert(has_edge(g, v2, w2)) by {
            if !has_edge(g, v2, w2) {
                assert(r.len() == (if len2 > 1 {
                    1int
                } else {
                    0int
                }));
            }
        }
        let e = lemma_cross_step(g, h, v2, i2);
        assert(k == e);
        let kw = ring_keys(g, w2);
        let jj = kw.index_of(v2 as usize);
        lemma_ring_node_unique(g, w2, jj, v, j);
        lemma_ring_keys_sorted(g, v);
        lemma_ring_keys_member(g, v2, v);
        let kv = ring_keys(g, v2);
        let i3 = kv.index_of(v as usize);
        assert(kv[i3] == v as usize) by {
            let i0 = choose|i0: int| 0 <= i0 < kv.len() && kv[i0] == v as usize;
            assert(kv[i0] == v as usize);
        }
        assert(i3 == i2) by {
            if i3 < i2 {
                assert(kv[i3] < kv[i2]);
            } else if i2 < i3 {
                assert(kv[i2] < kv[i3]);
            }
        }
    }
}

impl Clone for ConstGraph {
    fn clone(&self) -> (r: Self)
        ensures
            r.rows() == self.rows(),
            r.reps() == self.reps(),
            r.owners() == self.owners(),
    {
        proof {
            use_type_invariant(self);
        }
        let r = ConstGraph {
            adj_off: self.adj_off.clone(),
            adj_dst: self.adj_dst.clone(),
            adj_wt: self.adj_wt.clone(),
            orig_to_const_rep: self.orig_to_const_rep.clone(),
            const_to_orig: self.const_to_orig.clone(),
        };
        proof {
            assert(r.adj_off@ =~= self.adj_off@);
            assert(r.adj_dst@ =~= self.adj_dst@);
            assert(r.adj_wt@ =~= self.adj_wt@);
            assert(r.orig_to_const_rep@ =~= self.orig_to_const_rep@);
            assert(r.const_to_orig@ =~= self.const_to_orig@);
        }
        r
    }
}

/// Appends the targets and the weights of one row of an adjacency list.
fn append_row(dst: &mut Vec<u32>, wt: &mut Vec<u32>, edges: &Vec<(usize, usize)>)
    requires
        forall|i: int| 0 <= i < edges.len() ==> #[trigger] edges[i].0 <= u32::MAX && edges[i].1 <= u32::MAX,
    ensures
        final(dst)@ == old(dst)@ + Seq::new(edges.len() as nat, |i: int| edges[i].0 as u32),
        final(wt)@ == old(wt)@ + Seq::new(edges.len() as nat, |i: int| edges[i].1 as u32),
{
    let ghost d0 = dst@;
    let ghost w0 = wt@;
    let mut i: usize = 0;
    while i < edges.len()
        invariant
            i <= edges.len(),
            forall|j: int| 0 <= j < edges.len() ==> #[trigger] edges[j].0 <= u32::MAX && edges[j].1 <= u32::MAX,
            dst@ == d0 + Seq::new(i as nat, |j: int| edges[j].0 as u32),
            wt@ == w0 + Seq::new(i as nat, |j: int| edges[j].1 as u32),
        decreases edges.len() - i,
    {
        let (v, w) = edges[i];
        dst.push(v as u32);
        wt.push(w as u32);
        i = i + 1;
        proof {
            assert(dst@ =~= d0 + Seq::new(i as nat, |j: int| edges[j].0 as u32));
            assert(wt@ =~= w0 + Seq::new(i as nat, |j: int| edges[j].1 as u32));
        }
    }
}

impl ConstGraph {
    #[verifier::type_invariant]
    spec fn inv(&self) -> bool {
        &&& csr_ok(self.adj_off@, self.adj_dst@, self.adj_wt@)
        &&& self.adj_off.len() - 1 <= u32::MAX
    }

    /// The out-edges of each vertex, as `(target, weight)` pairs in their stored order.
    pub closed spec fn rows(&self) -> Seq<Seq<(u32, u32)>> {
        csr_rows(self.adj_off@, self.adj_dst@, self.adj_wt@)
    }

    /// The representative of each original vertex.
    pub closed spec fn reps(&self) -> Seq<u32> {
        self.orig_to_const_rep@
    }

    /// The original vertex that each vertex stands for.
    pub closed spec fn owners(&self) -> Seq<u32> {
        self.const_to_orig@
    }

    /// A graph given directly by an adjacency list (`adj[u]` holds the pairs
    /// `(target, weight)` of the out-edges of `u`); each vertex stands for itself.
    #[verifier::rlimit(100)]
    pub fn new(adj: Vec<Vec<(usize, usize)>>) -> (g: ConstGraph)
        requires
            adj.len() < u32::MAX,
            edge_count(adj@) <= u32::MAX,
            forall|u: int, i: int|
                0 <= u < adj.len() && 0 <= i < adj[u].len() ==> #[trigger] adj[u][i].0 <= u32::MAX
                    && adj[u][i].1 <= u32::MAX,
        ensures
            g.rows() == rows_of(adj@),
            g.reps() == Seq::new(adj.len() as nat, |v: int| v as u32),
            g.owners() == Seq::new(adj.len() as nat, |v: int| v as u32),
    {
        let n = adj.len();
        let mut adj_off: Vec<u32> = Vec::with_capacity(n + 1);
        let mut adj_dst: Vec<u32> = Vec::new();
        let mut adj_wt: Vec<u32> = Vec::new();
        let mut off: u32 = 0;
        let mut u: usize = 0;
        while u < n
            invariant
                n == adj.len() < u32::MAX,
                u <= n,
                edge_count(adj@) <= u32::MAX,
                forall|u2: int, i: int|
                    0 <= u2 < adj.len() && 0 <= i < adj[u2].len() ==> #[trigger] adj[u2][i].0 <= u32::MAX
                        && adj[u2][i].1 <= u32::MAX,
                adj_off.len() == u,
                off == adj_dst.len() == adj_wt.len() == edge_count(adj@.take(u as int)),
                u > 0 ==> adj_off[0] == 0,
                forall|i: int, j: int| 0 <= i <= j < u ==> adj_off[i] <= adj_off[j],
                forall|i: int| 0 <= i < u ==> adj_off[i] <= off,
                forall|v: int, i: int|
                    #![trigger adj[v][i]]
                    0 <= v < u && 0 <= i < adj[v].len() ==> adj_off[v] + i < adj_dst.len()
                        && adj_dst@[adj_off[v] + i] == adj[v][i].0 && adj_wt@[adj_off[v] + i]
                        == adj[v][i].1,
                forall|v: int| 0 <= v < u ==> #[trigger] adj_off[v] + adj[v].len() == (if v + 1 < u {
                    adj_off[v + 1] as int
                } else {
                    off as int
                }),
            decreases n - u,
        {
            adj_off.push(off);
            let edges = &adj[u];
            let ghost start = off as int;
            let ghost old_dst = adj_dst@;
            let ghost old_wt = adj_wt@;
            proof {
                assert(adj@.take(u + 1).drop_last() =~= adj@.take(u as int));
                lemma_edge_count_prefix(adj@, u + 1);
            }
            append_row(&mut adj_dst, &mut adj_wt, edges);
            proof {
                assert forall|v2: int, j: int|
                    #![trigger adj[v2][j]]
                    0 <= v2 < u + 1 && 0 <= j < adj[v2].len() implies adj_off[v2] + j < adj_dst.len()
                        && adj_dst@[adj_off[v2] + j] == adj[v2][j].0 && adj_wt@[adj_off[v2] + j]
                        == adj[v2][j].1 by {
                    if v2 < u {
                        assert(adj_dst@[adj_off[v2] + j] == old_dst[adj_off[v2] + j]);
                        assert(adj_wt@[adj_off[v2] + j] == old_wt[adj_off[v2] + j]);
                    } else {
                        assert(adj_dst@[start + j] == adj[u as int][j].0 as u32);
                    }
                }
            }
            off = off + edges.len() as u32;
            u = u + 1;
        }
        adj_off.push(off);
        proof {
            assert(adj@.take(n as int) =~= adj@);
        }
        let mut orig_to_const_rep: Vec<u32> = Vec::with_capacity(n);
        let mut v: usize = 0;
        while v < n
            invariant
                v <= n < u32::MAX,
                orig_to_const_rep@ == Seq::new(v as nat, |x: int| x as u32),
            decreases n - v,
        {
            orig_to_const_rep.push(v as u32);
            v = v + 1;
        }
        let const_to_orig = orig_to_const_rep.clone();
        let g = ConstGraph { adj_off, adj_dst, adj_wt, orig_to_const_rep, const_to_orig };
        proof {
            assert(g.rows() =~= rows_of(adj@)) by {
                assert forall|u2: int| 0 <= u2 < n implies #[trigger] g.rows()[u2] =~= rows_of(adj@)[u2] by {
                    assert(g.adj_off@[u2] + adj[u2].len() == g.adj_off@[u2 + 1]);
                }
            }
        }
        g
    }

    /// The bounded-degree graph that stands for a general directed graph with
    /// non-negative weights (`graph[u]` holds the pairs `(target, weight)` of the
    /// out-edges of `u`).
    ///
    /// Each vertex `v` becomes a ring of zero-weight edges through one new vertex per
    /// neighbour `w` of `v` (the vertex for the pair `(v, w)`; neighbours in increasing
    /// order, and `v` alone when it has none). Each edge `u -> v` becomes an edge from
    /// the vertex for `(u, v)` to the vertex for `(v, u)`, with the smallest weight of
    /// the edges from `u` to `v`. Every new vertex has at most two out-edges and two
    /// in-edges, the rings are numbered one after the other, and the first vertex of
    /// the ring of `v` represents `v`.
    pub fn from_general_graph(graph: &[Vec<(usize, usize)>]) -> (g: ConstGraph)
        requires
            general_ok(graph@),
            2 * ring_start(graph@, graph@.len() as int) <= u32::MAX,
        ensures
            g.reps().len() == graph@.len(),
            g.rows().len() == ring_start(graph@, graph@.len() as int),
            g.owners().len() == ring_start(graph@, graph@.len() as int),
            forall|v: int| 0 <= v < graph@.len() ==> #[trigger] g.reps()[v] == ring_start(graph@, v),
            forall|v: int, i: int|
                #![trigger ring_keys(graph@, v)[i]]
                0 <= v < graph@.len() && 0 <= i < ring_keys(graph@, v).len() ==> g.owners()[ring_start(graph@, v) + i]
                    == v && g.rows()[ring_start(graph@, v) + i] == ring_row(graph@, v, i),
    {
        let n = graph.len();
        let ghost gr = graph@;
        let ghost total = ring_start(gr, n as int);
        let rev = reverse_edges(graph);
        let lists = neighbour_lists(graph, &rev);
        let (reps, owners, ids) = number_rings(graph, &lists);
        let mut best: Vec<u64> = Vec::with_capacity(n);
        let mut t: usize = 0;
        while t < n
            invariant
                t <= n,
                best.len() == t,
                forall|t2: int| 0 <= t2 < t ==> #[trigger] best[t2] == u64::MAX,
            decreases n - t,
        {
            best.push(u64::MAX);
            t = t + 1;
        }
        let mut adj: Vec<Vec<(usize, usize)>> = Vec::new();
        let mut v: usize = 0;
        while v < n
            invariant
                gr == graph@,
                n == gr.len(),
                v <= n,
                total == ring_start(gr, n as int),
                2 * total <= u32::MAX,
                general_ok(gr),
                lists.len() == n,
                forall|y: int| 0 <= y < n ==> (#[trigger] lists[y])@ == ring_keys(gr, y),
                reps.len() == n,
                forall|y: int| 0 <= y < n ==> #[trigger] reps[y] == ring_start(gr, y),
                ids_ok(gr, ids@, n as int),
                best.len() == n,
                forall|t2: int| 0 <= t2 < n ==> #[trigger] best[t2] == u64::MAX,
                adj.len() == ring_start(gr, v as int),
                small_rows(adj@, total),
                forall|y: int, i: int|
                    #![trigger ring_keys(gr, y)[i]]
                    0 <= y < v && 0 <= i < ring_keys(gr, y).len() ==> row_u32(adj[ring_start(gr, y) + i]@)
                        == ring_row(gr, y, i),
            decreases n - v,
        {
            let ghost adj0 = adj@;
            append_ring_rows(graph, &lists, &reps, &ids, v, &mut best, &mut adj);
            proof {
                assert forall|y: int, i: int|
                    #![trigger ring_keys(gr, y)[i]]
                    0 <= y < v + 1 && 0 <= i < ring_keys(gr, y).len() implies row_u32(adj[ring_start(gr, y) + i]@)
                        == ring_row(gr, y, i) by {
                    if y < v {
                        lemma_ring_start_mono(gr, y + 1, v as int);
                        lemma_ring_start_mono(gr, 0, y);
                        assert(ring_start(gr, y + 1) == ring_start(gr, y) + ring_keys(gr, y).len());
                        assert(adj[ring_start(gr, y) + i] == adj0[ring_start(gr, y) + i]);
                    } else {
                        assert(row_u32(adj[ring_start(gr, v as int) + i]@) == ring_row(gr, v as int, i));
                    }
                }
            }
            v = v + 1;
        }
        proof {
            lemma_ring_start_mono(gr, 0, n as int);
            lemma_edge_count_small(adj@);
        }
        let ghost adj_v = adj@;
        let mut cg = ConstGraph::new(adj);
        proof {
            use_type_invariant(&cg);
        }
        cg.orig_to_const_rep = reps;
        cg.const_to_orig = owners;
        proof {
            assert forall|y: int, i: int|
                #![trigger ring_keys(gr, y)[i]]
                0 <= y < n && 0 <= i < ring_keys(gr, y).len() implies cg.owners()[ring_start(gr, y) + i] == y
                    && cg.rows()[ring_start(gr, y) + i] == ring_row(gr, y, i) by {
                lemma_ring_start_mono(gr, y + 1, n as int);
                lemma_ring_start_mono(gr, 0, y);
                assert(ring_start(gr, y + 1) == ring_start(gr, y) + ring_keys(gr, y).len());
                let x = ring_start(gr, y) + i;
                assert(row_u32(adj_v[x]@) == ring_row(gr, y, i));
                assert(rows_of(adj_v)[x] =~= row_u32(adj_v[x]@));
            }
        }
        cg
    }

    /// The out-edges of `u`: targets and weights, in matching order.
    pub fn neighbors(&self, u: usize) -> (r: (&[u32], &[u32]))
        requires
            u < self.rows().len(),
        ensures
            r.0@.len() == self.rows()[u as int].len(),
            r.1@.len() == self.rows()[u as int].len(),
            forall|i: int| 0 <= i < r.0@.len() ==> (#[trigger] r.0@[i], r.1@[i]) == self.rows()[u as int][i],
    {
        proof {
            use_type_invariant(self);
        }
        let start = self.adj_off[u] as usize;
        let end = self.adj_off[u + 1] as usize;
        (&self.adj_dst.as_slice()[start..end], &self.adj_wt.as_slice()[start..end])
    }

    /// The number of vertices.
    pub fn const_n(&self) -> (r: usize)
        ensures
            r == self.rows().len(),
    {
        proof {
            use_type_invariant(self);
        }
        self.adj_off.len() - 1
    }

    /// The number of vertices of the original graph.
    pub fn orig_n(&self) -> (r: usize)
        ensures
            r == self.reps().len(),
    {
        self.orig_to_const_rep.len()
    }

    /// The representative of original vertex `v`, if there is such a vertex.
    pub fn orig_to_const(&self, v: usize) -> (r: Option<usize>)
        ensures
            r == (if v < self.reps().len() {
                Some(self.reps()[v as int] as usize)
            } else {
                None::<usize>
            }),
    {
        if v < self.orig_to_const_rep.len() {
            Some(self.orig_to_const_rep[v] as usize)
        } else {
            None
        }
    }

    /// The original vertex that vertex `x` stands for, if there is such a vertex.
    pub fn const_to_orig(&self, x: usize) -> (r: Option<usize>)
        ensures
            r == (if x < self.owners().len() {
                Some(self.owners()[x as int] as usize)
            } else {
                None::<usize>
            }),
    {
        if x < self.const_to_orig.len() {
            Some(self.const_to_orig[x] as usize)
        } else {
            None
        }
    }

    /// The graph as an adjacency list of `(target, weight)` pairs.
    pub fn to_adj_list(&self) -> (adj: Vec<Vec<(usize, usize)>>)
        ensures
            adj.len() == self.rows().len(),
            forall|u: int| 0 <= u < adj.len() ==> (#[trigger] adj[u]).len() == self.rows()[u].len(),
            forall|u: int, i: int|
                0 <= u < adj.len() && 0 <= i < adj[u].len() ==> #[trigger] adj[u][i] == (
                self.rows()[u][i].0 as usize,
                self.rows()[u][i].1 as usize,
            ),
    {
        let n = self.const_n();
        let mut adj: Vec<Vec<(usize, usize)>> = Vec::with_capacity(n);
        let mut u: usize = 0;
        while u < n
            invariant
                n == self.rows().len(),
                u <= n,
                adj.len() == u,
                forall|u2: int| 0 <= u2 < u ==> (#[trigger] adj[u2]).len() == self.rows()[u2].len(),
                forall|u2: int, i: int|
                    0 <= u2 < u && 0 <= i < adj[u2].len() ==> #[trigger] adj[u2][i] == (
                    self.rows()[u2][i].0 as usize,
                    self.rows()[u2][i].1 as usize,
                ),
            decreases n - u,
        {
            let (dsts, wts) = self.neighbors(u);
            let mut row: Vec<(usize, usize)> = Vec::with_capacity(dsts.len());
            let mut i: usize = 0;
            while i < dsts.len()
                invariant
                    u < n == self.rows().len(),
                    dsts@.len() == self.rows()[u as int].len(),
                    wts@.len() == self.rows()[u as int].len(),
                    forall|j: int| 0 <= j < dsts@.len() ==> (#[trigger] dsts@[j], wts@[j]) == self.rows()[u as int][j],
                    i <= dsts.len(),
                    row.len() == i,
                    forall|j: int|
                        0 <= j < i ==> #[trigger] row[j] == (
                        self.rows()[u as int][j].0 as usize,
                        self.rows()[u as int][j].1 as usize,
                    ),
                decreases dsts.len() - i,
            {
                assert((dsts@[i as int], wts@[i as int]) == self.rows()[u as int][i as int]);
                row.push((dsts[i] as usize, wts[i] as usize));
                i = i + 1;
            }
            adj.push(row);
            u = u + 1;
        }
        adj
    }
}

} // verus!
