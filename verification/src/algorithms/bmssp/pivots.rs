//! How many pivots there can be: the trees of the forest of tree edges over the
//! visited vertices are disjoint, so as many pivots as there are trees of at least
//! `k` vertices fit, `k` vertices each, into the visited list.
use vstd::prelude::*;
use vstd::set_lib::*;
use super::{forest_children, forest_kids, forest_size, forest_kids_size, fuel, is_pivot, tree_edge, tree_parent, targets_in_range};
use super::path_dist::{PathDist, lemma_pack_low_fields};

verus! {

/// Each out-edge of a vertex leads to a different vertex.
pub open spec fn simple_rows(rows: Seq<Seq<(u32, u32)>>) -> bool {
    forall|u: int, i: int, j: int|
        0 <= u < rows.len() && 0 <= i < j < rows[u].len() ==> (#[trigger] rows[u][i]).0 != (#[trigger] rows[u][j]).0
}

/// The predecessor that the estimate of `y` records.
pub open spec fn pred_of(d: Seq<PathDist>, y: u32) -> u32 {
    d[y as int].pred_spec()
}

/// The vertex `m` predecessors above `y`.
pub open spec fn ancestor(d: Seq<PathDist>, y: u32, m: nat) -> u32
    decreases m,
{
    if m == 0 {
        y
    } else {
        ancestor(d, pred_of(d, y), (m - 1) as nat)
    }
}

/// Some vertex is a tree parent of `v`.
pub open spec fn has_tree_parent(rows: Seq<Seq<(u32, u32)>>, d: Seq<PathDist>, w: Seq<u32>, v: u32) -> bool {
    exists|z: u32| #[trigger] tree_parent(rows, d, w, z, v)
}

/// The vertices of the tree below `x`, with `f` levels left.
pub open spec fn tree_nodes(rows: Seq<Seq<(u32, u32)>>, d: Seq<PathDist>, w: Seq<u32>, x: u32, f: nat) -> Set<u32>
    decreases f, 0nat,
{
    if f == 0 {
        set![x]
    } else {
        set![x].union(kids_nodes(rows, d, w, forest_children(rows, d, w, x), (f - 1) as nat))
    }
}

/// The vertices of the trees below the vertices of `kids`, with `f` levels left.
pub open spec fn kids_nodes(rows: Seq<Seq<(u32, u32)>>, d: Seq<PathDist>, w: Seq<u32>, kids: Seq<u32>, f: nat) -> Set<u32>
    decreases f, kids.len(),
{
    if kids.len() == 0 {
        Set::empty()
    } else {
        kids_nodes(rows, d, w, kids.drop_last(), f).union(tree_nodes(rows, d, w, kids.last(), f))
    }
}

/// A tree edge records its source as the predecessor of its target, one edge further.
proof fn lemma_tree_edge_fields(d: Seq<PathDist>, u: u32, e: (u32, u32))
    requires
        tree_edge(d, u, e),
        u < 2097152,
        e.0 < 2097152,
    ensures
        pred_of(d, e.0) == u,
        d[e.0 as int].hop_spec() == d[u as int].hop_spec() + 1,
{
    lemma_pack_low_fields((d[u as int].hop_spec() + 1) as u64, e.0 as u64, u as u64);
}

/// Every child comes from a tree edge of the row to a vertex of `w`.
proof fn lemma_kids_edges(row: Seq<(u32, u32)>, d: Seq<PathDist>, w: Seq<u32>, x: u32, i: nat)
    requires
        i <= row.len(),
    ensures
        forall|j: int|
            0 <= j < forest_kids(row, d, w, x, i).len() ==> exists|e: int|
                0 <= e < i && (#[trigger] row[e]).0 == #[trigger] forest_kids(row, d, w, x, i)[j] && w.contains(row[e].0)
                    && tree_edge(d, x, row[e]),
    decreases i,
{
    if i > 0 {
        lemma_kids_edges(row, d, w, x, (i - 1) as nat);
        let q = forest_kids(row, d, w, x, (i - 1) as nat);
        assert forall|j: int| 0 <= j < forest_kids(row, d, w, x, i).len() implies exists|e: int|
            0 <= e < i && (#[trigger] row[e]).0 == #[trigger] forest_kids(row, d, w, x, i)[j] && w.contains(row[e].0)
                && tree_edge(d, x, row[e]) by {
            if j < q.len() {
                assert(forest_kids(row, d, w, x, i)[j] == q[j]);
                let e = choose|e: int| 0 <= e < i - 1 && (#[trigger] row[e]).0 == q[j] && w.contains(row[e].0) && tree_edge(d, x, row[e]);
                assert(row[e].0 == forest_kids(row, d, w, x, i)[j]);
            } else {
                assert(row[i - 1].0 == forest_kids(row, d, w, x, i)[j]);
            }
        }
    }
}

/// On a row with different targets, the children are different vertices.
proof fn lemma_kids_distinct(row: Seq<(u32, u32)>, d: Seq<PathDist>, w: Seq<u32>, x: u32, i: nat)
    requires
        i <= row.len(),
        forall|a: int, b: int| 0 <= a < b < row.len() ==> (#[trigger] row[a]).0 != (#[trigger] row[b]).0,
    ensures
        forest_kids(row, d, w, x, i).no_duplicates(),
    decreases i,
{
    if i > 0 {
        lemma_kids_distinct(row, d, w, x, (i - 1) as nat);
        lemma_kids_edges(row, d, w, x, (i - 1) as nat);
        let q = forest_kids(row, d, w, x, (i - 1) as nat);
        let v = row[i - 1].0;
        if w.contains(v) && tree_edge(d, x, row[i - 1]) {
            assert forall|a: int, b: int| 0 <= a < b < q.push(v).len() implies q.push(v)[a] != q.push(v)[b] by {
                if b == q.len() {
                    let e = choose|e: int| 0 <= e < i - 1 && (#[trigger] row[e]).0 == #[trigger] q[a] && w.contains(row[e].0) && tree_edge(d, x, row[e]);
                    assert(row[e].0 != row[i - 1].0);
                }
            }
        }
    }
}

/// One more step up is the predecessor of the last vertex reached.
proof fn lemma_ancestor_step(d: Seq<PathDist>, y: u32, m: nat)
    ensures
        ancestor(d, y, m + 1) == pred_of(d, ancestor(d, y, m)),
    decreases m,
{
    assert(ancestor(d, y, m + 1) == ancestor(d, pred_of(d, y), m));
    if m > 0 {
        lemma_ancestor_step(d, pred_of(d, y), (m - 1) as nat);
        assert(ancestor(d, y, m) == ancestor(d, pred_of(d, y), (m - 1) as nat));
        assert((m - 1) as nat + 1 == m);
    } else {
        assert(ancestor(d, pred_of(d, y), 0) == pred_of(d, y));
        assert(ancestor(d, y, 0) == y);
    }
}

/// What the children of `x` are: vertices of `w` one level below `x`, with `x` as
/// their tree parent and recorded predecessor.
proof fn lemma_children_facts(rows: Seq<Seq<(u32, u32)>>, d: Seq<PathDist>, w: Seq<u32>, x: u32)
    requires
        targets_in_range(rows),
        rows.len() < 2097152,
        x < rows.len(),
    ensures
        forall|j: int|
            0 <= j < forest_children(rows, d, w, x).len() ==> {
                let c = #[trigger] forest_children(rows, d, w, x)[j];
                &&& c < rows.len()
                &&& tree_parent(rows, d, w, x, c)
                &&& pred_of(d, c) == x
                &&& d[c as int].hop_spec() == d[x as int].hop_spec() + 1
            },
{
    if w.contains(x) {
        let row = rows[x as int];
        lemma_kids_edges(row, d, w, x, row.len());
        assert forall|j: int| 0 <= j < forest_children(rows, d, w, x).len() implies {
            let c = #[trigger] forest_children(rows, d, w, x)[j];
            &&& c < rows.len()
            &&& tree_parent(rows, d, w, x, c)
            &&& pred_of(d, c) == x
            &&& d[c as int].hop_spec() == d[x as int].hop_spec() + 1
        } by {
            let c = forest_children(rows, d, w, x)[j];
            let e = choose|e: int| 0 <= e < row.len() && (#[trigger] row[e]).0 == forest_kids(row, d, w, x, row.len())[j] && w.contains(row[e].0) && tree_edge(d, x, row[e]);
            assert(rows[x as int][e].0 < rows.len());
            lemma_tree_edge_fields(d, x, row[e]);
        }
    }
}

/// A vertex of the trees below `kids` lies in the tree below one of them.
proof fn lemma_kids_nodes_member(rows: Seq<Seq<(u32, u32)>>, d: Seq<PathDist>, w: Seq<u32>, kids: Seq<u32>, f: nat, y: u32)
    requires
        kids_nodes(rows, d, w, kids, f).contains(y),
    ensures
        exists|j: int| 0 <= j < kids.len() && #[trigger] tree_nodes(rows, d, w, kids[j], f).contains(y),
    decreases kids.len(),
{
    if kids.len() > 0 {
        if kids_nodes(rows, d, w, kids.drop_last(), f).contains(y) {
            lemma_kids_nodes_member(rows, d, w, kids.drop_last(), f, y);
            let j = choose|j: int| 0 <= j < kids.drop_last().len() && #[trigger] tree_nodes(rows, d, w, kids.drop_last()[j], f).contains(y);
            assert(kids[j] == kids.drop_last()[j]);
        } else {
            assert(tree_nodes(rows, d, w, kids[kids.len() - 1], f).contains(y));
        }
    }
}

/// The vertices below `x` lie at or below its level; going up from one of them to the
/// level of `x` reaches `x`, and every vertex passed on the way has a tree parent.
proof fn lemma_nodes_shape(rows: Seq<Seq<(u32, u32)>>, d: Seq<PathDist>, w: Seq<u32>, x: u32, f: nat, y: u32)
    requires
        targets_in_range(rows),
        rows.len() < 2097152,
        x < rows.len(),
        tree_nodes(rows, d, w, x, f).contains(y),
    ensures
        y < rows.len(),
        d[y as int].hop_spec() >= d[x as int].hop_spec(),
        ancestor(d, y, (d[y as int].hop_spec() - d[x as int].hop_spec()) as nat) == x,
        y != x ==> w.contains(y) && w.contains(x),
        forall|m: nat|
            m < d[y as int].hop_spec() - d[x as int].hop_spec() ==> has_tree_parent(rows, d, w, #[trigger] ancestor(d, y, m)),
    decreases f,
{
    if y != x {
        assert(f > 0);
        let kids = forest_children(rows, d, w, x);
        lemma_kids_nodes_member(rows, d, w, kids, (f - 1) as nat, y);
        let j = choose|j: int| 0 <= j < kids.len() && #[trigger] tree_nodes(rows, d, w, kids[j], (f - 1) as nat).contains(y);
        let c = kids[j];
        lemma_children_facts(rows, d, w, x);
        assert(c < rows.len() && tree_parent(rows, d, w, x, c) && pred_of(d, c) == x);
        lemma_nodes_shape(rows, d, w, c, (f - 1) as nat, y);
        let mc = (d[y as int].hop_spec() - d[c as int].hop_spec()) as nat;
        lemma_ancestor_step(d, y, mc);
        assert((d[y as int].hop_spec() - d[x as int].hop_spec()) as nat == mc + 1);
        assert forall|m: nat| m < d[y as int].hop_spec() - d[x as int].hop_spec() implies has_tree_parent(rows, d, w, #[trigger] ancestor(d, y, m)) by {
            if m == mc {
                assert(ancestor(d, y, mc) == c);
                assert(tree_parent(rows, d, w, x, ancestor(d, y, m)));
            } else {
                assert(m < mc);
                assert(m < d[y as int].hop_spec() - d[c as int].hop_spec());
            }
        }
    } else {
        assert(ancestor(d, y, 0) == y);
    }
}

/// Two different vertices on one level, or two different vertices without a tree
/// parent, have no vertex in common below them.
proof fn lemma_trees_apart(
    rows: Seq<Seq<(u32, u32)>>,
    d: Seq<PathDist>,
    w: Seq<u32>,
    x1: u32,
    f1: nat,
    x2: u32,
    f2: nat,
    y: u32,
)
    requires
        targets_in_range(rows),
        rows.len() < 2097152,
        x1 < rows.len(),
        x2 < rows.len(),
        x1 != x2,
        d[x1 as int].hop_spec() == d[x2 as int].hop_spec() || (!has_tree_parent(rows, d, w, x1) && !has_tree_parent(
            rows,
            d,
            w,
            x2,
        )),
    ensures
        !(tree_nodes(rows, d, w, x1, f1).contains(y) && tree_nodes(rows, d, w, x2, f2).contains(y)),
{
    if tree_nodes(rows, d, w, x1, f1).contains(y) && tree_nodes(rows, d, w, x2, f2).contains(y) {
        lemma_nodes_shape(rows, d, w, x1, f1, y);
        lemma_nodes_shape(rows, d, w, x2, f2, y);
        let h1 = d[x1 as int].hop_spec();
        let h2 = d[x2 as int].hop_spec();
        let hy = d[y as int].hop_spec();
        if h1 < h2 {
            let m = (hy - h2) as nat;
            assert(m < hy - h1);
            assert(has_tree_parent(rows, d, w, ancestor(d, y, m)));
        } else if h2 < h1 {
            let m = (hy - h1) as nat;
            assert(m < hy - h2);
            assert(has_tree_parent(rows, d, w, ancestor(d, y, m)));
        }
    }
}

/// With different targets on each row, the size of the tree below `x` is the number
/// of its vertices.
proof fn lemma_size_is_card(rows: Seq<Seq<(u32, u32)>>, d: Seq<PathDist>, w: Seq<u32>, x: u32, f: nat)
    requires
        targets_in_range(rows),
        simple_rows(rows),
        rows.len() < 2097152,
        x < rows.len(),
    ensures
        tree_nodes(rows, d, w, x, f).finite(),
        forest_size(rows, d, w, x, f) == tree_nodes(rows, d, w, x, f).len(),
    decreases f, 0nat,
{
    assert(set![x] == Set::<u32>::empty().insert(x));
    assert(Set::<u32>::empty().insert(x).len() == 1);
    assert(set![x].finite());
    if f > 0 {
        let kids = forest_children(rows, d, w, x);
        lemma_children_facts(rows, d, w, x);
        if w.contains(x) {
            let row = rows[x as int];
            assert forall|a: int, b: int| 0 <= a < b < row.len() implies (#[trigger] row[a]).0 != (#[trigger] row[b]).0 by {
                assert(rows[x as int][a].0 != rows[x as int][b].0);
            }
            lemma_kids_distinct(row, d, w, x, row.len());
        }
        lemma_kids_size_is_card(rows, d, w, kids, (f - 1) as nat, (d[x as int].hop_spec() + 1) as nat);
        let kn = kids_nodes(rows, d, w, kids, (f - 1) as nat);
        assert(!kn.contains(x)) by {
            if kn.contains(x) {
                lemma_kids_nodes_member(rows, d, w, kids, (f - 1) as nat, x);
                let j = choose|j: int| 0 <= j < kids.len() && #[trigger] tree_nodes(rows, d, w, kids[j], (f - 1) as nat).contains(x);
                lemma_nodes_shape(rows, d, w, kids[j], (f - 1) as nat, x);
            }
        }
        assert(set![x].disjoint(kn));
        lemma_set_disjoint_lens(set![x], kn);
        assert(set![x] + kn == set![x].union(kn));
        assert(tree_nodes(rows, d, w, x, f) == set![x].union(kn));
        assert(forest_size(rows, d, w, x, f) == 1 + forest_kids_size(rows, d, w, kids, (f - 1) as nat));
    }
}

/// The same for the trees below different vertices of one level.
proof fn lemma_kids_size_is_card(rows: Seq<Seq<(u32, u32)>>, d: Seq<PathDist>, w: Seq<u32>, kids: Seq<u32>, f: nat, h: nat)
    requires
        targets_in_range(rows),
        simple_rows(rows),
        rows.len() < 2097152,
        kids.no_duplicates(),
        forall|j: int| 0 <= j < kids.len() ==> #[trigger] kids[j] < rows.len() && d[kids[j] as int].hop_spec() == h,
    ensures
        kids_nodes(rows, d, w, kids, f).finite(),
        forest_kids_size(rows, d, w, kids, f) == kids_nodes(rows, d, w, kids, f).len(),
    decreases f, kids.len(),
{
    assert(Set::<u32>::empty().len() == 0);
    if kids.len() > 0 {
        let front = kids.drop_last();
        let x = kids.last();
        assert forall|j: int| 0 <= j < front.len() implies #[trigger] front[j] < rows.len() && d[front[j] as int].hop_spec() == h by {
            assert(front[j] == kids[j]);
        }
        lemma_kids_size_is_card(rows, d, w, front, f, h);
        assert(kids[kids.len() - 1] == x);
        lemma_size_is_card(rows, d, w, x, f);
        let a = kids_nodes(rows, d, w, front, f);
        let b = tree_nodes(rows, d, w, x, f);
        assert(a.disjoint(b)) by {
            assert forall|y: u32| !(a.contains(y) && b.contains(y)) by {
                if a.contains(y) && b.contains(y) {
                    lemma_kids_nodes_member(rows, d, w, front, f, y);
                    let j = choose|j: int| 0 <= j < front.len() && #[trigger] tree_nodes(rows, d, w, front[j], f).contains(y);
                    assert(front[j] == kids[j]);
                    assert(kids[j] != kids[kids.len() - 1]);
                    lemma_trees_apart(rows, d, w, front[j], f, x, f, y);
                }
            }
        }
        lemma_set_disjoint_lens(a, b);
        assert(a + b == a.union(b));
        assert(kids_nodes(rows, d, w, kids, f) == a.union(b));
        assert(forest_kids_size(rows, d, w, kids, f) == forest_kids_size(rows, d, w, front, f) + forest_size(rows, d, w, x, f));
        assert((a + b).len() == a.len() + b.len());
    }
}

/// The vertices of the trees below the vertices of `p`, each with its own levels.
pub open spec fn pivot_nodes(rows: Seq<Seq<(u32, u32)>>, d: Seq<PathDist>, w: Seq<u32>, p: Seq<u32>) -> Set<u32>
    decreases p.len(),
{
    if p.len() == 0 {
        Set::empty()
    } else {
        pivot_nodes(rows, d, w, p.drop_last()).union(tree_nodes(rows, d, w, p.last(), fuel(d[p.last() as int])))
    }
}

/// A vertex below the pivots lies below one of them.
proof fn lemma_pivot_nodes_member(rows: Seq<Seq<(u32, u32)>>, d: Seq<PathDist>, w: Seq<u32>, p: Seq<u32>, y: u32)
    requires
        pivot_nodes(rows, d, w, p).contains(y),
    ensures
        exists|j: int| 0 <= j < p.len() && #[trigger] tree_nodes(rows, d, w, p[j], fuel(d[p[j] as int])).contains(y),
    decreases p.len(),
{
    if p.len() > 0 {
        if pivot_nodes(rows, d, w, p.drop_last()).contains(y) {
            lemma_pivot_nodes_member(rows, d, w, p.drop_last(), y);
            let j = choose|j: int|
                0 <= j < p.drop_last().len() && #[trigger] tree_nodes(rows, d, w, p.drop_last()[j], fuel(d[p.drop_last()[j] as int])).contains(y);
            assert(p[j] == p.drop_last()[j]);
        } else {
            assert(tree_nodes(rows, d, w, p[p.len() - 1], fuel(d[p[p.len() - 1] as int])).contains(y));
        }
    }
}

/// The trees below different pivots are disjoint sets of visited vertices, each of at
/// least `k` vertices.
proof fn lemma_pivot_nodes(rows: Seq<Seq<(u32, u32)>>, d: Seq<PathDist>, w: Seq<u32>, k: int, p: Seq<u32>)
    requires
        targets_in_range(rows),
        simple_rows(rows),
        rows.len() < 2097152,
        forall|i: int| 0 <= i < w.len() ==> #[trigger] w[i] < rows.len(),
        p.no_duplicates(),
        forall|i: int| 0 <= i < p.len() ==> is_pivot(rows, d, w, k, #[trigger] p[i]),
        0 <= k,
    ensures
        pivot_nodes(rows, d, w, p).finite(),
        pivot_nodes(rows, d, w, p).subset_of(w.to_set()),
        pivot_nodes(rows, d, w, p).len() >= p.len() * k,
    decreases p.len(),
{
    if p.len() > 0 {
        let front = p.drop_last();
        let x = p.last();
        assert forall|i: int| 0 <= i < front.len() implies is_pivot(rows, d, w, k, #[trigger] front[i]) by {
            assert(front[i] == p[i]);
        }
        lemma_pivot_nodes(rows, d, w, k, front);
        assert(is_pivot(rows, d, w, k, p[p.len() - 1]));
        let q = choose|q: int| 0 <= q < w.len() && w[q] == x;
        assert(x < rows.len());
        let f = fuel(d[x as int]);
        lemma_size_is_card(rows, d, w, x, f);
        let a = pivot_nodes(rows, d, w, front);
        let b = tree_nodes(rows, d, w, x, f);
        assert(b.subset_of(w.to_set())) by {
            assert forall|y: u32| b.contains(y) implies w.to_set().contains(y) by {
                lemma_nodes_shape(rows, d, w, x, f, y);
            }
        }
        assert(a.disjoint(b)) by {
            assert forall|y: u32| !(a.contains(y) && b.contains(y)) by {
                if a.contains(y) && b.contains(y) {
                    lemma_pivot_nodes_member(rows, d, w, front, y);
                    let j = choose|j: int| 0 <= j < front.len() && #[trigger] tree_nodes(rows, d, w, front[j], fuel(d[front[j] as int])).contains(y);
                    assert(front[j] == p[j]);
                    assert(p[j] != p[p.len() - 1]);
                    assert(is_pivot(rows, d, w, k, front[j]));
                    let qj = choose|qj: int| 0 <= qj < w.len() && w[qj] == front[j];
                    lemma_trees_apart(rows, d, w, front[j], fuel(d[front[j] as int]), x, f, y);
                }
            }
        }
        lemma_set_disjoint_lens(a, b);
        assert(a + b == a.union(b));
        assert(p.len() * k == front.len() * k + k) by (nonlinear_arith)
            requires
                p.len() == front.len() + 1,
        ;
    }
}

/// Pivots fit into the visited list: on rows whose out-edges lead to different
/// vertices, different pivots head disjoint trees of at least `k` visited vertices
/// each, so `|P| * k <= |W|`.
pub proof fn lemma_pivots_fit(rows: Seq<Seq<(u32, u32)>>, d: Seq<PathDist>, w: Seq<u32>, k: int, p: Seq<u32>)
    requires
        targets_in_range(rows),
        simple_rows(rows),
        rows.len() < 2097152,
        w.no_duplicates(),
        forall|i: int| 0 <= i < w.len() ==> #[trigger] w[i] < rows.len(),
        p.no_duplicates(),
        forall|i: int| 0 <= i < p.len() ==> is_pivot(rows, d, w, k, #[trigger] p[i]),
        0 <= k,
    ensures
        p.len() * k <= w.len(),
{
    lemma_pivot_nodes(rows, d, w, k, p);
    w.unique_seq_to_set();
    lemma_len_subset(pivot_nodes(rows, d, w, p), w.to_set());
}

} // verus!
