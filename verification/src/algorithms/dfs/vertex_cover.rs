use vstd::prelude::*;
use crate::ds::priority_queue::MinQueue;

verus! {

/// Total weight of the vertices that the mask `m` selects.
pub open spec fn mask_weight(w: Seq<u64>, m: Seq<bool>) -> int
    decreases m.len(),
{
    if m.len() == 0 {
        0
    } else {
        mask_weight(w, m.drop_last()) + if m.last() {
            w[m.len() - 1] as int
        } else {
            0
        }
    }
}

/// Every edge has an endpoint that the mask `m` selects.
pub open spec fn covers(edges: Seq<(usize, usize)>, m: Seq<bool>) -> bool {
    forall|i: int| 0 <= i < edges.len() ==> m[#[trigger] edges[i].0 as int] || m[edges[i].1 as int]
}

/// Both endpoints of every edge are vertices.
pub open spec fn edges_in_range(edges: Seq<(usize, usize)>, n: int) -> bool {
    forall|i: int| 0 <= i < edges.len() ==> #[trigger] edges[i].0 < n && edges[i].1 < n
}

/// Pointwise conjunction of two masks.
pub open spec fn mask_and(a: Seq<bool>, b: Seq<bool>) -> Seq<bool> {
    Seq::new(a.len(), |v: int| a[v] && b[v])
}

proof fn lemma_mask_weight_update(w: Seq<u64>, m: Seq<bool>, a: int)
    requires
        0 <= a < m.len(),
        m.len() <= w.len(),
        !m[a],
    ensures
        mask_weight(w, m.update(a, true)) == mask_weight(w, m) + w[a],
    decreases m.len(),
{
    let m2 = m.update(a, true);
    if a < m.len() - 1 {
        lemma_mask_weight_update(w, m.drop_last(), a);
        assert(m2.drop_last() =~= m.drop_last().update(a, true));
    } else {
        assert(m2.drop_last() =~= m.drop_last());
    }
}

proof fn lemma_mask_weight_nonneg(w: Seq<u64>, m: Seq<bool>)
    ensures
        mask_weight(w, m) >= 0,
    decreases m.len(),
{
    if m.len() > 0 {
        lemma_mask_weight_nonneg(w, m.drop_last());
    }
}

/// A smaller mask weighs less.
proof fn lemma_mask_weight_mono(w: Seq<u64>, a: Seq<bool>, b: Seq<bool>)
    requires
        a.len() == b.len(),
        forall|v: int| 0 <= v < a.len() && #[trigger] a[v] ==> b[v],
    ensures
        mask_weight(w, a) <= mask_weight(w, b),
    decreases a.len(),
{
    if a.len() > 0 {
        lemma_mask_weight_mono(w, a.drop_last(), b.drop_last());
    }
}

/// Weight splits over two disjoint masks.
proof fn lemma_mask_weight_split(w: Seq<u64>, a: Seq<bool>, b: Seq<bool>, c: Seq<bool>)
    requires
        a.len() == b.len() == c.len(),
        forall|v: int| 0 <= v < a.len() ==> #[trigger] c[v] == (a[v] || b[v]),
        forall|v: int| 0 <= v < a.len() ==> !(#[trigger] a[v] && b[v]),
    ensures
        mask_weight(w, c) == mask_weight(w, a) + mask_weight(w, b),
    decreases a.len(),
{
    if a.len() > 0 {
        lemma_mask_weight_split(w, a.drop_last(), b.drop_last(), c.drop_last());
    }
}

/// An empty selection weighs nothing.
proof fn lemma_mask_weight_zero(w: Seq<u64>, m: Seq<bool>)
    requires
        forall|v: int| 0 <= v < m.len() ==> !#[trigger] m[v],
    ensures
        mask_weight(w, m) == 0,
    decreases m.len(),
{
    if m.len() > 0 {
        lemma_mask_weight_zero(w, m.drop_last());
    }
}

/// Every mask weighs at most `len * u64::MAX`.
proof fn lemma_mask_weight_bound(w: Seq<u64>, m: Seq<bool>)
    ensures
        mask_weight(w, m) <= m.len() * (u64::MAX as int),
    decreases m.len(),
{
    if m.len() > 0 {
        lemma_mask_weight_bound(w, m.drop_last());
    }
}

/// The state of the greedy matching after the first `k` edges: matched vertices and the
/// sum, over matched edges, of the lighter endpoint's weight.
pub open spec fn greedy_matching(edges: Seq<(usize, usize)>, w: Seq<u64>, n: int, k: int) -> (Seq<bool>, int)
    decreases k,
{
    if k <= 0 {
        (Seq::new(n as nat, |v: int| false), 0)
    } else {
        let (used, sum) = greedy_matching(edges, w, n, k - 1);
        let (a, b) = edges[k - 1];
        if !used[a as int] && !used[b as int] {
            (
                used.update(a as int, true).update(b as int, true),
                sum + if w[a as int] <= w[b as int] {
                    w[a as int] as int
                } else {
                    w[b as int] as int
                },
            )
        } else {
            (used, sum)
        }
    }
}

/// Lower bound for covers that extend a partial choice of weight `fixed_weight`:
/// `fixed_weight` plus the weight of a greedy matching of the uncovered edges, each
/// matched edge counting its lighter endpoint.
fn lower_bound(fixed_weight: u128, uncovered: &Vec<(usize, usize)>, vertex_count: usize, weight: &Vec<u64>) -> (r: u128)
    requires
        weight.len() == vertex_count,
        edges_in_range(uncovered@, vertex_count as int),
        fixed_weight as int + mask_weight(weight@, Seq::new(vertex_count as nat, |v: int| true)) <= u128::MAX,
    ensures
        r == fixed_weight + greedy_matching(uncovered@, weight@, vertex_count as int, uncovered.len() as int).1,
        forall|x: Seq<bool>|
            x.len() == vertex_count && covers(uncovered@, x) ==> r - fixed_weight <= #[trigger] mask_weight(
                weight@,
                mask_and(x, greedy_matching(uncovered@, weight@, vertex_count as int, uncovered.len() as int).0),
            ),
{
    let n = vertex_count;
    let ghost e = uncovered@;
    let ghost w = weight@;
    let mut used: Vec<bool> = vec![false; n];
    let mut sum: u128 = 0;
    let mut k: usize = 0;
    proof {
        assert(used@ =~= greedy_matching(e, w, n as int, 0).0);
        lemma_mask_weight_zero(w, used@);
        assert forall|x: Seq<bool>| x.len() == n implies 0 <= #[trigger] mask_weight(w, mask_and(x, used@)) by {
            lemma_mask_weight_nonneg(w, mask_and(x, used@));
        }
    }
    while k < uncovered.len()
        invariant
            n == vertex_count == w.len(),
            e == uncovered@,
            w == weight@,
            edges_in_range(e, n as int),
            fixed_weight as int + mask_weight(w, Seq::new(n as nat, |v: int| true)) <= u128::MAX,
            k <= e.len(),
            used.len() == n,
            used@ == greedy_matching(e, w, n as int, k as int).0,
            sum == greedy_matching(e, w, n as int, k as int).1,
            sum <= mask_weight(w, used@),
            forall|x: Seq<bool>|
                x.len() == n && (forall|i: int| 0 <= i < k ==> x[#[trigger] e[i].0 as int] || x[e[i].1 as int])
                    ==> sum <= #[trigger] mask_weight(w, mask_and(x, used@)),
        decreases e.len() - k,
    {
        let (a, b) = uncovered[k];
        let ghost u0 = used@;
        if !used[a] && !used[b] {
            let m = if weight[a] <= weight[b] {
                weight[a]
            } else {
                weight[b]
            };
            proof {
                let u1 = u0.update(a as int, true);
                let u2 = u1.update(b as int, true);
                lemma_mask_weight_update(w, u0, a as int);
                if a != b {
                    lemma_mask_weight_update(w, u1, b as int);
                }
                if a == b {
                    assert(u2 =~= u1);
                }
                lemma_mask_weight_mono(w, u2, Seq::new(n as nat, |v: int| true));
                lemma_mask_weight_nonneg(w, Seq::new(n as nat, |v: int| true));
                assert forall|x: Seq<bool>|
                    x.len() == n && (forall|i: int| 0 <= i < k + 1 ==> x[#[trigger] e[i].0 as int] || x[e[i].1 as int])
                    implies sum + m <= #[trigger] mask_weight(w, mask_and(x, u2)) by {
                    assert(x[e[k as int].0 as int] || x[e[k as int].1 as int]);
                    let xa = mask_and(x, u0);
                    let xb = xa.update(a as int, x[a as int]);
                    let xc = xb.update(b as int, x[b as int]);
                    assert(xc =~= mask_and(x, u2));
                    if x[a as int] {
                        lemma_mask_weight_update(w, xa, a as int);
                        assert(xb =~= xa.update(a as int, true));
                    } else {
                        assert(xb =~= xa);
                    }
                    if a != b && x[b as int] {
                        lemma_mask_weight_update(w, xb, b as int);
                        assert(xc =~= xb.update(b as int, true));
                    } else {
                        assert(xc =~= xb);
                    }
                    lemma_mask_weight_nonneg(w, xa);
                }
            }
            sum = sum + m as u128;
            used.set(a, true);
            used.set(b, true);
        }
        k = k + 1;
    }
    proof {
        lemma_mask_weight_mono(w, used@, Seq::new(n as nat, |v: int| true));
    }
    fixed_weight + sum
}

/// Vertices that `used` marks are endpoints of the first `k` edges.
proof fn lemma_greedy_used(edges: Seq<(usize, usize)>, w: Seq<u64>, n: int, k: int, v: int)
    requires
        0 <= k <= edges.len(),
        edges_in_range(edges, n),
        0 <= v < n,
        greedy_matching(edges, w, n, k).0[v],
    ensures
        exists|i: int| 0 <= i < k && (#[trigger] edges[i].0 == v || edges[i].1 == v),
        greedy_matching(edges, w, n, k).0.len() == n,
    decreases k,
{
    if k > 0 {
        lemma_greedy_len(edges, w, n, k - 1);
        let (used, sum) = greedy_matching(edges, w, n, k - 1);
        let (a, b) = edges[k - 1];
        if used[v] {
            lemma_greedy_used(edges, w, n, k - 1, v);
        } else {
            assert(edges[k - 1].0 == v || edges[k - 1].1 == v);
        }
    }
    lemma_greedy_len(edges, w, n, k);
}

proof fn lemma_greedy_len(edges: Seq<(usize, usize)>, w: Seq<u64>, n: int, k: int)
    requires
        0 <= n,
        0 <= k <= edges.len(),
        edges_in_range(edges, n),
    ensures
        greedy_matching(edges, w, n, k).0.len() == n,
    decreases k,
{
    if k > 0 {
        lemma_greedy_len(edges, w, n, k - 1);
    }
}

/// Puts the smaller endpoint of every edge first.
fn normalize_edges(edges: &Vec<(usize, usize)>) -> (r: Vec<(usize, usize)>)
    ensures
        r.len() == edges.len(),
        forall|i: int|
            0 <= i < edges.len() ==> #[trigger] r[i] == (if edges[i].0 <= edges[i].1 {
                edges[i]
            } else {
                (edges[i].1, edges[i].0)
            }),
{
    let mut r: Vec<(usize, usize)> = Vec::new();
    let mut i: usize = 0;
    while i < edges.len()
        invariant
            i <= edges.len(),
            r.len() == i,
            forall|j: int|
                0 <= j < i ==> #[trigger] r[j] == (if edges[j].0 <= edges[j].1 {
                    edges[j]
                } else {
                    (edges[j].1, edges[j].0)
                }),
        decreases edges.len() - i,
    {
        let (u, v) = edges[i];
        if u <= v {
            r.push((u, v));
        } else {
            r.push((v, u));
        }
        i = i + 1;
    }
    r
}

/// Number of endpoint slots of the first `k` edges that are `v`.
pub open spec fn degree(edges: Seq<(usize, usize)>, v: int, k: int) -> int
    decreases k,
{
    if k <= 0 {
        0
    } else {
        degree(edges, v, k - 1) + (if edges[k - 1].0 == v {
            1int
        } else {
            0
        }) + (if edges[k - 1].1 == v {
            1int
        } else {
            0
        })
    }
}

/// Branching score of an edge: the product of its endpoints' degrees, saturated at `usize::MAX`.
pub open spec fn edge_score(edges: Seq<(usize, usize)>, e: (usize, usize)) -> int {
    let p = degree(edges, e.0 as int, edges.len() as int) * degree(edges, e.1 as int, edges.len() as int);
    if p > usize::MAX {
        usize::MAX as int
    } else {
        p
    }
}

proof fn lemma_degree_bound(edges: Seq<(usize, usize)>, v: int, k: int)
    requires
        0 <= k <= edges.len(),
    ensures
        0 <= degree(edges, v, k) <= 2 * k,
    decreases k,
{
    if k > 0 {
        lemma_degree_bound(edges, v, k - 1);
    }
}

/// Chooses the edge to branch on: among the edges with both endpoints below `n`, the
/// last one with the largest product of endpoint degrees.
fn pick_branch_edge(edges: &Vec<(usize, usize)>, n: usize) -> (r: Option<(usize, usize)>)
    requires
        edges.len() <= usize::MAX / 4,
    ensures
        r is None <==> forall|i: int| 0 <= i < edges.len() ==> !(#[trigger] edges[i].0 < n && edges[i].1 < n),
        r matches Some(e) ==> exists|i: int|
            0 <= i < edges.len() && #[trigger] edges[i] == e && e.0 < n && e.1 < n && (forall|j: int|
                0 <= j < edges.len() && edges[j].0 < n && edges[j].1 < n ==> (if j <= i {
                    edge_score(edges@, edges[j]) <= edge_score(edges@, e)
                } else {
                    edge_score(edges@, edges[j]) < edge_score(edges@, e)
                })),
{
    let ghost es = edges@;
    if edges.len() == 0 {
        return None;
    }
    let mut deg: Vec<usize> = vec![0; n];
    let mut k: usize = 0;
    while k < edges.len()
        invariant
            es == edges@,
            edges.len() <= usize::MAX / 4,
            k <= edges.len(),
            deg.len() == n,
            forall|v: int| 0 <= v < n ==> #[trigger] deg[v] == degree(es, v, k as int),
        decreases edges.len() - k,
    {
        let (u, v) = edges[k];
        proof {
            lemma_degree_bound(es, u as int, k as int);
            lemma_degree_bound(es, v as int, k as int);
        }
        if u < n {
            deg.set(u, deg[u] + 1);
        }
        if v < n {
            deg.set(v, deg[v] + 1);
        }
        k = k + 1;
    }
    let mut best: Option<(usize, usize)> = None;
    let mut best_score: usize = 0;
    let ghost mut best_i: int = 0;
    let mut i: usize = 0;
    while i < edges.len()
        invariant
            es == edges@,
            i <= edges.len(),
            deg.len() == n,
            forall|v: int| 0 <= v < n ==> #[trigger] deg[v] == degree(es, v, es.len() as int),
            best is None <==> forall|j: int| 0 <= j < i ==> !(#[trigger] es[j].0 < n && es[j].1 < n),
            best matches Some(e) ==> {
                &&& 0 <= best_i < i
                &&& es[best_i] == e
                &&& e.0 < n && e.1 < n
                &&& best_score == edge_score(es, e)
                &&& forall|j: int|
                    0 <= j < i && #[trigger] es[j].0 < n && es[j].1 < n ==> (if j <= best_i {
                        edge_score(es, es[j]) <= best_score
                    } else {
                        edge_score(es, es[j]) < best_score
                    })
            },
        decreases edges.len() - i,
    {
        let (u, v) = edges[i];
        if u < n && v < n {
            let score = match deg[u].checked_mul(deg[v]) {
                Some(p) => p,
                None => usize::MAX,
            };
            proof {
                assert(score == edge_score(es, es[i as int]));
            }
            let better = match best {
                None => true,
                Some(_) => score >= best_score,
            };
            if better {
                best = Some((u, v));
                best_score = score;
                proof {
                    best_i = i as int;
                }
            }
        }
        i = i + 1;
    }
    best
}

/// `a` selects only vertices that `b` selects.
pub open spec fn mask_subset(a: Seq<bool>, b: Seq<bool>) -> bool {
    forall|v: int| 0 <= v < a.len() && #[trigger] a[v] ==> b[v]
}

/// The mask of a list of vertices.
pub open spec fn vertex_mask(vs: Seq<usize>, n: int) -> Seq<bool> {
    Seq::new(n as nat, |v: int| vs.contains(v as usize))
}

/// The edges of `unc` avoiding `x`, in order.
fn edges_avoiding(unc: &Vec<(usize, usize)>, x: usize) -> (r: Vec<(usize, usize)>)
    ensures
        r.len() <= unc.len(),
        forall|i: int| 0 <= i < r.len() ==> unc@.contains(#[trigger] r[i]) && r[i].0 != x && r[i].1 != x,
        forall|j: int|
            0 <= j < unc.len() && #[trigger] unc[j].0 != x && unc[j].1 != x ==> r@.contains(unc[j]),
        (exists|j: int| 0 <= j < unc.len() && !(#[trigger] unc[j].0 != x && unc[j].1 != x)) ==> r.len()
            < unc.len(),
{
    let mut r: Vec<(usize, usize)> = Vec::new();
    let mut k: usize = 0;
    let ghost mut dropped = false;
    while k < unc.len()
        invariant
            k <= unc.len(),
            r.len() <= k,
            dropped ==> r.len() < k,
            !dropped ==> forall|j: int| 0 <= j < k ==> #[trigger] unc[j].0 != x && unc[j].1 != x,
            forall|i: int| 0 <= i < r.len() ==> unc@.contains(#[trigger] r[i]) && r[i].0 != x && r[i].1 != x,
            forall|j: int| 0 <= j < k && #[trigger] unc[j].0 != x && unc[j].1 != x ==> r@.contains(unc[j]),
        decreases unc.len() - k,
    {
        let (a, b) = unc[k];
        if a != x && b != x {
            let ghost before = r@;
            r.push((a, b));
            proof {
                assert(unc[k as int].0 != x && unc[k as int].1 != x);
                assert(!dropped ==> forall|j: int| 0 <= j < k + 1 ==> #[trigger] unc[j].0 != x && unc[j].1 != x);
                assert forall|j: int| 0 <= j < k + 1 && #[trigger] unc[j].0 != x && unc[j].1 != x implies r@.contains(
                    unc[j],
                ) by {
                    if j < k {
                        let t = choose|t: int| 0 <= t < before.len() && before[t] == unc[j];
                        assert(r@[t] == unc[j]);
                    } else {
                        assert(r@[r.len() - 1] == unc[j]);
                    }
                }
            }
        } else {
            proof {
                dropped = true;
            }
        }
        k = k + 1;
    }
    r
}

/// A copy of a vector of flags.
fn copy_flags(v: &Vec<bool>) -> (r: Vec<bool>)
    ensures
        r@ == v@,
{
    let mut r: Vec<bool> = Vec::new();
    let mut i: usize = 0;
    while i < v.len()
        invariant
            i <= v.len(),
            r@ == v@.take(i as int),
        decreases v.len() - i,
    {
        r.push(v[i]);
        proof {
            assert(v@.take(i + 1) =~= v@.take(i as int).push(v[i as int]));
        }
        i = i + 1;
    }
    proof {
        assert(v@.take(v.len() as int) =~= v@);
    }
    r
}

/// A search node: vertices fixed into the cover, their weight, the edges they leave
/// uncovered, and a lower bound on every cover that extends them.
struct Node {
    lb: u128,
    fixed_weight: u128,
    chosen: Vec<bool>,
    uncovered: Vec<(usize, usize)>,
}

/// The facts that every search node satisfies.
spec fn node_ok(
    lb: int,
    fixed: int,
    chosen: Seq<bool>,
    unc: Seq<(usize, usize)>,
    en: Seq<(usize, usize)>,
    w: Seq<u64>,
    n: int,
) -> bool {
    &&& chosen.len() == n
    &&& fixed == mask_weight(w, chosen)
    &&& edges_in_range(unc, n)
    &&& unc.len() <= en.len()
    &&& forall|i: int|
        0 <= i < unc.len() ==> en.contains(#[trigger] unc[i]) && !chosen[unc[i].0 as int] && !chosen[unc[i].1 as int]
    &&& forall|j: int|
        0 <= j < en.len() && !chosen[#[trigger] en[j].0 as int] && !chosen[en[j].1 as int] ==> unc.contains(en[j])
    &&& forall|x: Seq<bool>|
        x.len() == n && covers(en, x) && mask_subset(chosen, x) ==> lb <= #[trigger] mask_weight(w, x)
}

/// The greedy matching bound is a valid lower bound for the node.
proof fn lemma_lb_valid(
    lb: int,
    fixed: int,
    chosen: Seq<bool>,
    unc: Seq<(usize, usize)>,
    en: Seq<(usize, usize)>,
    w: Seq<u64>,
    n: int,
)
    requires
        0 <= n,
        w.len() == n,
        chosen.len() == n,
        fixed == mask_weight(w, chosen),
        edges_in_range(unc, n),
        edges_in_range(en, n),
        forall|i: int|
            0 <= i < unc.len() ==> en.contains(#[trigger] unc[i]) && !chosen[unc[i].0 as int] && !chosen[unc[i].1 as int],
        lb == fixed + greedy_matching(unc, w, n, unc.len() as int).1,
        forall|x: Seq<bool>|
            x.len() == n && covers(unc, x) ==> lb - fixed <= #[trigger] mask_weight(
                w,
                mask_and(x, greedy_matching(unc, w, n, unc.len() as int).0),
            ),
    ensures
        forall|x: Seq<bool>|
            x.len() == n && covers(en, x) && mask_subset(chosen, x) ==> lb <= #[trigger] mask_weight(w, x),
{
    let used = greedy_matching(unc, w, n, unc.len() as int).0;
    lemma_greedy_len(unc, w, n, unc.len() as int);
    assert forall|x: Seq<bool>| x.len() == n && covers(en, x) && mask_subset(chosen, x) implies lb
        <= #[trigger] mask_weight(w, x) by {
        assert forall|i: int| 0 <= i < unc.len() implies x[#[trigger] unc[i].0 as int] || x[unc[i].1 as int] by {
            let j = choose|j: int| 0 <= j < en.len() && en[j] == unc[i];
            assert(x[en[j].0 as int] || x[en[j].1 as int]);
        }
        let xu = mask_and(x, used);
        assert(lb - fixed <= mask_weight(w, xu));
        assert forall|v: int| 0 <= v < n implies !(#[trigger] chosen[v] && xu[v]) by {
            if xu[v] {
                lemma_greedy_used(unc, w, n, unc.len() as int, v);
            }
        }
        let c = Seq::new(n as nat, |v: int| chosen[v] || xu[v]);
        lemma_mask_weight_split(w, chosen, xu, c);
        lemma_mask_weight_mono(w, c, x);
    }
}

/// Total `f(count)` over the queued nodes; every branching step lowers it.
spec fn potential(q: Seq<(u128, usize)>, pool: Seq<Node>) -> int
    decreases q.len(),
{
    if q.len() == 0 {
        0
    } else {
        potential(q.drop_last(), pool) + pot_weight(pool[q.last().1 as int].uncovered.len() as int)
    }
}

/// `2^(c + 1) - 1`
spec fn pot_weight(c: int) -> int
    decreases c,
{
    if c <= 0 {
        1
    } else {
        2 * pot_weight(c - 1) + 1
    }
}

proof fn lemma_pot_weight_mono(a: int, b: int)
    requires
        0 <= a <= b,
    ensures
        1 <= pot_weight(a) <= pot_weight(b),
    decreases b,
{
    if b > 0 {
        if a < b {
            lemma_pot_weight_mono(a, b - 1);
        } else {
            lemma_pot_weight_mono(0, b - 1);
        }
    }
}

proof fn lemma_potential_remove(q: Seq<(u128, usize)>, pool: Seq<Node>, i: int)
    requires
        0 <= i < q.len(),
    ensures
        potential(q.remove(i), pool) == potential(q, pool) - pot_weight(pool[q[i].1 as int].uncovered.len() as int),
    decreases q.len(),
{
    if i < q.len() - 1 {
        lemma_potential_remove(q.drop_last(), pool, i);
        assert(q.remove(i).drop_last() =~= q.drop_last().remove(i));
        assert(q.remove(i).last() == q.last());
    } else {
        assert(q.remove(i) =~= q.drop_last());
    }
}

proof fn lemma_potential_pool_push(q: Seq<(u128, usize)>, pool: Seq<Node>, node: Node)
    requires
        forall|k: int| 0 <= k < q.len() ==> (#[trigger] q[k]).1 < pool.len(),
    ensures
        potential(q, pool.push(node)) == potential(q, pool),
    decreases q.len(),
{
    if q.len() > 0 {
        lemma_potential_pool_push(q.drop_last(), pool, node);
        assert(q.last() == q[q.len() - 1]);
    }
}

proof fn lemma_potential_nonneg(q: Seq<(u128, usize)>, pool: Seq<Node>)
    ensures
        potential(q, pool) >= 0,
    decreases q.len(),
{
    if q.len() > 0 {
        lemma_potential_nonneg(q.drop_last(), pool);
        lemma_pot_weight_mono(0, pool[q.last().1 as int].uncovered.len() as int);
    }
}

proof fn lemma_potential_push(q: Seq<(u128, usize)>, pool: Seq<Node>, e: (u128, usize))
    ensures
        potential(q.push(e), pool) == potential(q, pool) + pot_weight(pool[e.1 as int].uncovered.len() as int),
{
    assert(q.push(e).drop_last() =~= q);
}

/// After a pop, a cover is still accounted for: by the bound, by a node still queued,
/// or by the node just taken out.
proof fn lemma_keep_witness(
    q0: Seq<(u128, usize)>,
    q1: Seq<(u128, usize)>,
    i0: int,
    pool: Seq<Node>,
    x: Seq<bool>,
    en: Seq<(usize, usize)>,
    w: Seq<u64>,
    n: int,
    b: int,
)
    requires
        0 <= i0 < q0.len(),
        q1 == q0.remove(i0),
        b <= mask_weight(w, x) || exists|k: int| 0 <= k < q0.len() && mask_subset(pool[q0[k].1 as int].chosen@, x),
    ensures
        b <= mask_weight(w, x) || (exists|k: int| 0 <= k < q1.len() && mask_subset(pool[q1[k].1 as int].chosen@, x))
            || mask_subset(pool[q0[i0].1 as int].chosen@, x),
{
    if !(b <= mask_weight(w, x)) {
        let k = choose|k: int| 0 <= k < q0.len() && mask_subset(pool[q0[k].1 as int].chosen@, x);
        if k < i0 {
            assert(q1[k] == q0[k]);
        } else if k > i0 {
            assert(q1[k - 1] == q0[k]);
        }
    }
}

/// A child node (vertex `x` added to the cover) satisfies the node facts.
proof fn lemma_child_ok(
    chosen: Seq<bool>,
    unc: Seq<(usize, usize)>,
    x: int,
    ch: Seq<bool>,
    cunc: Seq<(usize, usize)>,
    fw: int,
    lb: int,
    en: Seq<(usize, usize)>,
    w: Seq<u64>,
    n: int,
)
    requires
        node_ok(0, mask_weight(w, chosen), chosen, unc, en, w, n),
        w.len() == n,
        0 <= x < n,
        edges_in_range(en, n),
        ch == chosen.update(x, true),
        fw == mask_weight(w, ch),
        cunc.len() <= unc.len(),
        forall|i: int| 0 <= i < cunc.len() ==> unc.contains(#[trigger] cunc[i]) && cunc[i].0 != x && cunc[i].1 != x,
        forall|j: int| 0 <= j < unc.len() && #[trigger] unc[j].0 != x && unc[j].1 != x ==> cunc.contains(unc[j]),
        lb == fw + greedy_matching(cunc, w, n, cunc.len() as int).1,
        forall|xm: Seq<bool>|
            xm.len() == n && covers(cunc, xm) ==> lb - fw <= #[trigger] mask_weight(
                w,
                mask_and(xm, greedy_matching(cunc, w, n, cunc.len() as int).0),
            ),
    ensures
        node_ok(lb, fw, ch, cunc, en, w, n),
{
    assert forall|i: int| 0 <= i < cunc.len() implies en.contains(#[trigger] cunc[i]) && !ch[cunc[i].0 as int]
        && !ch[cunc[i].1 as int] by {
        let t = choose|t: int| 0 <= t < unc.len() && unc[t] == cunc[i];
        assert(en.contains(unc[t]));
    }
    assert(edges_in_range(cunc, n)) by {
        assert forall|i: int| 0 <= i < cunc.len() implies #[trigger] cunc[i].0 < n && cunc[i].1 < n by {
            let t = choose|t: int| 0 <= t < unc.len() && unc[t] == cunc[i];
        }
    }
    assert forall|j: int| 0 <= j < en.len() && !ch[#[trigger] en[j].0 as int] && !ch[en[j].1 as int] implies cunc.contains(
        en[j],
    ) by {
        assert(unc.contains(en[j]));
        let t = choose|t: int| 0 <= t < unc.len() && unc[t] == en[j];
        assert(unc[t].0 != x && unc[t].1 != x);
    }
    lemma_lb_valid(lb, fw, ch, cunc, en, w, n);
}

/// Minimum-weight vertex cover on an undirected graph with vertex weights.
#[derive(Debug)]
pub struct WeightedVertexCover {
    vertex_count: usize,
    edges: Vec<(usize, usize)>,
    weight: Vec<u64>,
}

/// An optimal cover and its total weight.
#[derive(Debug, Clone, PartialEq, Eq)]
pub struct VertexCoverSolution {
    /// The cover's vertices, in increasing order.
    pub vertices: Vec<usize>,
    /// The sum of their weights.
    pub total_weight: u128,
}

/// A copy of a list of edges.
fn copy_edges(v: &Vec<(usize, usize)>) -> (r: Vec<(usize, usize)>)
    ensures
        r@ == v@,
{
    let mut r: Vec<(usize, usize)> = Vec::new();
    let mut i: usize = 0;
    while i < v.len()
        invariant
            i <= v.len(),
            r@ == v@.take(i as int),
        decreases v.len() - i,
    {
        r.push(v[i]);
        proof {
            assert(v@.take(i + 1) =~= v@.take(i as int).push(v[i as int]));
        }
        i = i + 1;
    }
    proof {
        assert(v@.take(v.len() as int) =~= v@);
    }
    r
}

/// A copy of a list of weights.
fn copy_weights(v: &Vec<u64>) -> (r: Vec<u64>)
    ensures
        r@ == v@,
{
    let mut r: Vec<u64> = Vec::new();
    let mut i: usize = 0;
    while i < v.len()
        invariant
            i <= v.len(),
            r@ == v@.take(i as int),
        decreases v.len() - i,
    {
        r.push(v[i]);
        proof {
            assert(v@.take(i + 1) =~= v@.take(i as int).push(v[i as int]));
        }
        i = i + 1;
    }
    proof {
        assert(v@.take(v.len() as int) =~= v@);
    }
    r
}

impl Clone for WeightedVertexCover {
    fn clone(&self) -> (r: Self)
        ensures
            r.vertices_n() == self.vertices_n(),
            r.edge_list() == self.edge_list(),
            r.weights() == self.weights(),
    {
        proof {
            use_type_invariant(self);
        }
        WeightedVertexCover {
            vertex_count: self.vertex_count,
            edges: copy_edges(&self.edges),
            weight: copy_weights(&self.weight),
        }
    }
}

impl WeightedVertexCover {
    #[verifier::type_invariant]
    spec fn inv(self) -> bool {
        &&& self.weight.len() == self.vertex_count
        &&& edges_in_range(self.edges@, self.vertex_count as int)
        &&& self.vertex_count <= usize::MAX / 8
        &&& self.edges.len() <= usize::MAX / 4
    }

    pub closed spec fn vertices_n(&self) -> int {
        self.vertex_count as int
    }

    pub closed spec fn edge_list(&self) -> Seq<(usize, usize)> {
        self.edges@
    }

    pub closed spec fn weights(&self) -> Seq<u64> {
        self.weight@
    }

    /// An instance with `vertex_count` vertices, undirected `edges` between them and
    /// one weight per vertex.
    pub fn new(vertex_count: usize, edges: Vec<(usize, usize)>, weight: Vec<u64>) -> (g: Self)
        requires
            weight.len() == vertex_count,
            edges_in_range(edges@, vertex_count as int),
            vertex_count <= usize::MAX / 8,
            edges.len() <= usize::MAX / 4,
        ensures
            g.vertices_n() == vertex_count,
            g.edge_list() == edges@,
            g.weights() == weight@,
    {
        Self { vertex_count, edges, weight }
    }

    /// Best-first branch and bound for a minimum-weight vertex cover.
    ///
    /// Nodes are explored in order of their lower bound: the weight already fixed plus a
    /// greedy maximal matching of the uncovered edges, each matched edge counting its
    /// lighter endpoint. The result is a cover of least total weight, its vertices in
    /// increasing order.
    pub fn min_weight_vertex_cover_branch_bound(&self) -> (sol: VertexCoverSolution)
        ensures
            forall|i: int, j: int| 0 <= i < j < sol.vertices.len() ==> sol.vertices[i] < sol.vertices[j],
            forall|i: int| 0 <= i < sol.vertices.len() ==> #[trigger] sol.vertices[i] < self.vertices_n(),
            covers(self.edge_list(), vertex_mask(sol.vertices@, self.vertices_n())),
            sol.total_weight == mask_weight(self.weights(), vertex_mask(sol.vertices@, self.vertices_n())),
            forall|x: Seq<bool>|
                x.len() == self.vertices_n() && covers(self.edge_list(), x) ==> sol.total_weight
                    <= #[trigger] mask_weight(self.weights(), x),
    {
        proof {
            use_type_invariant(self);
        }
        let n = self.vertex_count;
        let ghost w = self.weight@;
        let ghost ed = self.edges@;
        let edges = normalize_edges(&self.edges);
        let ghost en = edges@;
        proof {
            assert forall|x: Seq<bool>| x.len() == n implies (covers(en, x) <==> covers(ed, x)) by {
                if covers(en, x) {
                    assert forall|i: int| 0 <= i < ed.len() implies x[#[trigger] ed[i].0 as int] || x[ed[i].1 as int] by {
                        assert(x[en[i].0 as int] || x[en[i].1 as int]);
                    }
                }
                if covers(ed, x) {
                    assert forall|i: int| 0 <= i < en.len() implies x[#[trigger] en[i].0 as int] || x[en[i].1 as int] by {
                        assert(x[ed[i].0 as int] || x[ed[i].1 as int]);
                    }
                }
            }
            assert(edges_in_range(en, n as int));
            lemma_mask_weight_bound(w, Seq::new(n as nat, |v: int| true));
            assert(n * (u64::MAX as int) <= (usize::MAX / 8) * (u64::MAX as int)) by (nonlinear_arith)
                requires
                    n <= usize::MAX / 8,
            ;
        }
        if edges.len() == 0 {
            let sol = VertexCoverSolution { vertices: Vec::new(), total_weight: 0 };
            proof {
                assert(vertex_mask(sol.vertices@, n as int) =~= Seq::new(n as nat, |v: int| false));
                lemma_mask_weight_zero(w, vertex_mask(sol.vertices@, n as int));
                assert forall|x: Seq<bool>| x.len() == n && covers(ed, x) implies sol.total_weight
                    <= #[trigger] mask_weight(w, x) by {
                    lemma_mask_weight_nonneg(w, x);
                }
            }
            return sol;
        }
        let ghost all = Seq::new(n as nat, |v: int| true);
        let chosen0: Vec<bool> = vec![false; n];
        let lb0 = lower_bound(0, &edges, n, &self.weight);
        proof {
            lemma_mask_weight_zero(w, chosen0@);
            lemma_lb_valid(lb0 as int, 0, chosen0@, en, en, w, n as int);
            assert forall|j: int| 0 <= j < en.len() && !chosen0@[#[trigger] en[j].0 as int] && !chosen0@[en[j].1 as int]
                implies en.contains(en[j]) by {}
        }
        let mut pool: Vec<Node> = Vec::new();
        pool.push(Node { lb: lb0, fixed_weight: 0, chosen: chosen0, uncovered: edges });
        let mut heap = MinQueue::new();
        heap.push(lb0, 0);
        let mut best_weight: u128 = u128::MAX;
        let mut best_chosen: Vec<bool> = Vec::new();
        proof {
            assert forall|x: Seq<bool>| x.len() == n && covers(en, x) implies best_weight <= #[trigger] mask_weight(
                w,
                x,
            ) || exists|k: int| 0 <= k < heap.entries().len() && mask_subset(pool@[heap.entries()[k].1 as int].chosen@, x) by {
                assert(mask_subset(pool@[heap.entries()[0].1 as int].chosen@, x));
            }
        }
        loop
            invariant
                n == self.vertex_count,
                w == self.weight@,
                w.len() == n,
                n <= usize::MAX / 8,
                edges_in_range(en, n as int),
                en.len() <= usize::MAX / 4,
                all == Seq::new(n as nat, |v: int| true),
                mask_weight(w, all) <= n * (u64::MAX as int),
                n * (u64::MAX as int) <= (usize::MAX / 8) * (u64::MAX as int),
                forall|id: int|
                    0 <= id < pool.len() ==> node_ok(
                        (#[trigger] pool@[id]).lb as int,
                        pool@[id].fixed_weight as int,
                        pool@[id].chosen@,
                        pool@[id].uncovered@,
                        en,
                        w,
                        n as int,
                    ),
                forall|k: int|
                    0 <= k < heap.entries().len() ==> (#[trigger] heap.entries()[k]).1 < pool.len()
                        && heap.entries()[k].0 == pool@[heap.entries()[k].1 as int].lb,
                best_weight < u128::MAX ==> best_chosen.len() == n && covers(en, best_chosen@) && best_weight
                    == mask_weight(w, best_chosen@),
                forall|x: Seq<bool>|
                    x.len() == n && covers(en, x) ==> best_weight <= #[trigger] mask_weight(w, x) || exists|k: int|
                        0 <= k < heap.entries().len() && mask_subset(pool@[heap.entries()[k].1 as int].chosen@, x),
            ensures
                forall|x: Seq<bool>| x.len() == n && covers(en, x) ==> best_weight <= #[trigger] mask_weight(w, x),
                best_weight < u128::MAX ==> best_chosen.len() == n && covers(en, best_chosen@) && best_weight
                    == mask_weight(w, best_chosen@),
            decreases potential(heap.entries(), pool@),
        {
            let ghost q0 = heap.entries();
            let ghost pot0 = potential(q0, pool@);
            let top = heap.pop();
            let idx = match top {
                None => {
                    proof {
                        heap.lemma_entries_view();
                    }
                    break;
                },
                Some((_, idx)) => idx,
            };
            let ghost i0 = choose|i: int| 0 <= i < q0.len() && q0[i] == top->Some_0 && heap.entries() == q0.remove(i);
            let ghost q1 = heap.entries();
            proof {
                lemma_potential_remove(q0, pool@, i0);
                lemma_potential_nonneg(q1, pool@);
                lemma_pot_weight_mono(0, pool@[q0[i0].1 as int].uncovered.len() as int);
                assert forall|k: int| 0 <= k < q1.len() implies (#[trigger] q1[k]).1 < pool.len() && q1[k].0
                    == pool@[q1[k].1 as int].lb by {
                    if k < i0 {
                        assert(q1[k] == q0[k]);
                    } else {
                        assert(q1[k] == q0[k + 1]);
                    }
                }
            }
            let node_lb = pool[idx].lb;
            let ghost pn = pool@[idx as int];
            if node_lb >= best_weight {
                proof {
                    assert forall|x: Seq<bool>| x.len() == n && covers(en, x) implies best_weight <= #[trigger] mask_weight(
                        w,
                        x,
                    ) || exists|k: int| 0 <= k < q1.len() && mask_subset(pool@[q1[k].1 as int].chosen@, x) by {
                        lemma_keep_witness(q0, q1, i0, pool@, x, en, w, n as int, best_weight as int);
                    }
                }
                continue;
            }
            if pool[idx].uncovered.len() == 0 {
                let fw = pool[idx].fixed_weight;
                let ghost old_best = best_weight;
                if fw < best_weight {
                    best_weight = fw;
                    best_chosen = copy_flags(&pool[idx].chosen);
                    proof {
                        assert forall|j: int| 0 <= j < en.len() implies best_chosen@[#[trigger] en[j].0 as int]
                            || best_chosen@[en[j].1 as int] by {
                            if !best_chosen@[en[j].0 as int] && !best_chosen@[en[j].1 as int] {
                                assert(pn.uncovered@.contains(en[j]));
                            }
                        }
                    }
                }
                proof {
                    assert forall|x: Seq<bool>| x.len() == n && covers(en, x) implies best_weight <= #[trigger] mask_weight(
                        w,
                        x,
                    ) || exists|k: int| 0 <= k < q1.len() && mask_subset(pool@[q1[k].1 as int].chosen@, x) by {
                        lemma_keep_witness(q0, q1, i0, pool@, x, en, w, n as int, old_best as int);
                        if mask_subset(pn.chosen@, x) {
                            lemma_mask_weight_mono(w, pn.chosen@, x);
                        }
                    }
                }
                continue;
            }
            let picked = pick_branch_edge(&pool[idx].uncovered, n);
            let (u, v) = match picked {
                None => {
                    proof {
                        assert(pn.uncovered@[0].0 < n && pn.uncovered@[0].1 < n);
                        assert(false);
                    }
                    continue;
                },
                Some(e) => e,
            };
            let ghost ie = choose|i: int|
                0 <= i < pn.uncovered@.len() && #[trigger] pn.uncovered@[i] == (u, v) && u < n && v < n;
            let ghost pot1 = potential(q1, pool@);
            let ghost c_p = pn.uncovered@.len() as int;
            let ghost pool1 = pool@;
            proof {
                assert(pn.uncovered@[ie].0 == u || pn.uncovered@[ie].1 == u);
                assert(!pn.chosen@[u as int] && !pn.chosen@[v as int]);
            }
            // Branch 1: take u
            let (pushed_u, id_u) = self.branch(&mut pool, &mut heap, idx, u, best_weight, Ghost(en), Ghost(ie));
            let ghost pool2 = pool@;
            let ghost q2 = heap.entries();
            // Branch 2: take v
            let (pushed_v, id_v) = self.branch(&mut pool, &mut heap, idx, v, best_weight, Ghost(en), Ghost(ie));
            proof {
                let q3 = heap.entries();
                lemma_pot_weight_mono(0, c_p - 1);
                if pushed_u {
                    lemma_pot_weight_mono(pool2[id_u as int].uncovered@.len() as int, c_p - 1);
                }
                if pushed_v {
                    lemma_pot_weight_mono(pool@[id_v as int].uncovered@.len() as int, c_p - 1);
                }
                assert(potential(heap.entries(), pool@) < pot0);
                assert forall|x: Seq<bool>| x.len() == n && covers(en, x) implies best_weight <= #[trigger] mask_weight(
                    w,
                    x,
                ) || exists|k: int| 0 <= k < q3.len() && mask_subset(pool@[q3[k].1 as int].chosen@, x) by {
                    lemma_keep_witness(q0, q1, i0, pool1, x, en, w, n as int, best_weight as int);
                    if exists|k: int| 0 <= k < q1.len() && mask_subset(pool1[q1[k].1 as int].chosen@, x) {
                        let k = choose|k: int| 0 <= k < q1.len() && mask_subset(pool1[q1[k].1 as int].chosen@, x);
                        assert(q3[k] == q1[k]);
                        assert(pool@[q1[k].1 as int] == pool1[q1[k].1 as int]);
                    } else if !(best_weight <= mask_weight(w, x)) {
                        assert(mask_subset(pn.chosen@, x));
                        assert(x[pn.uncovered@[ie].0 as int] || x[pn.uncovered@[ie].1 as int]) by {
                            let j = choose|j: int| 0 <= j < en.len() && en[j] == pn.uncovered@[ie];
                            assert(x[en[j].0 as int] || x[en[j].1 as int]);
                        }
                        if x[u as int] {
                            assert(mask_subset(pn.chosen@.update(u as int, true), x));
                            assert(pushed_u);
                            assert(q3[q1.len() as int] == q2[q1.len() as int]);
                            assert(mask_subset(pool@[q3[q1.len() as int].1 as int].chosen@, x));
                        } else {
                            assert(mask_subset(pn.chosen@.update(v as int, true), x));
                            assert(pushed_v);
                            assert(mask_subset(pool@[q3[q3.len() - 1].1 as int].chosen@, x));
                        }
                    }
                }
            }
        }
        proof {
            assert(covers(en, all));
            assert(best_weight <= mask_weight(w, all));
        }
        let mut vertices: Vec<usize> = Vec::new();
        let mut i: usize = 0;
        while i < n
            invariant
                n == best_chosen.len(),
                i <= n,
                forall|a: int, b: int| 0 <= a < b < vertices.len() ==> vertices[a] < vertices[b],
                forall|a: int| 0 <= a < vertices.len() ==> #[trigger] vertices[a] < i,
                forall|v: int| 0 <= v < i ==> (best_chosen@[v] <==> vertices@.contains(v as usize)),
            decreases n - i,
        {
            let ghost before = vertices@;
            if i < best_chosen.len() && best_chosen[i] {
                vertices.push(i);
            }
            proof {
                assert forall|v: int| 0 <= v < i + 1 implies (best_chosen@[v] <==> vertices@.contains(v as usize)) by {
                    if v < i {
                        if before.contains(v as usize) {
                            let t = choose|t: int| 0 <= t < before.len() && before[t] == v as usize;
                            assert(vertices@[t] == v as usize);
                        }
                        if vertices@.contains(v as usize) {
                            let t = choose|t: int| 0 <= t < vertices@.len() && vertices@[t] == v as usize;
                            if t < before.len() {
                                assert(before[t] == v as usize);
                            }
                        }
                    } else {
                        if best_chosen@[v] {
                            assert(vertices@[vertices@.len() - 1] == v as usize);
                        }
                        if vertices@.contains(v as usize) {
                            let t = choose|t: int| 0 <= t < vertices@.len() && vertices@[t] == v as usize;
                            if t < before.len() {
                                assert(before[t] < i);
                            }
                        }
                    }
                }
            }
            i = i + 1;
        }
        proof {
            assert(vertex_mask(vertices@, n as int) =~= best_chosen@);
        }
        VertexCoverSolution { total_weight: best_weight, vertices }
    }

    /// Expands the node `idx` by putting vertex `x` into the cover; the child is queued
    /// when its lower bound beats `best_weight`. Returns whether it was queued, and its id.
    fn branch(
        &self,
        pool: &mut Vec<Node>,
        heap: &mut MinQueue,
        idx: usize,
        x: usize,
        best_weight: u128,
        Ghost(en): Ghost<Seq<(usize, usize)>>,
        Ghost(ie): Ghost<int>,
    ) -> (r: (bool, usize))
        requires
            idx < old(pool).len(),
            x < self.vertices_n(),
            self.weights().len() == self.vertices_n(),
            self.vertices_n() <= usize::MAX / 8,
            edges_in_range(en, self.vertices_n()),
            mask_weight(self.weights(), Seq::new(self.vertices_n() as nat, |v: int| true)) <= self.vertices_n() * (
            u64::MAX as int),
            self.vertices_n() * (u64::MAX as int) <= (usize::MAX / 8) * (u64::MAX as int),
            0 <= ie < old(pool)@[idx as int].uncovered@.len(),
            old(pool)@[idx as int].uncovered@[ie].0 == x || old(pool)@[idx as int].uncovered@[ie].1 == x,
            forall|id: int|
                0 <= id < old(pool).len() ==> node_ok(
                    (#[trigger] old(pool)@[id]).lb as int,
                    old(pool)@[id].fixed_weight as int,
                    old(pool)@[id].chosen@,
                    old(pool)@[id].uncovered@,
                    en,
                    self.weights(),
                    self.vertices_n(),
                ),
            forall|k: int|
                0 <= k < old(heap).entries().len() ==> (#[trigger] old(heap).entries()[k]).1 < old(pool).len()
                    && old(heap).entries()[k].0 == old(pool)@[old(heap).entries()[k].1 as int].lb,
        ensures
            final(pool)@.take(old(pool).len() as int) == old(pool)@,
            forall|id: int|
                0 <= id < final(pool).len() ==> node_ok(
                    (#[trigger] final(pool)@[id]).lb as int,
                    final(pool)@[id].fixed_weight as int,
                    final(pool)@[id].chosen@,
                    final(pool)@[id].uncovered@,
                    en,
                    self.weights(),
                    self.vertices_n(),
                ),
            forall|k: int|
                0 <= k < final(heap).entries().len() ==> (#[trigger] final(heap).entries()[k]).1 < final(pool).len()
                    && final(heap).entries()[k].0 == final(pool)@[final(heap).entries()[k].1 as int].lb,
            !r.0 ==> final(pool)@ == old(pool)@ && final(heap).entries() == old(heap).entries(),
            r.0 ==> {
                &&& r.1 == old(pool).len()
                &&& final(pool)@ == old(pool)@.push(final(pool)@[r.1 as int])
                &&& final(heap).entries() == old(heap).entries().push((final(pool)@[r.1 as int].lb, r.1))
                &&& final(pool)@[r.1 as int].chosen@ == old(pool)@[idx as int].chosen@.update(x as int, true)
                &&& final(pool)@[r.1 as int].uncovered@.len() < old(pool)@[idx as int].uncovered@.len()
            },
            potential(final(heap).entries(), final(pool)@) == potential(old(heap).entries(), old(pool)@) + (if r.0 {
                pot_weight(final(pool)@[r.1 as int].uncovered@.len() as int)
            } else {
                0
            }),
            forall|xm: Seq<bool>|
                xm.len() == self.vertices_n() && covers(en, xm) && mask_subset(
                    old(pool)@[idx as int].chosen@.update(x as int, true),
                    xm,
                ) && !r.0 ==> best_weight <= #[trigger] mask_weight(self.weights(), xm),
    {
        let n = self.vertex_count;
        let ghost w = self.weight@;
        let ghost all = Seq::new(n as nat, |v: int| true);
        let ghost pn = pool@[idx as int];
        let unc = edges_avoiding(&pool[idx].uncovered, x);
        let mut ch = copy_flags(&pool[idx].chosen);
        ch.set(x, true);
        proof {
            assert(node_ok(pn.lb as int, pn.fixed_weight as int, pn.chosen@, pn.uncovered@, en, w, n as int));
            assert(!pn.chosen@[x as int]);
            lemma_mask_weight_update(w, pn.chosen@, x as int);
            lemma_mask_weight_mono(w, ch@, all);
            lemma_mask_weight_nonneg(w, ch@);
            lemma_mask_weight_nonneg(w, pn.chosen@);
            assert(mask_weight(w, ch@) + mask_weight(w, all) <= u128::MAX) by (nonlinear_arith)
                requires
                    mask_weight(w, ch@) <= mask_weight(w, all),
                    mask_weight(w, all) <= n * (u64::MAX as int),
                    n * (u64::MAX as int) <= (usize::MAX / 8) * (u64::MAX as int),
            ;
        }
        let fw = pool[idx].fixed_weight + self.weight[x] as u128;
        let lb = lower_bound(fw, &unc, n, &self.weight);
        proof {
            lemma_child_ok(pn.chosen@, pn.uncovered@, x as int, ch@, unc@, fw as int, lb as int, en, w, n as int);
        }
        if lb < best_weight {
            let id = pool.len();
            let ghost pool_before = pool@;
            let ghost q_before = heap.entries();
            let new_node = Node { lb, fixed_weight: fw, chosen: ch, uncovered: unc };
            proof {
                lemma_potential_pool_push(q_before, pool_before, new_node);
            }
            pool.push(new_node);
            heap.push(lb, id);
            proof {
                lemma_potential_push(q_before, pool@, (lb, id));
                assert(pool@.take(pool_before.len() as int) =~= pool_before);
            }
            (true, id)
        } else {
            proof {
                assert(pool@.take(pool@.len() as int) =~= pool@);
            }
            (false, 0)
        }
    }
}

} // verus!
