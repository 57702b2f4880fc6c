use std::collections::VecDeque;
use vstd::prelude::*;
use crate::ds::priority_queue::MinQueue;

verus! {

broadcast use vstd::multiset::group_multiset_axioms;

/// A walk from `s` is a sequence of edge choices: `p[k]` is the position,
/// in the adjacency list of the current vertex, of the edge taken at step `k`.
/// The walk is valid when every chosen edge exists and leads to a vertex of the graph.
pub open spec fn valid_walk(g: Seq<Vec<(usize, usize)>>, s: int, p: Seq<int>) -> bool
    decreases p.len(),
{
    if p.len() == 0 {
        0 <= s < g.len()
    } else {
        let q = p.drop_last();
        let u = walk_end(g, s, q);
        &&& valid_walk(g, s, q)
        &&& 0 <= p.last() < g[u]@.len()
        &&& g[u]@[p.last()].0 < g.len()
    }
}

/// The vertex at which the walk `p` from `s` ends.
pub open spec fn walk_end(g: Seq<Vec<(usize, usize)>>, s: int, p: Seq<int>) -> int
    decreases p.len(),
{
    if p.len() == 0 {
        s
    } else {
        g[walk_end(g, s, p.drop_last())]@[p.last()].0 as int
    }
}

/// The total weight of the walk `p` from `s`.
pub open spec fn walk_weight(g: Seq<Vec<(usize, usize)>>, s: int, p: Seq<int>) -> int
    decreases p.len(),
{
    if p.len() == 0 {
        0
    } else {
        walk_weight(g, s, p.drop_last()) + g[walk_end(g, s, p.drop_last())]@[p.last()].1 as int
    }
}

/// `d` is the shortest distance from `s` to `v`, capped at `u64::MAX`:
/// no walk to `v` is shorter than `d`, and unless `d == u64::MAX` some walk has weight exactly `d`.
pub open spec fn is_capped_distance(g: Seq<Vec<(usize, usize)>>, s: int, v: int, d: u64) -> bool {
    &&& forall|p: Seq<int>|
        valid_walk(g, s, p) && walk_end(g, s, p) == v ==> d <= #[trigger] walk_weight(g, s, p)
    &&& d < u64::MAX ==> exists|p: Seq<int>|
        valid_walk(g, s, p) && walk_end(g, s, p) == v && #[trigger] walk_weight(g, s, p) == d
}

/// The distance array that both shortest-path routines return.
pub open spec fn is_distance_array(g: Seq<Vec<(usize, usize)>>, source: int, dist: Seq<u64>) -> bool {
    &&& dist.len() == g.len()
    &&& source >= g.len() ==> forall|v: int| 0 <= v < dist.len() ==> dist[v] == u64::MAX
    &&& source < g.len() ==> forall|v: int|
        0 <= v < dist.len() ==> is_capped_distance(g, source, v, #[trigger] dist[v])
}

/// The distance array is determined by the graph and the source: [`dijkstra`] and
/// [`spfa`] return the same array on every input.
pub proof fn lemma_distance_array_unique(
    g: Seq<Vec<(usize, usize)>>,
    source: int,
    d1: Seq<u64>,
    d2: Seq<u64>,
)
    requires
        is_distance_array(g, source, d1),
        is_distance_array(g, source, d2),
    ensures
        d1 == d2,
{
    assert forall|v: int| 0 <= v < d1.len() implies d1[v] == d2[v] by {
        if source < g.len() {
            assert(is_capped_distance(g, source, v, d1[v]));
            assert(is_capped_distance(g, source, v, d2[v]));
            if d1[v] < u64::MAX {
                let p = choose|p: Seq<int>|
                    valid_walk(g, source, p) && walk_end(g, source, p) == v && #[trigger] walk_weight(
                        g,
                        source,
                        p,
                    ) == d1[v];
                assert(d2[v] <= walk_weight(g, source, p));
            }
            if d2[v] < u64::MAX {
                let p = choose|p: Seq<int>|
                    valid_walk(g, source, p) && walk_end(g, source, p) == v && #[trigger] walk_weight(
                        g,
                        source,
                        p,
                    ) == d2[v];
                assert(d1[v] <= walk_weight(g, source, p));
            }
        }
    }
    assert(d1 =~= d2);
}

/// Sum of the entries; it shrinks whenever one distance estimate improves.
pub open spec fn seq_sum(s: Seq<u64>) -> int
    decreases s.len(),
{
    if s.len() == 0 {
        0
    } else {
        seq_sum(s.drop_last()) + s.last()
    }
}

proof fn lemma_seq_sum_update(s: Seq<u64>, i: int, x: u64)
    requires
        0 <= i < s.len(),
    ensures
        seq_sum(s.update(i, x)) == seq_sum(s) - s[i] + x,
    decreases s.len(),
{
    if i < s.len() - 1 {
        lemma_seq_sum_update(s.drop_last(), i, x);
        assert(s.update(i, x).drop_last() =~= s.drop_last().update(i, x));
    } else {
        assert(s.update(i, x).drop_last() =~= s.drop_last());
    }
}

proof fn lemma_seq_sum_nonneg(s: Seq<u64>)
    ensures
        seq_sum(s) >= 0,
    decreases s.len(),
{
    if s.len() > 0 {
        lemma_seq_sum_nonneg(s.drop_last());
    }
}

/// Extending a valid walk by an existing edge out of its end.
pub(crate) proof fn lemma_walk_push(g: Seq<Vec<(usize, usize)>>, s: int, p: Seq<int>, i: int)
    requires
        valid_walk(g, s, p),
        0 <= i < g[walk_end(g, s, p)]@.len(),
        g[walk_end(g, s, p)]@[i].0 < g.len(),
    ensures
        valid_walk(g, s, p.push(i)),
        walk_end(g, s, p.push(i)) == g[walk_end(g, s, p)]@[i].0,
        walk_weight(g, s, p.push(i)) == walk_weight(g, s, p) + g[walk_end(g, s, p)]@[i].1,
{
    assert(p.push(i).drop_last() =~= p);
}

pub(crate) proof fn lemma_walk_end_in_range(g: Seq<Vec<(usize, usize)>>, s: int, p: Seq<int>)
    requires
        valid_walk(g, s, p),
    ensures
        0 <= walk_end(g, s, p) < g.len(),
        walk_weight(g, s, p) >= 0,
    decreases p.len(),
{
    if p.len() > 0 {
        lemma_walk_end_in_range(g, s, p.drop_last());
    }
}

/// Every out-edge of `u` is relaxed: its head's estimate is at most `dist[u] + w`.
pub open spec fn relaxed(g: Seq<Vec<(usize, usize)>>, dist: Seq<u64>, u: int) -> bool {
    forall|i: int|
        0 <= i < g[u]@.len() && g[u]@[i].0 < g.len() ==> dist[g[u]@[i].0 as int] as int <= dist[u]
            + #[trigger] g[u]@[i].1
}

/// Lowering other estimates keeps a vertex relaxed.
proof fn lemma_relaxed_mono(g: Seq<Vec<(usize, usize)>>, d_old: Seq<u64>, d_new: Seq<u64>, x: int)
    requires
        d_old.len() == g.len(),
        d_new.len() == g.len(),
        0 <= x < g.len(),
        d_new[x] == d_old[x],
        forall|v: int| 0 <= v < g.len() ==> #[trigger] d_new[v] <= d_old[v],
        relaxed(g, d_old, x),
    ensures
        relaxed(g, d_new, x),
{
    assert forall|i: int| 0 <= i < g[x]@.len() && g[x]@[i].0 < g.len() implies d_new[g[x]@[i].0 as int] as int
        <= d_new[x] + #[trigger] g[x]@[i].1 by {
        assert(d_new[g[x]@[i].0 as int] <= d_old[g[x]@[i].0 as int]);
    }
}

/// Estimates that are finite are the weights of actual walks.
pub open spec fn witnessed(
    g: Seq<Vec<(usize, usize)>>,
    s: int,
    dist: Seq<u64>,
    wit: Seq<Seq<int>>,
) -> bool {
    &&& wit.len() == dist.len()
    &&& forall|v: int|
        0 <= v < dist.len() && #[trigger] dist[v] < u64::MAX ==> {
            &&& valid_walk(g, s, wit[v])
            &&& walk_end(g, s, wit[v]) == v
            &&& walk_weight(g, s, wit[v]) == dist[v]
        }
}

/// When the source has estimate 0 and every vertex with a finite estimate is relaxed,
/// no walk beats the estimate of its end.
proof fn lemma_relaxed_is_lower_bound(g: Seq<Vec<(usize, usize)>>, s: int, dist: Seq<u64>, p: Seq<int>)
    requires
        dist.len() == g.len(),
        0 <= s < g.len(),
        dist[s] == 0,
        forall|u: int| 0 <= u < g.len() && dist[u] < u64::MAX ==> #[trigger] relaxed(g, dist, u),
        valid_walk(g, s, p),
    ensures
        dist[walk_end(g, s, p)] <= walk_weight(g, s, p),
    decreases p.len(),
{
    if p.len() > 0 {
        let q = p.drop_last();
        lemma_relaxed_is_lower_bound(g, s, dist, q);
        lemma_walk_end_in_range(g, s, q);
        let u = walk_end(g, s, q);
        if dist[u] < u64::MAX {
            assert(relaxed(g, dist, u));
            let i = p.last();
            assert(dist[g[u]@[i].0 as int] as int <= dist[u] + g[u]@[i].1);
        } else {
            lemma_walk_end_in_range(g, s, p);
        }
    }
}

proof fn lemma_final_distances(g: Seq<Vec<(usize, usize)>>, s: int, dist: Seq<u64>, wit: Seq<Seq<int>>)
    requires
        dist.len() == g.len(),
        0 <= s < g.len(),
        dist[s] == 0,
        forall|u: int| 0 <= u < g.len() && dist[u] < u64::MAX ==> #[trigger] relaxed(g, dist, u),
        witnessed(g, s, dist, wit),
    ensures
        is_distance_array(g, s, dist),
{
    assert forall|v: int| 0 <= v < dist.len() implies is_capped_distance(g, s, v, #[trigger] dist[v]) by {
        assert forall|p: Seq<int>| valid_walk(g, s, p) && walk_end(g, s, p) == v implies dist[v]
            <= #[trigger] walk_weight(g, s, p) by {
            lemma_relaxed_is_lower_bound(g, s, dist, p);
        }
        if dist[v] < u64::MAX {
            assert(walk_weight(g, s, wit[v]) == dist[v]);
        }
    }
}

/// Single-source shortest paths by Dijkstra's algorithm.
///
/// `graph[u]` lists the edges `(v, w)` out of `u`; edges whose head is out of range
/// are ignored. The result has one entry per vertex: the shortest distance from
/// `source`, or `u64::MAX` for an unreachable vertex (and for every vertex when
/// `source` is out of range).
pub fn dijkstra(graph: &[Vec<(usize, usize)>], source: usize) -> (dist: Vec<u64>)
    ensures
        is_distance_array(graph@, source as int, dist@),
{
    let n = graph.len();
    let mut dist: Vec<u64> = vec![u64::MAX; n];
    if source >= n {
        return dist;
    }
    let ghost g = graph@;
    let ghost mut wit: Seq<Seq<int>> = Seq::new(n as nat, |v: int| Seq::<int>::empty());
    let mut heap = MinQueue::new();
    dist.set(source, 0);
    heap.push(0, source);
    proof {
        lemma_seq_sum_nonneg(dist@);
    }
    loop
        invariant
            n == graph.len() == g.len(),
            g == graph@,
            source < n,
            dist.len() == n,
            dist[source as int] == 0,
            witnessed(g, source as int, dist@, wit),
            forall|e: (u128, usize)| #[trigger] heap@.count(e) > 0 ==> e.0 < u64::MAX,
            forall|u: int|
                0 <= u < n && dist[u] < u64::MAX ==> #[trigger] relaxed(g, dist@, u) || heap@.count(
                    (dist[u] as u128, u as usize),
                ) > 0,
        ensures
            is_distance_array(g, source as int, dist@),
        decreases seq_sum(dist@), heap@.len(),
    {
        let top = heap.pop();
        match top {
            None => {
                proof {
                    vstd::multiset::lemma_multiset_empty_len(heap@);
                    assert forall|x: int| 0 <= x < n && dist[x] < u64::MAX implies #[trigger] relaxed(
                        g,
                        dist@,
                        x,
                    ) by {
                        assert(heap@.count((dist[x] as u128, x as usize)) == 0);
                    }
                    lemma_final_distances(g, source as int, dist@, wit);
                }
                break;
            },
            Some((key, u)) => {
                let ghost popped = (key, u);
                if u >= n || key != dist[u] as u128 {
                    proof {
                        assert forall|x: int|
                            0 <= x < n && dist[x] < u64::MAX && !relaxed(g, dist@, x) implies heap@.count(
                                (dist[x] as u128, x as usize),
                            ) > 0 by {
                            assert((dist[x] as u128, x as usize) != popped);
                        }
                        lemma_seq_sum_nonneg(dist@);
                    }
                    continue;
                }
                let cur_dist = dist[u];
                let ghost d0 = dist@;
                let ghost sum0 = seq_sum(dist@);
                let ghost heap0 = heap@;
                let edges = &graph[u];
                let mut idx: usize = 0;
                while idx < edges.len()
                    invariant
                        n == graph.len() == g.len(),
                        g == graph@,
                        source < n,
                        u < n,
                        edges@ == g[u as int]@,
                        idx <= edges.len(),
                        dist.len() == n,
                        dist[source as int] == 0,
                        dist[u as int] == cur_dist,
                        cur_dist < u64::MAX,
                        witnessed(g, source as int, dist@, wit),
                        forall|e: (u128, usize)| #[trigger] heap@.count(e) > 0 ==> e.0 < u64::MAX,
                        forall|v: int| 0 <= v < n ==> #[trigger] dist[v] <= d0[v],
                        sum0 == seq_sum(d0),
                        d0.len() == n,
                        seq_sum(dist@) < sum0 || (dist@ == d0 && heap@ == heap0),
                        forall|j: int|
                            0 <= j < idx && g[u as int]@[j].0 < n ==> dist[g[u as int]@[j].0 as int] as int
                                <= cur_dist + #[trigger] g[u as int]@[j].1,
                        forall|x: int|
                            0 <= x < n && x != u && dist[x] < u64::MAX ==> #[trigger] relaxed(g, dist@, x)
                                || heap@.count((dist[x] as u128, x as usize)) > 0,
                    decreases edges.len() - idx,
                {
                    let (v, w) = edges[idx];
                    if v < n {
                        match cur_dist.checked_add(w as u64) {
                            None => {},
                            Some(next_dist) => {
                                if next_dist < dist[v] {
                                    let ghost dprev = dist@;
                                    let ghost hprev = heap@;
                                    proof {
                                        lemma_walk_push(g, source as int, wit[u as int], idx as int);
                                        lemma_seq_sum_update(dist@, v as int, next_dist);
                                        wit = wit.update(v as int, wit[u as int].push(idx as int));
                                    }
                                    dist.set(v, next_dist);
                                    heap.push(next_dist as u128, v);
                                    proof {
                                        assert forall|x: int|
                                            0 <= x < n && x != u && dist[x] < u64::MAX implies #[trigger] relaxed(
                                                g,
                                                dist@,
                                                x,
                                            ) || heap@.count((dist[x] as u128, x as usize)) > 0 by {
                                            if x == v {
                                                assert(heap@.count((dist[x] as u128, x as usize)) > 0);
                                            } else if relaxed(g, dprev, x) {
                                                lemma_relaxed_mono(g, dprev, dist@, x);
                                            } else {
                                                assert(hprev.count((dist[x] as u128, x as usize)) > 0);
                                            }
                                        }
                                    }
                                }
                            },
                        }
                    }
                    idx = idx + 1;
                }
                proof {
                    lemma_seq_sum_nonneg(dist@);
                    assert(relaxed(g, dist@, u as int));
                }
            },
        }
    }
    dist
}

/// Single-source shortest paths by the queue-based Bellman-Ford method (SPFA).
///
/// Same conventions as [`dijkstra`]: `graph[u]` lists the edges `(v, w)` out of `u`,
/// out-of-range heads are ignored, and unreachable vertices (or every vertex when
/// `source` is out of range) get `u64::MAX`. Weights are unsigned, so no negative
/// cycle can occur.
pub fn spfa(graph: &[Vec<(usize, usize)>], source: usize) -> (dist: Vec<u64>)
    ensures
        is_distance_array(graph@, source as int, dist@),
{
    let n = graph.len();
    let mut dist: Vec<u64> = vec![u64::MAX; n];
    if source >= n {
        return dist;
    }
    let ghost g = graph@;
    let ghost mut wit: Seq<Seq<int>> = Seq::new(n as nat, |v: int| Seq::<int>::empty());
    let mut queue: VecDeque<usize> = VecDeque::new();
    let mut in_queue: Vec<bool> = vec![false; n];
    dist.set(source, 0);
    queue.push_back(source);
    in_queue.set(source, true);
    proof {
        lemma_seq_sum_nonneg(dist@);
        assert forall|x: int| 0 <= x < n implies (#[trigger] in_queue[x] <==> queue@.contains(
            x as usize,
        )) by {
            if queue@.contains(x as usize) {
                assert(queue@[0] == x as usize);
            }
            if x == source {
                assert(queue@[0] == source);
            }
        }
    }
    loop
        invariant
            n == graph.len() == g.len(),
            g == graph@,
            source < n,
            dist.len() == n,
            in_queue.len() == n,
            dist[source as int] == 0,
            witnessed(g, source as int, dist@, wit),
            queue@.no_duplicates(),
            forall|k: int| 0 <= k < queue@.len() ==> #[trigger] queue@[k] < n,
            forall|x: int| 0 <= x < n ==> (#[trigger] in_queue[x] <==> queue@.contains(x as usize)),
            forall|x: int| 0 <= x < n && dist[x] < u64::MAX ==> #[trigger] relaxed(g, dist@, x) || in_queue[x],
        ensures
            is_distance_array(g, source as int, dist@),
        decreases seq_sum(dist@), queue@.len(),
    {
        let ghost q_before = queue@;
        let front = queue.pop_front();
        match front {
            None => {
                proof {
                    assert forall|x: int| 0 <= x < n && dist[x] < u64::MAX implies #[trigger] relaxed(
                        g,
                        dist@,
                        x,
                    ) by {
                        assert(!queue@.contains(x as usize));
                    }
                    lemma_final_distances(g, source as int, dist@, wit);
                }
                break;
            },
            Some(u) => {
                proof {
                    assert forall|x: int| 0 <= x < n && x != u implies (#[trigger] in_queue[x]
                        <==> queue@.contains(x as usize)) by {
                        if in_queue[x] {
                            let k = choose|k: int| 0 <= k < q_before.len() && q_before[k] == x as usize;
                            assert(k != 0);
                            assert(queue@[k - 1] == x as usize);
                        }
                        if queue@.contains(x as usize) {
                            let k = choose|k: int| 0 <= k < queue@.len() && queue@[k] == x as usize;
                            assert(q_before[k + 1] == x as usize);
                        }
                    }
                    assert(!queue@.contains(u)) by {
                        if queue@.contains(u) {
                            let k = choose|k: int| 0 <= k < queue@.len() && queue@[k] == u;
                            assert(q_before[k + 1] == u);
                            assert(q_before[0] == u);
                        }
                    }
                }
                in_queue.set(u, false);
                let base = dist[u];
                if base == u64::MAX {
                    proof {
                        lemma_seq_sum_nonneg(dist@);
                    }
                    continue;
                }
                let ghost d0 = dist@;
                let ghost sum0 = seq_sum(dist@);
                let ghost q0 = queue@;
                let edges = &graph[u];
                let mut idx: usize = 0;
                while idx < edges.len()
                    invariant
                        n == graph.len() == g.len(),
                        g == graph@,
                        source < n,
                        u < n,
                        edges@ == g[u as int]@,
                        idx <= edges.len(),
                        dist.len() == n,
                        in_queue.len() == n,
                        dist[source as int] == 0,
                        dist[u as int] == base,
                        base < u64::MAX,
                        witnessed(g, source as int, dist@, wit),
                        queue@.no_duplicates(),
                        forall|k: int| 0 <= k < queue@.len() ==> #[trigger] queue@[k] < n,
                        forall|x: int| 0 <= x < n ==> (#[trigger] in_queue[x] <==> queue@.contains(x as usize)),
                        forall|v: int| 0 <= v < n ==> #[trigger] dist[v] <= d0[v],
                        sum0 == seq_sum(d0),
                        d0.len() == n,
                        seq_sum(dist@) < sum0 || (dist@ == d0 && queue@ == q0),
                        forall|j: int|
                            0 <= j < idx && g[u as int]@[j].0 < n ==> dist[g[u as int]@[j].0 as int] as int
                                <= base + #[trigger] g[u as int]@[j].1,
                        forall|x: int|
                            0 <= x < n && x != u && dist[x] < u64::MAX ==> #[trigger] relaxed(g, dist@, x)
                                || in_queue[x],
                    decreases edges.len() - idx,
                {
                    let (v, w) = edges[idx];
                    if v < n {
                        match base.checked_add(w as u64) {
                            None => {},
                            Some(next_dist) => {
                                if next_dist < dist[v] {
                                    let ghost dprev = dist@;
                                    let ghost qprev = queue@;
                                    let ghost iprev = in_queue@;
                                    proof {
                                        lemma_walk_push(g, source as int, wit[u as int], idx as int);
                                        lemma_seq_sum_update(dist@, v as int, next_dist);
                                        wit = wit.update(v as int, wit[u as int].push(idx as int));
                                    }
                                    dist.set(v, next_dist);
                                    if !in_queue[v] {
                                        queue.push_back(v);
                                        in_queue.set(v, true);
                                        proof {
                                            assert forall|x: int| 0 <= x < n implies (#[trigger] in_queue[x]
                                                <==> queue@.contains(x as usize)) by {
                                                if x != v {
                                                    if queue@.contains(x as usize) {
                                                        let k = choose|k: int| 0 <= k < queue@.len() && queue@[k] == x as usize;
                                                        assert(qprev[k] == x as usize);
                                                    }
                                                    if qprev.contains(x as usize) {
                                                        let k = choose|k: int| 0 <= k < qprev.len() && qprev[k] == x as usize;
                                                        assert(queue@[k] == x as usize);
                                                    }
                                                } else {
                                                    assert(queue@[queue@.len() - 1] == v);
                                                }
                                            }
                                        }
                                    }
                                    proof {
                                        assert forall|x: int|
                                            0 <= x < n && x != u && dist[x] < u64::MAX implies #[trigger] relaxed(
                                                g,
                                                dist@,
                                                x,
                                            ) || in_queue[x] by {
                                            if x == v {
                                            } else if relaxed(g, dprev, x) {
                                                lemma_relaxed_mono(g, dprev, dist@, x);
                                            } else {
                                                assert(iprev[x]);
                                            }
                                        }
                                    }
                                }
                            },
                        }
                    }
                    idx = idx + 1;
                }
                proof {
                    lemma_seq_sum_nonneg(dist@);
                    assert(relaxed(g, dist@, u as int));
                }
            },
        }
    }
    dist
}

} // verus!
