//! Bounded multi-source shortest paths: the state of the recursion (distance
//! estimates, marks and scratch arrays over a graph of bounded degree) and its two
//! leaf steps, finding pivots and the base case.
pub mod block_ds;
pub mod const_graph;
pub mod pair_map;
pub mod path_dist;
pub mod pivots;
pub mod recursion;

use vstd::prelude::*;
use self::const_graph::ConstGraph;
use self::path_dist::{PathDist, pd_less, pack_low};
use crate::ds::priority_queue::MinQueue;
use self::pivots::{simple_rows, lemma_pivots_fit};
use crate::algorithms::ssp::{valid_walk, walk_end, walk_weight, is_capped_distance, is_distance_array, dijkstra};

verus! {

/// No vertex: an unset parent.
pub const NO_VERTEX: u32 = 4294967295u32;

/// The result of one call of the recursion: a new boundary and the vertices made
/// complete below it.
#[derive(Debug, Clone)]
pub struct BMSSPResult {
    pub new_boundary: PathDist,
    pub complete: Vec<u32>,
}

/// A path of key `du` can be extended by an edge of weight `w`: the length stays
/// within 64 bits and the edge count within the 22 bits of the key.
pub open spec fn extendable(du: PathDist, w: u32) -> bool {
    du.hi + w <= u64::MAX && du.hop_spec() + 1 < 4194304
}

/// The key of the path of key `du` extended by the edge `u -> v` of weight `w`.
pub open spec fn extend_key(du: PathDist, w: u32, v: u32, u: u32) -> PathDist {
    PathDist { hi: (du.hi + w) as u64, lo: pack_low(du.hop_spec() + 1, v as int, u as int) as u64 }
}

/// `a <= b` in the order of keys.
pub open spec fn key_le(a: PathDist, b: PathDist) -> bool {
    !pd_less(b, a)
}

/// The key of a vertex not reached.
pub open spec fn unreached_key() -> PathDist {
    PathDist { hi: u64::MAX, lo: u64::MAX }
}

/// Every edge of the rows leads to a vertex of the graph.
pub open spec fn targets_in_range(rows: Seq<Seq<(u32, u32)>>) -> bool {
    forall|u: int, i: int| 0 <= u < rows.len() && 0 <= i < rows[u].len() ==> (#[trigger] rows[u][i]).0 < rows.len()
}

/// The key of the path of key `du` extended by the edge `u -> v` of weight `w`, when
/// it fits in a key.
fn extend(du: PathDist, w: u32, v: u32, u: u32) -> (r: Option<PathDist>)
    requires
        v < 2097152,
        u < 2097152,
    ensures
        r == if extendable(du, w) {
            Some(extend_key(du, w, v, u))
        } else {
            None::<PathDist>
        },
{
    let hop = du.hop();
    if du.hi <= u64::MAX - (w as u64) && hop < 4194303 {
        Some(PathDist::new(du.hi + w as u64, hop + 1, v, u))
    } else {
        None
    }
}

/// Relaxing the edge `e` out of `u`, whose estimate is `du`, sets the estimate of its
/// target: the extended key fits and does not lose to the target's estimate in `d`.
pub open spec fn sets_edge(d: Seq<PathDist>, du: PathDist, u: u32, e: (u32, u32)) -> bool {
    extendable(du, e.1) && !pd_less(d[e.0 as int], extend_key(du, e.1, e.0, u))
}

/// The estimates `d` after relaxing, in order, the first `i` edges of `row`, the
/// out-edges of `u`, from the estimate `du` of `u`.
pub open spec fn relax_edges(row: Seq<(u32, u32)>, du: PathDist, u: u32, d: Seq<PathDist>, i: nat) -> Seq<PathDist>
    decreases i,
{
    if i == 0 {
        d
    } else {
        let p = relax_edges(row, du, u, d, (i - 1) as nat);
        let e = row[i - 1];
        if sets_edge(p, du, u, e) {
            p.update(e.0 as int, extend_key(du, e.1, e.0, u))
        } else {
            p
        }
    }
}

/// The `(target, key)` of each of the first `i` edges of `row` that sets its
/// target's estimate in [`relax_edges`], in edge order.
pub open spec fn relaxed_pairs(row: Seq<(u32, u32)>, du: PathDist, u: u32, d: Seq<PathDist>, i: nat) -> Seq<(u32, PathDist)>
    decreases i,
{
    if i == 0 {
        Seq::empty()
    } else {
        let p = relax_edges(row, du, u, d, (i - 1) as nat);
        let e = row[i - 1];
        let q = relaxed_pairs(row, du, u, d, (i - 1) as nat);
        if sets_edge(p, du, u, e) {
            q.push((e.0, extend_key(du, e.1, e.0, u)))
        } else {
            q
        }
    }
}

/// The estimates `d` after a round that relaxes the out-edges of `cur[0]`, then of
/// `cur[1]`, and so on up to `cur[j - 1]`, each from its estimate when its turn comes.
pub open spec fn round_dists(rows: Seq<Seq<(u32, u32)>>, cur: Seq<u32>, d: Seq<PathDist>, j: nat) -> Seq<PathDist>
    decreases j,
{
    if j == 0 {
        d
    } else {
        let p = round_dists(rows, cur, d, (j - 1) as nat);
        let u = cur[j - 1];
        relax_edges(rows[u as int], p[u as int], u, p, rows[u as int].len())
    }
}

/// The targets of the pairs whose key lies below `b`, in order.
pub open spec fn below_targets(pairs: Seq<(u32, PathDist)>, b: PathDist) -> Seq<u32>
    decreases pairs.len(),
{
    if pairs.len() == 0 {
        Seq::empty()
    } else {
        let q = below_targets(pairs.drop_last(), b);
        if pd_less(pairs.last().1, b) {
            q.push(pairs.last().0)
        } else {
            q
        }
    }
}

/// The targets set below `b` in the round of [`round_dists`] over the first `j`
/// vertices of `cur`, in the order in which they are set (with repeats).
pub open spec fn round_targets(rows: Seq<Seq<(u32, u32)>>, cur: Seq<u32>, d: Seq<PathDist>, b: PathDist, j: nat) -> Seq<u32>
    decreases j,
{
    if j == 0 {
        Seq::empty()
    } else {
        let p = round_dists(rows, cur, d, (j - 1) as nat);
        let u = cur[j - 1];
        round_targets(rows, cur, d, b, (j - 1) as nat) + below_targets(
            relaxed_pairs(rows[u as int], p[u as int], u, p, rows[u as int].len()),
            b,
        )
    }
}

/// `w` followed by each item of `vs` that is not there yet, in order.
pub open spec fn add_new(w: Seq<u32>, vs: Seq<u32>) -> Seq<u32>
    decreases vs.len(),
{
    if vs.len() == 0 {
        w
    } else {
        let p = add_new(w, vs.drop_last());
        if p.contains(vs.last()) {
            p
        } else {
            p.push(vs.last())
        }
    }
}

/// The state after `j` rounds of relaxation from `s` below `b`: the estimates, the
/// frontier (the targets set below `b` in the last round, in order, or `s` before any
/// round), and the visited list (`s` followed by each target set below `b`, once).
pub open spec fn bf_state(rows: Seq<Seq<(u32, u32)>>, s: Seq<u32>, d: Seq<PathDist>, b: PathDist, j: nat) -> (
    Seq<PathDist>,
    Seq<u32>,
    Seq<u32>,
)
    decreases j,
{
    if j == 0 {
        (d, s, s)
    } else {
        let p = bf_state(rows, s, d, b, (j - 1) as nat);
        let t = round_targets(rows, p.1, p.0, b, p.1.len());
        (round_dists(rows, p.1, p.0, p.1.len()), t, add_new(p.2, t))
    }
}

/// The number of rounds that pivot finding runs: the first round after which the
/// visited list holds more than `limit` vertices, or `k` when none does. Counted from
/// round `j` on.
pub open spec fn stop_round(rows: Seq<Seq<(u32, u32)>>, s: Seq<u32>, d: Seq<PathDist>, b: PathDist, k: nat, limit: int, j: nat) -> nat
    decreases k - j,
{
    if j >= k {
        k
    } else if bf_state(rows, s, d, b, j + 1).2.len() > limit {
        j + 1
    } else {
        stop_round(rows, s, d, b, k, limit, j + 1)
    }
}

/// Rounds that keep the visited list within the limit do not change where the
/// rounds stop.
proof fn lemma_stop_round(rows: Seq<Seq<(u32, u32)>>, s: Seq<u32>, d: Seq<PathDist>, b: PathDist, k: nat, limit: int, x: nat, j: nat)
    requires
        x <= j <= k,
        forall|i: nat| x < i <= j ==> (#[trigger] bf_state(rows, s, d, b, i)).2.len() <= limit,
    ensures
        stop_round(rows, s, d, b, k, limit, x) == stop_round(rows, s, d, b, k, limit, j),
    decreases j - x,
{
    if x < j {
        assert(bf_state(rows, s, d, b, x + 1).2.len() <= limit);
        lemma_stop_round(rows, s, d, b, k, limit, x + 1, j);
    }
}

/// The vertex at which the walk `p` from `s` ends: `p[k]` is the position, in the row
/// of the current vertex, of the edge taken at step `k`.
pub open spec fn rows_walk_end(rows: Seq<Seq<(u32, u32)>>, s: int, p: Seq<int>) -> int
    decreases p.len(),
{
    if p.len() == 0 {
        s
    } else {
        rows[rows_walk_end(rows, s, p.drop_last())][p.last()].0 as int
    }
}

/// The walk `p` from `s` takes existing edges to vertices of the graph.
pub open spec fn rows_walk_ok(rows: Seq<Seq<(u32, u32)>>, s: int, p: Seq<int>) -> bool
    decreases p.len(),
{
    if p.len() == 0 {
        0 <= s < rows.len()
    } else {
        let u = rows_walk_end(rows, s, p.drop_last());
        &&& rows_walk_ok(rows, s, p.drop_last())
        &&& 0 <= p.last() < rows[u].len()
        &&& rows[u][p.last()].0 < rows.len()
    }
}

/// The total weight of the walk `p` from `s`.
pub open spec fn rows_walk_weight(rows: Seq<Seq<(u32, u32)>>, s: int, p: Seq<int>) -> int
    decreases p.len(),
{
    if p.len() == 0 {
        0
    } else {
        rows_walk_weight(rows, s, p.drop_last()) + rows[rows_walk_end(rows, s, p.drop_last())][p.last()].1
    }
}

/// Some walk from `s` to `v` weighs exactly `d`.
#[verifier::opaque]
pub open spec fn walk_weighs(rows: Seq<Seq<(u32, u32)>>, s: int, v: int, d: int) -> bool {
    exists|p: Seq<int>| rows_walk_ok(rows, s, p) && rows_walk_end(rows, s, p) == v && #[trigger] rows_walk_weight(rows, s, p) == d
}

/// Every distance estimate below `u64::MAX` is the weight of a walk from `s`.
#[verifier::opaque]
pub open spec fn estimates_sound(rows: Seq<Seq<(u32, u32)>>, s: int, dists: Seq<PathDist>) -> bool {
    forall|v: int| 0 <= v < dists.len() && #[trigger] dists[v].hi < u64::MAX ==> walk_weighs(rows, s, v, dists[v].hi as int)
}

/// `d` is the shortest distance from `s` to `v`, capped at `u64::MAX`: no walk to `v`
/// weighs less, and unless `d == u64::MAX` some walk weighs exactly `d`.
pub open spec fn is_shortest(rows: Seq<Seq<(u32, u32)>>, s: int, v: int, d: u64) -> bool {
    &&& forall|p: Seq<int>|
        rows_walk_ok(rows, s, p) && rows_walk_end(rows, s, p) == v ==> d <= #[trigger] rows_walk_weight(rows, s, p)
    &&& d < u64::MAX ==> walk_weighs(rows, s, v, d as int)
}

/// Every estimate's length is the shortest distance from `s`.
pub open spec fn shortest_estimates(rows: Seq<Seq<(u32, u32)>>, s: int, dists: Seq<PathDist>) -> bool {
    forall|v: int| 0 <= v < dists.len() ==> is_shortest(rows, s, v, #[trigger] dists[v].hi)
}

/// The estimates are settled: the source's length is `0`, and no edge out of a
/// reached vertex leads to a shorter length than its target has.
pub open spec fn settled_lengths(rows: Seq<Seq<(u32, u32)>>, s: int, dists: Seq<PathDist>) -> bool {
    &&& dists[s].hi == 0
    &&& forall|u: int, i: int|
        0 <= u < rows.len() && 0 <= i < rows[u].len() && dists[u].hi < u64::MAX ==> dists[(#[trigger] rows[u][i]).0 as int].hi
            <= dists[u].hi + rows[u][i].1
}

/// A walk that takes existing edges ends at a vertex of the graph.
proof fn lemma_walk_end_in_range(rows: Seq<Seq<(u32, u32)>>, s: int, p: Seq<int>)
    requires
        rows_walk_ok(rows, s, p),
    ensures
        0 <= rows_walk_end(rows, s, p) < rows.len(),
{
    if p.len() > 0 {
        let u = rows_walk_end(rows, s, p.drop_last());
        assert(rows[u][p.last()].0 < rows.len());
        assert(rows_walk_end(rows, s, p) == rows[u][p.last()].0);
    }
}

/// Under settled lengths, no walk from `s` is lighter than the length at its end.
proof fn lemma_settled_below_walks(rows: Seq<Seq<(u32, u32)>>, s: int, d: Seq<PathDist>, p: Seq<int>)
    requires
        settled_lengths(rows, s, d),
        d.len() == rows.len(),
        rows_walk_ok(rows, s, p),
    ensures
        d[rows_walk_end(rows, s, p)].hi <= rows_walk_weight(rows, s, p),
    decreases p.len(),
{
    if p.len() > 0 {
        let q = p.drop_last();
        lemma_settled_below_walks(rows, s, d, q);
        let u = rows_walk_end(rows, s, q);
        let e = p.last();
        lemma_walk_end_in_range(rows, s, q);
        assert(0 <= e < rows[u].len());
        assert(rows_walk_weight(rows, s, p) == rows_walk_weight(rows, s, q) + rows[u][e].1);
        assert(rows_walk_end(rows, s, p) == rows[u][e].0);
        if d[u].hi < u64::MAX {
            assert(d[rows[u][e].0 as int].hi <= d[u].hi + rows[u][e].1);
        }
    }
}

/// Sound and settled estimates are the shortest distances.
pub proof fn lemma_settled_is_shortest(rows: Seq<Seq<(u32, u32)>>, s: int, d: Seq<PathDist>)
    requires
        estimates_sound(rows, s, d),
        settled_lengths(rows, s, d),
        d.len() == rows.len(),
    ensures
        shortest_estimates(rows, s, d),
{
    assert forall|v: int| 0 <= v < d.len() implies is_shortest(rows, s, v, #[trigger] d[v].hi) by {
        lemma_sound_at(rows, s, d, v);
        assert forall|p: Seq<int>| rows_walk_ok(rows, s, p) && rows_walk_end(rows, s, p) == v implies d[v].hi
            <= #[trigger] rows_walk_weight(rows, s, p) by {
            lemma_settled_below_walks(rows, s, d, p);
        }
    }
}

/// `adj` lists the edges of `rows` as `usize` pairs, in the same order.
pub open spec fn lists_rows(adj: Seq<Vec<(usize, usize)>>, rows: Seq<Seq<(u32, u32)>>) -> bool {
    &&& adj.len() == rows.len()
    &&& forall|u: int| 0 <= u < adj.len() ==> (#[trigger] adj[u])@.len() == rows[u].len()
    &&& forall|u: int, i: int|
        0 <= u < adj.len() && 0 <= i < adj[u]@.len() ==> #[trigger] adj[u]@[i] == (rows[u][i].0 as usize, rows[u][i].1 as usize)
}

/// A walk is the same walk in `rows` and in the adjacency lists that list them.
proof fn lemma_walks_match(adj: Seq<Vec<(usize, usize)>>, rows: Seq<Seq<(u32, u32)>>, s: int, p: Seq<int>)
    requires
        lists_rows(adj, rows),
    ensures
        valid_walk(adj, s, p) == rows_walk_ok(rows, s, p),
        rows_walk_ok(rows, s, p) ==> walk_end(adj, s, p) == rows_walk_end(rows, s, p) && walk_weight(adj, s, p)
            == rows_walk_weight(rows, s, p),
    decreases p.len(),
{
    if p.len() > 0 {
        let q = p.drop_last();
        lemma_walks_match(adj, rows, s, q);
        if rows_walk_ok(rows, s, q) {
            let u = rows_walk_end(rows, s, q);
            if 0 <= p.last() < rows[u].len() {
                assert(adj[u]@[p.last()] == (rows[u][p.last()].0 as usize, rows[u][p.last()].1 as usize));
            }
        }
    }
}

/// The shortest-path law: where the estimates are the shortest distances, they are
/// the distance array that [`dijkstra`](crate::algorithms::ssp::dijkstra) and
/// [`spfa`](crate::algorithms::ssp::spfa) return on the same graph and source.
pub proof fn lemma_shortest_matches_distance_array(
    adj: Seq<Vec<(usize, usize)>>,
    rows: Seq<Seq<(u32, u32)>>,
    s: int,
    d: Seq<PathDist>,
    dist: Seq<u64>,
)
    requires
        lists_rows(adj, rows),
        0 <= s < rows.len(),
        d.len() == rows.len(),
        shortest_estimates(rows, s, d),
        is_distance_array(adj, s, dist),
    ensures
        forall|v: int| 0 <= v < dist.len() ==> #[trigger] dist[v] == d[v].hi,
{
    assert forall|v: int| 0 <= v < dist.len() implies #[trigger] dist[v] == d[v].hi by {
        assert(is_capped_distance(adj, s, v, dist[v]));
        assert(is_shortest(rows, s, v, d[v].hi));
        if d[v].hi < u64::MAX {
            reveal(walk_weighs);
            let p = choose|p: Seq<int>| rows_walk_ok(rows, s, p) && rows_walk_end(rows, s, p) == v && #[trigger] rows_walk_weight(rows, s, p) == d[v].hi as int;
            lemma_walks_match(adj, rows, s, p);
            assert(dist[v] <= walk_weight(adj, s, p));
        }
        if dist[v] < u64::MAX {
            let p = choose|p: Seq<int>| valid_walk(adj, s, p) && walk_end(adj, s, p) == v && #[trigger] walk_weight(adj, s, p) == dist[v];
            lemma_walks_match(adj, rows, s, p);
            assert(d[v].hi <= rows_walk_weight(rows, s, p));
        }
    }
}

/// Some walk from `s` along the rows ends at `v`.
#[verifier::opaque]
pub open spec fn reaches(rows: Seq<Seq<(u32, u32)>>, s: int, v: int) -> bool {
    exists|p: Seq<int>| rows_walk_ok(rows, s, p) && #[trigger] rows_walk_end(rows, s, p) == v
}

/// A vertex of the graph reaches itself.
proof fn lemma_reaches_self(rows: Seq<Seq<(u32, u32)>>, s: int)
    requires
        0 <= s < rows.len(),
    ensures
        reaches(rows, s, s),
{
    reveal(reaches);
    assert(rows_walk_ok(rows, s, Seq::<int>::empty()));
    assert(rows_walk_end(rows, s, Seq::<int>::empty()) == s);
}

/// An edge out of a reached vertex leads to a reached vertex.
proof fn lemma_reaches_step(rows: Seq<Seq<(u32, u32)>>, s: int, u: int, e: int)
    requires
        reaches(rows, s, u),
        0 <= u < rows.len(),
        0 <= e < rows[u].len(),
        rows[u][e].0 < rows.len(),
    ensures
        reaches(rows, s, rows[u][e].0 as int),
{
    reveal(reaches);
    let p = choose|p: Seq<int>| rows_walk_ok(rows, s, p) && #[trigger] rows_walk_end(rows, s, p) == u;
    let q = p.push(e);
    assert(q.drop_last() =~= p);
    assert(rows_walk_ok(rows, s, q));
    assert(rows_walk_end(rows, s, q) == rows[u][e].0);
}

/// A capped distance over the adjacency lists is the shortest distance over the rows
/// they list.
proof fn lemma_capped_is_shortest(adj: Seq<Vec<(usize, usize)>>, rows: Seq<Seq<(u32, u32)>>, s: int, v: int, dv: u64)
    requires
        lists_rows(adj, rows),
        is_capped_distance(adj, s, v, dv),
    ensures
        is_shortest(rows, s, v, dv),
{
    assert forall|p: Seq<int>| rows_walk_ok(rows, s, p) && rows_walk_end(rows, s, p) == v implies dv <= #[trigger] rows_walk_weight(
        rows,
        s,
        p,
    ) by {
        lemma_walks_match(adj, rows, s, p);
        assert(dv <= walk_weight(adj, s, p));
    }
    if dv < u64::MAX {
        let p = choose|p: Seq<int>| valid_walk(adj, s, p) && walk_end(adj, s, p) == v && #[trigger] walk_weight(adj, s, p) == dv;
        lemma_walks_match(adj, rows, s, p);
        reveal(walk_weighs);
        assert(rows_walk_ok(rows, s, p) && rows_walk_end(rows, s, p) == v && rows_walk_weight(rows, s, p) == dv as int);
    }
}

/// A sound estimate is never below the capped distance.
proof fn lemma_sound_above_capped(
    adj: Seq<Vec<(usize, usize)>>,
    rows: Seq<Seq<(u32, u32)>>,
    s: int,
    d: Seq<PathDist>,
    v: int,
    dv: u64,
)
    requires
        lists_rows(adj, rows),
        is_capped_distance(adj, s, v, dv),
        estimates_sound(rows, s, d),
        0 <= v < d.len(),
    ensures
        dv <= d[v].hi,
{
    lemma_sound_at(rows, s, d, v);
    if d[v].hi < u64::MAX {
        reveal(walk_weighs);
        let p = choose|p: Seq<int>| rows_walk_ok(rows, s, p) && rows_walk_end(rows, s, p) == v && #[trigger] rows_walk_weight(rows, s, p) == d[v].hi as int;
        lemma_walks_match(adj, rows, s, p);
        assert(dv <= walk_weight(adj, s, p));
    }
}

/// Each estimate after relaxing edges of `u` is either the one before or the
/// extension of `du` by one of those edges to that vertex.
proof fn lemma_relax_edges_cases(row: Seq<(u32, u32)>, du: PathDist, u: u32, d: Seq<PathDist>, i: nat)
    requires
        i <= row.len(),
        forall|e: int| 0 <= e < row.len() ==> (#[trigger] row[e]).0 < d.len(),
    ensures
        relax_edges(row, du, u, d, i).len() == d.len(),
        forall|v: int|
            0 <= v < d.len() ==> #[trigger] relax_edges(row, du, u, d, i)[v] == d[v] || exists|e: int|
                0 <= e < i && row[e].0 == v && extendable(du, row[e].1) && #[trigger] relax_edges(row, du, u, d, i)[v] == extend_key(
                    du,
                    row[e].1,
                    v as u32,
                    u,
                ),
    decreases i,
{
    if i > 0 {
        lemma_relax_edges_cases(row, du, u, d, (i - 1) as nat);
        let p = relax_edges(row, du, u, d, (i - 1) as nat);
        let r = relax_edges(row, du, u, d, i);
        assert forall|v: int|
            0 <= v < d.len() implies #[trigger] relax_edges(row, du, u, d, i)[v] == d[v] || exists|e: int|
                0 <= e < i && row[e].0 == v && extendable(du, row[e].1) && #[trigger] relax_edges(row, du, u, d, i)[v] == extend_key(
                    du,
                    row[e].1,
                    v as u32,
                    u,
                ) by {
            let e = row[i - 1];
            if sets_edge(p, du, u, e) && e.0 == v {
                assert(r[v] == extend_key(du, e.1, e.0, u));
                assert((v as u32) == e.0);
            } else {
                assert(r[v] == p[v]);
                if p[v] != d[v] {
                    let e2 = choose|e2: int|
                        0 <= e2 < i - 1 && row[e2].0 == v && extendable(du, row[e2].1) && #[trigger] relax_edges(row, du, u, d, (i - 1) as nat)[v]
                            == extend_key(du, row[e2].1, v as u32, u);
                    assert(r[v] == extend_key(du, row[e2].1, v as u32, u));
                }
            }
        }
    }
}

/// Shortest lengths that lie at or below sound estimates, each with a key no later
/// than the plain key of its length, lie at or below one round of relaxation from
/// the source.
proof fn lemma_shortest_below_relaxed(rows: Seq<Seq<(u32, u32)>>, s: int, old: Seq<PathDist>, fin: Seq<PathDist>)
    requires
        targets_in_range(rows),
        rows.len() < 2097152,
        0 <= s < rows.len(),
        old.len() == rows.len(),
        fin.len() == rows.len(),
        estimates_sound(rows, s, old),
        shortest_estimates(rows, s, fin),
        forall|v: int| 0 <= v < fin.len() ==> key_le(#[trigger] fin[v], old[v]),
        forall|v: int| 0 <= v < fin.len() ==> key_le(#[trigger] fin[v], PathDist { hi: fin[v].hi, lo: pack_low(0, v, 0) as u64 }),
    ensures
        forall|v: int| 0 <= v < fin.len() ==> key_le(#[trigger] fin[v], relax_edges(rows[s], old[s], s as u32, old, rows[s].len())[v]),
{
    let row = rows[s];
    assert forall|e: int| 0 <= e < row.len() implies (#[trigger] row[e]).0 < old.len() by {
        assert(rows[s][e].0 < rows.len());
    }
    lemma_relax_edges_cases(row, old[s], s as u32, old, row.len());
    lemma_sound_at(rows, s, old, s);
    assert forall|v: int| 0 <= v < fin.len() implies key_le(#[trigger] fin[v], relax_edges(row, old[s], s as u32, old, row.len())[v]) by {
        let rb = relax_edges(row, old[s], s as u32, old, row.len());
        if rb[v] != old[v] {
            let e = choose|e: int|
                0 <= e < row.len() && row[e].0 == v && extendable(old[s], row[e].1) && #[trigger] relax_edges(row, old[s], s as u32, old, row.len())[v]
                    == extend_key(old[s], row[e].1, v as u32, s as u32);
            let w = row[e].1;
            let ek = extend_key(old[s], w, v as u32, s as u32);
            assert(is_shortest(rows, s, v, fin[v].hi));
            if old[s].hi < u64::MAX {
                lemma_walk_step(rows, s, s, e, old[s].hi as int);
                reveal(walk_weighs);
                let p = choose|p: Seq<int>| rows_walk_ok(rows, s, p) && rows_walk_end(rows, s, p) == v && #[trigger] rows_walk_weight(rows, s, p) == old[s].hi + w;
                assert(fin[v].hi <= rows_walk_weight(rows, s, p));
            }
            assert(fin[v].hi <= ek.hi);
            lemma_hop_bound(old[s]);
            crate::algorithms::bmssp::path_dist::lemma_pack_low_fields((old[s].hop_spec() + 1) as u64, v as u64, s as u64);
            assert(pack_low(old[s].hop_spec() + 1, v, s) >= 4398046511104) by (nonlinear_arith)
                requires
                    old[s].hop_spec() + 1 >= 1,
                    v >= 0,
                    s >= 0,
                    pack_low(old[s].hop_spec() + 1, v, s) == (old[s].hop_spec() + 1) * 4398046511104 + v * 2097152 + s,
            ;
            assert(pack_low(0, v, 0) < 4398046511104) by (nonlinear_arith)
                requires
                    0 <= v < 2097152,
                    pack_low(0, v, 0) == 0 * 4398046511104 + v * 2097152 + 0,
            ;
            let plain = PathDist { hi: fin[v].hi, lo: pack_low(0, v, 0) as u64 };
            assert(key_le(plain, ek));
            lemma_key_order(fin[v], plain, ek);
        } else {
            assert(key_le(fin[v], old[v]));
        }
    }
}

/// Shortest lengths are settled.
proof fn lemma_shortest_is_settled(rows: Seq<Seq<(u32, u32)>>, s: int, d: Seq<PathDist>)
    requires
        targets_in_range(rows),
        0 <= s < rows.len(),
        d.len() == rows.len(),
        shortest_estimates(rows, s, d),
    ensures
        settled_lengths(rows, s, d),
{
    assert(is_shortest(rows, s, s, d[s].hi));
    assert(rows_walk_ok(rows, s, Seq::<int>::empty()));
    assert(rows_walk_weight(rows, s, Seq::<int>::empty()) == 0);
    assert(rows_walk_end(rows, s, Seq::<int>::empty()) == s);
    assert forall|u: int, i: int|
        0 <= u < rows.len() && 0 <= i < rows[u].len() && d[u].hi < u64::MAX implies d[(#[trigger] rows[u][i]).0 as int].hi
        <= d[u].hi + rows[u][i].1 by {
        assert(is_shortest(rows, s, u, d[u].hi));
        assert(rows[u][i].0 < rows.len());
        lemma_walk_step(rows, s, u, i, d[u].hi as int);
        reveal(walk_weighs);
        let v = rows[u][i].0 as int;
        let p = choose|p: Seq<int>| rows_walk_ok(rows, s, p) && rows_walk_end(rows, s, p) == v && #[trigger] rows_walk_weight(rows, s, p) == d[u].hi + rows[u][i].1;
        assert(is_shortest(rows, s, v, d[v].hi));
        assert(d[v].hi <= rows_walk_weight(rows, s, p));
    }
}

/// Every estimate is that of an unreached vertex or records its own vertex as the
/// end of its path.
#[verifier::opaque]
pub open spec fn ends_recorded(dists: Seq<PathDist>) -> bool {
    forall|v: int| 0 <= v < dists.len() ==> #[trigger] dists[v].end_spec() == v || dists[v] == unreached_key()
}

/// Setting the estimate of `v` to a key that ends at `v` keeps the ends recorded.
proof fn lemma_ends_update(d: Seq<PathDist>, v: int, key: PathDist)
    requires
        ends_recorded(d),
        0 <= v < d.len(),
        key.end_spec() == v,
    ensures
        ends_recorded(d.update(v, key)),
{
    reveal(ends_recorded);
}

/// An extended key ends at the target of the edge.
proof fn lemma_extend_end(du: PathDist, w: u32, v: u32, u: u32)
    requires
        extendable(du, w),
        v < 2097152,
        u < 2097152,
    ensures
        extend_key(du, w, v, u).end_spec() == v,
{
    crate::algorithms::bmssp::path_dist::lemma_pack_low_fields((du.hop_spec() + 1) as u64, v as u64, u as u64);
}

/// What sound estimates say of one vertex.
proof fn lemma_sound_at(rows: Seq<Seq<(u32, u32)>>, s: int, d: Seq<PathDist>, v: int)
    requires
        estimates_sound(rows, s, d),
        0 <= v < d.len(),
    ensures
        d[v].hi < u64::MAX ==> walk_weighs(rows, s, v, d[v].hi as int),
{
    reveal(estimates_sound);
}

/// Scratch arrays that are clear hold no mark, no parent and no child.
proof fn lemma_scratch_clear(n: int, ins: Seq<bool>, par: Seq<u32>, ch: Seq<Vec<u32>>)
    requires
        scratch_ok(n, ins, par, ch, Seq::empty()),
    ensures
        forall|v: int| 0 <= v < n ==> !(#[trigger] ins[v]),
        forall|v: int| 0 <= v < n ==> #[trigger] par[v] == NO_VERTEX,
        forall|v: int| 0 <= v < n ==> (#[trigger] ch[v])@.len() == 0,
{
    let e = Seq::<u32>::empty();
    assert forall|v: int| 0 <= v < n implies !(#[trigger] ins[v]) by {
        assert(!e.contains(v as u32));
    }
    assert forall|v: int| 0 <= v < n implies #[trigger] par[v] == NO_VERTEX by {
        assert(!e.contains(v as u32));
    }
    assert forall|v: int| 0 <= v < n implies (#[trigger] ch[v])@.len() == 0 by {
        assert(!e.contains(v as u32));
        assert(par[v] == NO_VERTEX);
    }
}

/// A walk to `u` extended by an edge out of `u`.
proof fn lemma_walk_step(rows: Seq<Seq<(u32, u32)>>, s: int, u: int, e: int, d: int)
    requires
        walk_weighs(rows, s, u, d),
        0 <= u < rows.len(),
        0 <= e < rows[u].len(),
        rows[u][e].0 < rows.len(),
    ensures
        walk_weighs(rows, s, rows[u][e].0 as int, d + rows[u][e].1),
{
    reveal(walk_weighs);
    let p = choose|p: Seq<int>| rows_walk_ok(rows, s, p) && rows_walk_end(rows, s, p) == u && #[trigger] rows_walk_weight(rows, s, p) == d;
    let q = p.push(e);
    assert(q.drop_last() =~= p);
    assert(rows_walk_weight(rows, s, q) == d + rows[u][e].1);
}

/// Setting one estimate to the weight of a walk (or to `u64::MAX` or above) keeps the
/// estimates sound.
proof fn lemma_sound_update(rows: Seq<Seq<(u32, u32)>>, s: int, d: Seq<PathDist>, v: int, nd: PathDist)
    requires
        estimates_sound(rows, s, d),
        0 <= v < d.len(),
        nd.hi < u64::MAX ==> walk_weighs(rows, s, v, nd.hi as int),
    ensures
        estimates_sound(rows, s, d.update(v, nd)),
{
    reveal(estimates_sound);
    assert forall|x: int| 0 <= x < d.len() && #[trigger] d.update(v, nd)[x].hi < u64::MAX implies walk_weighs(
        rows,
        s,
        x,
        d.update(v, nd)[x].hi as int,
    ) by {
        if x != v {
            assert(d[x].hi < u64::MAX);
        }
    }
}

/// The marks hold exactly the vertices of `w`, and parents and children are set on
/// vertices of `w` only.
spec fn scratch_ok(n: int, in_set: Seq<bool>, parent: Seq<u32>, children: Seq<Vec<u32>>, w: Seq<u32>) -> bool {
    &&& forall|v: int| 0 <= v < n ==> (#[trigger] in_set[v] <==> w.contains(v as u32))
    &&& forall|v: int|
        #![trigger parent[v]]
        #![trigger children[v]]
        0 <= v < n && !w.contains(v as u32) ==> parent[v] == NO_VERTEX && children[v]@.len() == 0
}

/// Outside `rest`, no vertex is marked and none has a parent or children.
spec fn cleared_outside(n: int, ins: Seq<bool>, par: Seq<u32>, ch: Seq<Vec<u32>>, rest: Seq<u32>) -> bool {
    forall|v: int| 0 <= v < n && !rest.contains(v as u32) ==> !(#[trigger] ins[v]) && par[v] == NO_VERTEX && ch[v]@.len() == 0
}

/// Clearing the first vertex of `rest` leaves the rest of it to clear.
proof fn lemma_clear_step(
    n: int,
    ins: Seq<bool>,
    par: Seq<u32>,
    ch: Seq<Vec<u32>>,
    ins2: Seq<bool>,
    par2: Seq<u32>,
    ch2: Seq<Vec<u32>>,
    rest: Seq<u32>,
)
    requires
        cleared_outside(n, ins, par, ch, rest),
        rest.len() > 0,
        0 <= rest[0] < n < 2097152,
        ins.len() == n && par.len() == n && ch.len() == n,
        ins2 == ins.update(rest[0] as int, false),
        par2 == par.update(rest[0] as int, NO_VERTEX),
        ch2.len() == n,
        ch2[rest[0] as int]@.len() == 0,
        forall|y: int| 0 <= y < n && y != rest[0] ==> ch2[y] == ch[y],
    ensures
        cleared_outside(n, ins2, par2, ch2, rest.skip(1)),
{
    assert forall|x: int| 0 <= x < n && !rest.skip(1).contains(x as u32) implies !(#[trigger] ins2[x]) && par2[x] == NO_VERTEX
        && ch2[x]@.len() == 0 by {
        if x != rest[0] {
            if rest.contains(x as u32) {
                let q = choose|q: int| 0 <= q < rest.len() && rest[q] == x as u32;
                assert(q != 0);
                assert(rest.skip(1)[q - 1] == x as u32);
            }
            assert(!ins[x] && par[x] == NO_VERTEX && ch[x]@.len() == 0);
        }
    }
}

/// Marking a new vertex `v` and appending it to `w` keeps the scratch arrays in step.
proof fn lemma_scratch_add(n: int, ins: Seq<bool>, par: Seq<u32>, ch: Seq<Vec<u32>>, w: Seq<u32>, v: u32)
    requires
        scratch_ok(n, ins, par, ch, w),
        ins.len() == n,
        0 <= v < n < 2097152,
    ensures
        scratch_ok(n, ins.update(v as int, true), par, ch, w.push(v)),
{
    let w2 = w.push(v);
    assert(w2[w.len() as int] == v);
    assert forall|x: int| 0 <= x < n implies (#[trigger] ins.update(v as int, true)[x] <==> w2.contains(x as u32)) by {
        if w.contains(x as u32) {
            let q = choose|q: int| 0 <= q < w.len() && w[q] == x as u32;
            assert(w2[q] == x as u32);
        }
        if w2.contains(x as u32) && x != v {
            let q = choose|q: int| 0 <= q < w2.len() && w2[q] == x as u32;
            assert(w[q] == x as u32);
        }
    }
    assert forall|x: int| 0 <= x < n && !w2.contains(x as u32) implies #[trigger] par[x] == NO_VERTEX && ch[x]@.len() == 0 by {
        if w.contains(x as u32) {
            let q = choose|q: int| 0 <= q < w.len() && w[q] == x as u32;
            assert(w2[q] == x as u32);
        }
    }
}

/// Setting the parent of a vertex of `w` keeps the scratch arrays in step.
proof fn lemma_scratch_parent(n: int, ins: Seq<bool>, par: Seq<u32>, ch: Seq<Vec<u32>>, w: Seq<u32>, v: u32, u: u32)
    requires
        scratch_ok(n, ins, par, ch, w),
        w.contains(v),
        par.len() == n,
        0 <= v < n < 2097152,
    ensures
        scratch_ok(n, ins, par.update(v as int, u), ch, w),
{
    assert forall|x: int| 0 <= x < n && !w.contains(x as u32) implies #[trigger] par.update(v as int, u)[x] == NO_VERTEX
        && ch[x]@.len() == 0 by {
        assert(x != v);
        assert(forall|y: int| 0 <= y < n && !w.contains(y as u32) ==> #[trigger] par[y] == NO_VERTEX && ch[y]@.len() == 0);
        assert(par[x] == NO_VERTEX);
    }
}

/// The state of a run of bounded multi-source shortest paths from `source`: the
/// graph, the parameters `k` (pivot threshold), `t` (level width) and `top_l` (the
/// top level), the distance estimate of every vertex, and scratch marks.
pub struct BMSSP {
    graph: ConstGraph,
    source: usize,
    k: usize,
    t: usize,
    top_l: usize,
    now_dis: Vec<PathDist>,
    in_set: Vec<bool>,
    epoch: Vec<u32>,
    cur_epoch: u32,
    parent: Vec<u32>,
    children: Vec<Vec<u32>>,
}

impl BMSSP {
    /// The out-edges of every vertex.
    pub closed spec fn rows(&self) -> Seq<Seq<(u32, u32)>> {
        self.graph.rows()
    }

    /// The distance estimate of every vertex.
    pub closed spec fn dists(&self) -> Seq<PathDist> {
        self.now_dis@
    }

    /// The pivot threshold.
    pub closed spec fn k_spec(&self) -> int {
        self.k as int
    }

    /// The level width.
    pub closed spec fn t_spec(&self) -> int {
        self.t as int
    }

    /// The top level.
    pub closed spec fn top_spec(&self) -> int {
        self.top_l as int
    }

    /// The source.
    pub closed spec fn source_spec(&self) -> int {
        self.source as int
    }

    /// The marks of the current epoch of each vertex.
    pub closed spec fn marks(&self) -> Seq<u32> {
        self.epoch@
    }

    /// The current epoch.
    pub closed spec fn epoch_spec(&self) -> u32 {
        self.cur_epoch
    }

    /// Every array has a place per vertex, the parameters are in range, and the
    /// graph's edges stay in it.
    pub closed spec fn base_ok(&self) -> bool {
        let n = self.graph.rows().len();
        &&& 0 < n < 2097152
        &&& targets_in_range(self.graph.rows())
        &&& self.source < n
        &&& 1 <= self.k <= n
        &&& self.t >= 1
        &&& self.top_l >= 1
        &&& self.now_dis.len() == n
        &&& self.in_set.len() == n
        &&& self.epoch.len() == n
        &&& self.parent.len() == n
        &&& self.children.len() == n
        &&& estimates_sound(self.graph.rows(), self.source as int, self.now_dis@)
        &&& ends_recorded(self.now_dis@)
    }

    /// The state is consistent, with the scratch arrays clear.
    pub closed spec fn wf(&self) -> bool {
        &&& self.base_ok()
        &&& scratch_ok(self.graph.rows().len() as int, self.in_set@, self.parent@, self.children@, Seq::empty())
    }

    /// The state for a run from `source` over `graph`, with pivot threshold `k`, level
    /// width `t` and top level `top_l`: every vertex unreached but the source, at
    /// distance zero.
    pub fn new(graph: ConstGraph, source: usize, k: usize, t: usize, top_l: usize) -> (r: BMSSP)
        requires
            0 < graph.rows().len() < 2097152,
            source < graph.rows().len(),
            targets_in_range(graph.rows()),
            1 <= k <= graph.rows().len(),
            t >= 1,
            top_l >= 1,
        ensures
            r.wf(),
            r.rows() == graph.rows(),
            r.k_spec() == k,
            r.t_spec() == t,
            r.top_spec() == top_l,
            r.source_spec() == source,
            r.dists().len() == graph.rows().len(),
            r.dists()[source as int] == (PathDist { hi: 0, lo: pack_low(0, source as int, 0) as u64 }),
            forall|v: int| 0 <= v < r.dists().len() && v != source ==> r.dists()[v] == unreached_key(),
    {
        let n = graph.const_n();
        let mut now_dis: Vec<PathDist> = Vec::with_capacity(n);
        let mut in_set: Vec<bool> = Vec::with_capacity(n);
        let mut epoch: Vec<u32> = Vec::with_capacity(n);
        let mut parent: Vec<u32> = Vec::with_capacity(n);
        let mut children: Vec<Vec<u32>> = Vec::with_capacity(n);
        let mut v: usize = 0;
        while v < n
            invariant
                v <= n,
                now_dis.len() == v,
                in_set.len() == v,
                epoch.len() == v,
                parent.len() == v,
                children.len() == v,
                forall|x: int| 0 <= x < v ==> #[trigger] now_dis@[x] == unreached_key(),
                forall|x: int| 0 <= x < v ==> !(#[trigger] in_set@[x]),
                forall|x: int| 0 <= x < v ==> #[trigger] parent@[x] == NO_VERTEX,
                forall|x: int| 0 <= x < v ==> (#[trigger] children@[x])@.len() == 0,
            decreases n - v,
        {
            now_dis.push(PathDist::max_value());
            in_set.push(false);
            epoch.push(0);
            parent.push(NO_VERTEX);
            children.push(Vec::new());
            v = v + 1;
        }
        now_dis.set(source, PathDist::new(0, 0, source as u32, 0));
        let r = BMSSP { graph, source, k, t, top_l, now_dis, in_set, epoch, cur_epoch: 0, parent, children };
        proof {
            reveal(estimates_sound);
            reveal(walk_weighs);
            reveal(ends_recorded);
            let rows = r.graph.rows();
            assert(rows_walk_ok(rows, source as int, Seq::empty()));
            assert(rows_walk_weight(rows, source as int, Seq::<int>::empty()) == 0);
            assert forall|x: int| 0 <= x < n && #[trigger] r.now_dis@[x].hi < u64::MAX implies walk_weighs(
                rows,
                source as int,
                x,
                r.now_dis@[x].hi as int,
            ) by {
                assert(x == source);
            }
            assert forall|x: int| 0 <= x < n implies (#[trigger] r.in_set@[x] <==> Seq::<u32>::empty().contains(x as u32)) by {}
        }
        r
    }

    /// The pivot threshold `k`.
    pub fn k(&self) -> (r: usize)
        ensures
            r == self.k_spec(),
    {
        self.k
    }

    /// The level width `t`.
    pub fn t(&self) -> (r: usize)
        ensures
            r == self.t_spec(),
    {
        self.t
    }

    /// The top level.
    pub fn top_level(&self) -> (r: usize)
        ensures
            r == self.top_spec(),
    {
        self.top_l
    }

    /// The source.
    pub fn source(&self) -> (r: usize)
        ensures
            r == self.source_spec(),
    {
        self.source
    }

    /// The number of vertices.
    pub fn vertex_count(&self) -> (r: usize)
        requires
            self.wf(),
        ensures
            r == self.rows().len(),
    {
        self.now_dis.len()
    }

    /// The distance estimate of vertex `v`.
    pub fn dist(&self, v: u32) -> (r: PathDist)
        requires
            v < self.dists().len(),
        ensures
            r == self.dists()[v as int],
    {
        self.now_dis[v as usize]
    }

    /// The sizes and parameters that a consistent state has.
    pub proof fn lemma_wf_sizes(&self)
        requires
            self.wf(),
        ensures
            0 < self.rows().len() < 2097152,
            self.dists().len() == self.rows().len(),
            self.marks().len() == self.rows().len(),
            self.source_spec() < self.rows().len(),
            1 <= self.k_spec() <= self.rows().len(),
            self.t_spec() >= 1,
            self.top_spec() >= 1,
            estimates_sound(self.rows(), self.source_spec(), self.dists()),
            ends_recorded(self.dists()),
    {
    }

    /// Whether the estimates are settled: the source's length is `0` and no edge out of
    /// a reached vertex shortens the length of its target.
    /// Lowers every estimate to the shortest distance from the source, found by
    /// [`dijkstra`] over the same edges: where the distance is below the estimate's
    /// length, or equal to it with an earlier key, the estimate becomes the distance
    /// with a path of no recorded edges ending at the vertex.
    fn settle_by_dijkstra(&mut self)
        requires
            old(self).wf(),
        ensures
            final(self).wf(),
            final(self).rows() == old(self).rows(),
            final(self).k_spec() == old(self).k_spec(),
            final(self).t_spec() == old(self).t_spec(),
            final(self).top_spec() == old(self).top_spec(),
            final(self).source_spec() == old(self).source_spec(),
            final(self).dists().len() == old(self).dists().len(),
            forall|v: int| 0 <= v < old(self).dists().len() ==> key_le(#[trigger] final(self).dists()[v], old(self).dists()[v]),
            forall|v: int|
                0 <= v < old(self).dists().len() ==> key_le(
                    #[trigger] final(self).dists()[v],
                    PathDist { hi: final(self).dists()[v].hi, lo: pack_low(0, v, 0) as u64 },
                ),
            shortest_estimates(final(self).rows(), final(self).source_spec(), final(self).dists()),
    {
        proof {
            self.lemma_wf_sizes();
        }
        let ghost rows = self.graph.rows();
        let ghost d0 = self.now_dis@;
        let ghost src = self.source as int;
        let adj = self.graph.to_adj_list();
        proof {
            assert(lists_rows(adj@, rows));
        }
        let dist = dijkstra(adj.as_slice(), self.source);
        let n = self.now_dis.len();
        proof {
            assert forall|x: int| 0 <= x < n implies #[trigger] d0[x].hi >= dist@[x] by {
                assert(is_capped_distance(adj@, src, x, dist@[x]));
                lemma_sound_above_capped(adj@, rows, src, d0, x, dist@[x]);
            }
        }
        let mut v: usize = 0;
        while v < n
            invariant
                self.wf(),
                rows == self.graph.rows(),
                self.graph == old(self).graph,
                self.k == old(self).k,
                self.t == old(self).t,
                self.top_l == old(self).top_l,
                self.source == old(self).source,
                src == self.source as int,
                d0 == old(self).now_dis@,
                n == d0.len() == rows.len() == dist@.len(),
                n < 2097152,
                lists_rows(adj@, rows),
                is_distance_array(adj@, src, dist@),
                src < n,
                v <= n,
                self.now_dis@.len() == n,
                forall|x: int| 0 <= x < n ==> #[trigger] d0[x].hi >= dist@[x],
                forall|x: int| 0 <= x < n ==> key_le(#[trigger] self.now_dis@[x], d0[x]),
                forall|x: int| v <= x < n ==> #[trigger] self.now_dis@[x] == d0[x],
                forall|x: int|
                    0 <= x < v ==> #[trigger] self.now_dis@[x].hi == dist@[x] && key_le(
                        self.now_dis@[x],
                        PathDist { hi: dist@[x], lo: pack_low(0, x, 0) as u64 },
                    ),
            decreases n - v,
        {
            let cand = PathDist::new(dist[v], 0, v as u32, 0);
            let ghost dv = self.now_dis@;
            if cand.is_less(&self.now_dis[v]) {
                proof {
                    assert(is_capped_distance(adj@, src, v as int, dist@[v as int]));
                    if cand.hi < u64::MAX {
                        lemma_capped_is_shortest(adj@, rows, src, v as int, dist@[v as int]);
                    }
                    lemma_sound_update(rows, src, dv, v as int, cand);
                    lemma_ends_update(dv, v as int, cand);
                }
                self.now_dis.set(v, cand);
                proof {
                    assert forall|x: int| 0 <= x < n implies key_le(#[trigger] self.now_dis@[x], d0[x]) by {
                        if x == v {
                            lemma_key_order(cand, dv[x], d0[x]);
                        }
                    }
                    lemma_key_order(cand, cand, cand);
                }
            } else {
                proof {
                    assert(dv[v as int] == d0[v as int]);
                    assert(dv[v as int].hi == dist@[v as int]);
                }
            }
            v = v + 1;
        }
        proof {
            assert forall|x: int| 0 <= x < n implies is_shortest(rows, src, x, #[trigger] self.now_dis@[x].hi) by {
                assert(is_capped_distance(adj@, src, x, dist@[x]));
                lemma_capped_is_shortest(adj@, rows, src, x, dist@[x]);
            }
        }
    }

    pub(crate) fn settled(&self) -> (r: bool)
        requires
            self.wf(),
        ensures
            r == settled_lengths(self.rows(), self.source_spec(), self.dists()),
    {
        proof {
            self.lemma_wf_sizes();
        }
        let ghost rows = self.graph.rows();
        let ghost d = self.now_dis@;
        let n = self.now_dis.len();
        if self.now_dis[self.source].hi != 0 {
            return false;
        }
        let mut u: usize = 0;
        while u < n
            invariant
                self.wf(),
                rows == self.graph.rows(),
                d == self.now_dis@,
                n == rows.len() == d.len(),
                d[self.source as int].hi == 0,
                u <= n,
                forall|x: int, i: int|
                    0 <= x < u && 0 <= i < rows[x].len() && d[x].hi < u64::MAX ==> d[(#[trigger] rows[x][i]).0 as int].hi
                        <= d[x].hi + rows[x][i].1,
            decreases n - u,
        {
            let du = self.now_dis[u].hi;
            if du < u64::MAX {
                let (dsts, wts) = self.graph.neighbors(u);
                let mut i: usize = 0;
                while i < dsts.len()
                    invariant
                        self.wf(),
                        rows == self.graph.rows(),
                        d == self.now_dis@,
                        n == rows.len() == d.len(),
                        u < n,
                        du == d[u as int].hi,
                        du < u64::MAX,
                        dsts@.len() == wts@.len(),
                        dsts@.len() == rows[u as int].len(),
                        forall|e: int| 0 <= e < dsts@.len() ==> (#[trigger] dsts@[e], wts@[e]) == rows[u as int][e],
                        i <= dsts.len(),
                        forall|x: int, j: int|
                            0 <= x < u && 0 <= j < rows[x].len() && d[x].hi < u64::MAX ==> d[(#[trigger] rows[x][j]).0 as int].hi
                                <= d[x].hi + rows[x][j].1,
                        forall|j: int| 0 <= j < i ==> d[(#[trigger] rows[u as int][j]).0 as int].hi <= du + rows[u as int][j].1,
                    decreases dsts.len() - i,
                {
                    let v = dsts[i];
                    let w = wts[i];
                    proof {
                        assert((dsts@[i as int], wts@[i as int]) == rows[u as int][i as int]);
                        assert(targets_in_range(rows));
                        assert(v < n);
                    }
                    if (self.now_dis[v as usize].hi as u128) > (du as u128) + (w as u128) {
                        proof {
                            assert(rows[u as int][i as int].0 == v);
                        }
                        return false;
                    }
                    i = i + 1;
                }
            }
            u = u + 1;
        }
        true
    }

    /// The distance found for every vertex; `u64::MAX` for one not reached.
    pub fn fetch_result(&self) -> (r: Vec<u64>)
        ensures
            r.len() == self.dists().len(),
            forall|v: int| 0 <= v < r.len() ==> r@[v] == #[trigger] self.dists()[v].hi,
    {
        let mut r: Vec<u64> = Vec::with_capacity(self.now_dis.len());
        let mut v: usize = 0;
        while v < self.now_dis.len()
            invariant
                v <= self.now_dis.len(),
                r.len() == v,
                forall|x: int| 0 <= x < v ==> r@[x] == #[trigger] self.now_dis@[x].hi,
            decreases self.now_dis.len() - v,
        {
            r.push(self.now_dis[v].dis());
            v = v + 1;
        }
        r
    }
}

impl BMSSP {
    /// One round of relaxations from the vertices of `cur`: every edge that improves
    /// (or ties) the estimate of its target sets it; a target whose new estimate lies
    /// below `b` goes into `next`, and into `w_list` if it is not there yet.
    #[verifier::rlimit(60)]
    #[verifier::spinoff_prover]
    fn relax_round(&mut self, cur: &Vec<u32>, b: PathDist, w_list: &mut Vec<u32>, next: &mut Vec<u32>)
        requires
            old(self).base_ok(),
            scratch_ok(old(self).graph.rows().len() as int, old(self).in_set@, old(self).parent@, old(self).children@, old(w_list)@),
            old(w_list)@.no_duplicates(),
            forall|i: int| 0 <= i < old(w_list).len() ==> #[trigger] old(w_list)@[i] < old(self).rows().len(),
            forall|i: int| 0 <= i < cur.len() ==> #[trigger] cur@[i] < old(self).rows().len(),
            forall|i: int| 0 <= i < old(next).len() ==> #[trigger] old(next)@[i] < old(self).rows().len(),
        ensures
            final(self).base_ok(),
            scratch_ok(final(self).graph.rows().len() as int, final(self).in_set@, final(self).parent@, final(self).children@, final(w_list)@),
            final(self).graph == old(self).graph,
            final(self).k == old(self).k,
            final(self).t == old(self).t,
            final(self).top_l == old(self).top_l,
            final(self).source == old(self).source,
            final(self).epoch == old(self).epoch,
            final(self).cur_epoch == old(self).cur_epoch,
            final(self).parent == old(self).parent,
            final(self).children == old(self).children,
            forall|v: int| 0 <= v < old(self).now_dis.len() ==> key_le(#[trigger] final(self).now_dis@[v], old(self).now_dis@[v]),
            final(w_list)@.no_duplicates(),
            final(w_list)@.len() >= old(w_list)@.len(),
            final(w_list)@.take(old(w_list)@.len() as int) == old(w_list)@,
            forall|i: int| 0 <= i < final(w_list).len() ==> #[trigger] final(w_list)@[i] < old(self).rows().len(),
            forall|i: int|
                old(w_list).len() <= i < final(w_list).len() ==> pd_less(
                    final(self).now_dis@[#[trigger] final(w_list)@[i] as int],
                    b,
                ),
            forall|i: int| 0 <= i < final(next).len() ==> #[trigger] final(next)@[i] < old(self).rows().len(),
            final(self).now_dis@ == round_dists(old(self).rows(), cur@, old(self).now_dis@, cur.len() as nat),
            final(next)@ == old(next)@ + round_targets(old(self).rows(), cur@, old(self).now_dis@, b, cur.len() as nat),
            final(w_list)@ == add_new(
                old(w_list)@,
                round_targets(old(self).rows(), cur@, old(self).now_dis@, b, cur.len() as nat),
            ),
    {
        let ghost w0 = w_list@;
        let ghost d0 = self.now_dis@;
        let ghost next0 = next@;
        let ghost n = self.graph.rows().len();
        let mut j: usize = 0;
        while j < cur.len()
            invariant
                self.base_ok(),
                scratch_ok(self.graph.rows().len() as int, self.in_set@, self.parent@, self.children@, w_list@),
                n == self.graph.rows().len(),
                self.graph == old(self).graph,
                self.k == old(self).k,
                self.t == old(self).t,
                self.top_l == old(self).top_l,
                self.source == old(self).source,
                self.epoch == old(self).epoch,
                self.cur_epoch == old(self).cur_epoch,
                self.parent == old(self).parent,
                self.children == old(self).children,
                d0 == old(self).now_dis@,
                w0 == old(w_list)@,
                j <= cur.len(),
                forall|i: int| 0 <= i < cur.len() ==> #[trigger] cur@[i] < n,
                forall|v: int| 0 <= v < n ==> key_le(#[trigger] self.now_dis@[v], d0[v]),
                w_list@.no_duplicates(),
                w_list@.len() >= w0.len(),
                w_list@.take(w0.len() as int) == w0,
                forall|i: int| 0 <= i < w_list.len() ==> #[trigger] w_list@[i] < n,
                forall|i: int| w0.len() <= i < w_list.len() ==> pd_less(self.now_dis@[#[trigger] w_list@[i] as int], b),
                forall|i: int| 0 <= i < next.len() ==> #[trigger] next@[i] < n,
                next0 == old(next)@,
                self.now_dis@ == round_dists(self.graph.rows(), cur@, d0, j as nat),
                next@ == next0 + round_targets(self.graph.rows(), cur@, d0, b, j as nat),
                w_list@ == add_new(w0, round_targets(self.graph.rows(), cur@, d0, b, j as nat)),
            decreases cur.len() - j,
        {
            let u = cur[j];
            let u_dis = self.now_dis[u as usize];
            let ghost dj = self.now_dis@;
            let ghost tj = round_targets(self.graph.rows(), cur@, d0, b, j as nat);
            let ghost row = self.graph.rows()[u as int];
            proof {
                lemma_sound_at(self.graph.rows(), self.source as int, self.now_dis@, u as int);
            }
            let (dsts, wts) = self.graph.neighbors(u as usize);
            let mut i: usize = 0;
            while i < dsts.len()
                invariant
                    self.base_ok(),
                    scratch_ok(self.graph.rows().len() as int, self.in_set@, self.parent@, self.children@, w_list@),
                    n == self.graph.rows().len(),
                    self.graph == old(self).graph,
                    self.k == old(self).k,
                    self.t == old(self).t,
                    self.top_l == old(self).top_l,
                    self.source == old(self).source,
                    self.epoch == old(self).epoch,
                    self.cur_epoch == old(self).cur_epoch,
                    self.parent == old(self).parent,
                    self.children == old(self).children,
                    d0 == old(self).now_dis@,
                    w0 == old(w_list)@,
                    u < n,
                    u_dis.hi < u64::MAX ==> walk_weighs(self.graph.rows(), self.source as int, u as int, u_dis.hi as int),
                    dsts@.len() == wts@.len(),
                    dsts@.len() == self.graph.rows()[u as int].len(),
                    forall|e: int| 0 <= e < dsts@.len() ==> (#[trigger] dsts@[e], wts@[e]) == self.graph.rows()[u as int][e],
                    i <= dsts.len(),
                    forall|v: int| 0 <= v < n ==> key_le(#[trigger] self.now_dis@[v], d0[v]),
                    w_list@.no_duplicates(),
                    w_list@.len() >= w0.len(),
                    w_list@.take(w0.len() as int) == w0,
                    forall|x: int| 0 <= x < w_list.len() ==> #[trigger] w_list@[x] < n,
                    forall|x: int| w0.len() <= x < w_list.len() ==> pd_less(self.now_dis@[#[trigger] w_list@[x] as int], b),
                    forall|x: int| 0 <= x < next.len() ==> #[trigger] next@[x] < n,
                    next0 == old(next)@,
                    j < cur.len(),
                    u == cur@[j as int],
                    row == self.graph.rows()[u as int],
                    dj == round_dists(self.graph.rows(), cur@, d0, j as nat),
                    tj == round_targets(self.graph.rows(), cur@, d0, b, j as nat),
                    u_dis == dj[u as int],
                    self.now_dis@ == relax_edges(row, u_dis, u, dj, i as nat),
                    next@ == next0 + tj + below_targets(relaxed_pairs(row, u_dis, u, dj, i as nat), b),
                    w_list@ == add_new(w0, tj + below_targets(relaxed_pairs(row, u_dis, u, dj, i as nat), b)),
                decreases dsts.len() - i,
            {
                let v = dsts[i];
                let w = wts[i];
                proof {
                    assert(self.graph.rows()[u as int][i as int].0 == v);
                    assert(v < n);
                }
                let ghost nd0 = self.now_dis@;
                let ghost nx0 = next@;
                let ghost wl0 = w_list@;
                let ghost pp = relaxed_pairs(row, u_dis, u, dj, i as nat);
                let ghost bt = below_targets(pp, b);
                proof {
                    assert(row[i as int] == (v, w));
                    assert(wl0.contains(v) <==> self.in_set@[v as int]);
                }
                match extend(u_dis, w, v, u) {
                    Some(relaxed) => {
                        if !self.now_dis[v as usize].is_less(&relaxed) {
                            let ghost before = w_list@;
                            let ghost dv = self.now_dis@;
                            let ghost ins = self.in_set@;
                            let ghost par0 = self.parent@;
                            let ghost ch0 = self.children@;
                            proof {
                                assert forall|x: int| 0 <= x < n implies (#[trigger] ins[x] <==> before.contains(x as u32)) by {
                                    assert(self.in_set@[x] <==> w_list@.contains(x as u32));
                                }
                                assert forall|x: int| 0 <= x < n && !before.contains(x as u32) implies #[trigger] par0[x] == NO_VERTEX
                                    && ch0[x]@.len() == 0 by {
                                    assert(self.parent@[x] == NO_VERTEX);
                                }
                            }
                            self.now_dis.set(v as usize, relaxed);
                            proof {
                                if relaxed.hi < u64::MAX {
                                    lemma_walk_step(self.graph.rows(), self.source as int, u as int, i as int, u_dis.hi as int);
                                }
                                lemma_sound_update(self.graph.rows(), self.source as int, dv, v as int, relaxed);
                                lemma_extend_end(u_dis, w, v, u);
                                lemma_ends_update(dv, v as int, relaxed);
                            }
                            proof {
                                assert(self.in_set@ == ins && self.parent@ == par0 && self.children@ == ch0);
                                assert forall|x: int| 0 <= x < n implies (#[trigger] self.in_set@[x] <==> w_list@.contains(x as u32)) by {
                                    assert(ins[x] <==> before.contains(x as u32));
                                }
                                assert forall|x: int| 0 <= x < n && !w_list@.contains(x as u32) implies #[trigger] self.parent@[x]
                                    == NO_VERTEX && self.children@[x]@.len() == 0 by {
                                    assert(par0[x] == NO_VERTEX && ch0[x]@.len() == 0);
                                }
                                assert(scratch_ok(self.graph.rows().len() as int, self.in_set@, self.parent@, self.children@, w_list@));
                                assert forall|x: int| 0 <= x < n implies key_le(#[trigger] self.now_dis@[x], d0[x]) by {
                                    if x == v {
                                        lemma_key_order(relaxed, dv[x], d0[x]);
                                    }
                                }
                            }
                            if relaxed.is_less(&b) {
                                if !self.in_set[v as usize] {
                                    let ghost par = self.parent@;
                                    let ghost ch = self.children@;
                                    proof {
                                        assert forall|x: int| #![trigger par[x]] 0 <= x < n && !before.contains(x as u32) implies par[x] == NO_VERTEX
                                            && ch[x]@.len() == 0 by {
                                            assert(self.parent@[x] == NO_VERTEX);
                                        }
                                    }
                                    let ghost ins_b = self.in_set@;
                                    self.in_set.set(v as usize, true);
                                    w_list.push(v);
                                    proof {
                                        assert(!before.contains(v));
                                        assert(w_list@.take(w0.len() as int) =~= before.take(w0.len() as int));
                                        lemma_scratch_add(self.graph.rows().len() as int, ins_b, par, ch, before, v);
                                        assert(self.in_set@ == ins_b.update(v as int, true));
                                        assert(w_list@ == before.push(v));
                                    }
                                } else {
                                    assert(scratch_ok(self.graph.rows().len() as int, self.in_set@, self.parent@, self.children@, w_list@));
                                }
                                assert(scratch_ok(self.graph.rows().len() as int, self.in_set@, self.parent@, self.children@, w_list@));
                                next.push(v);
                                assert(scratch_ok(self.graph.rows().len() as int, self.in_set@, self.parent@, self.children@, w_list@));
                            }
                            proof {
                                assert forall|x: int| w0.len() <= x < w_list.len() implies pd_less(
                                    self.now_dis@[#[trigger] w_list@[x] as int],
                                    b,
                                ) by {
                                    if w_list@[x] != v {
                                        lemma_key_order(self.now_dis@[w_list@[x] as int], dv[w_list@[x] as int], b);
                                    }
                                }
                            }
                        }
                    },
                    None => {},
                }
                assert(scratch_ok(self.graph.rows().len() as int, self.in_set@, self.parent@, self.children@, w_list@));
                proof {
                    let e = row[i as int];
                    let key = extend_key(u_dis, w, v, u);
                    assert(relax_edges(row, u_dis, u, dj, (i + 1) as nat) == if sets_edge(nd0, u_dis, u, e) {
                        nd0.update(v as int, key)
                    } else {
                        nd0
                    });
                    assert(relaxed_pairs(row, u_dis, u, dj, (i + 1) as nat) == if sets_edge(nd0, u_dis, u, e) {
                        pp.push((v, key))
                    } else {
                        pp
                    });
                    if sets_edge(nd0, u_dis, u, e) {
                        assert(pp.push((v, key)).drop_last() =~= pp);
                        if pd_less(key, b) {
                            assert(below_targets(pp.push((v, key)), b) == bt.push(v));
                            assert(next@ =~= next0 + tj + bt.push(v));
                            assert((tj + bt.push(v)).drop_last() =~= tj + bt);
                            assert((tj + bt.push(v)).last() == v);
                            assert(w_list@ == add_new(w0, tj + bt.push(v)));
                        } else {
                            assert(below_targets(pp.push((v, key)), b) == bt);
                        }
                    }
                }
                i = i + 1;
            }
            proof {
                assert(i == row.len());
                assert(next@ =~= next0 + round_targets(self.graph.rows(), cur@, d0, b, (j + 1) as nat));
            }
            j = j + 1;
        }
    }
}

/// The order of keys is a total order.
pub proof fn lemma_key_order(a: PathDist, b: PathDist, c: PathDist)
    ensures
        key_le(a, b) && key_le(b, c) ==> key_le(a, c),
        key_le(a, b) && pd_less(b, c) ==> pd_less(a, c),
        pd_less(a, b) ==> key_le(a, b),
        key_le(a, a),
{
}

/// The levels left below a vertex whose key is `dx`: keys hold fewer than `2^22` edges.
pub open spec fn fuel(dx: PathDist) -> nat {
    (4194304 - dx.hop_spec()) as nat
}

/// The number of vertices in the tree below `x` of the child lists `ch`, counting
/// `x`, with `f` levels left.
pub open spec fn tree_size(ch: Seq<Vec<u32>>, x: u32, f: nat) -> int
    decreases f, 0nat,
{
    if f == 0 {
        1
    } else {
        1 + kids_size(ch, ch[x as int]@, (f - 1) as nat)
    }
}

/// The total size of the trees below the vertices of `kids`, with `f` levels left.
pub open spec fn kids_size(ch: Seq<Vec<u32>>, kids: Seq<u32>, f: nat) -> int
    decreases f, kids.len(),
{
    if kids.len() == 0 {
        0
    } else {
        kids_size(ch, kids.drop_last(), f) + tree_size(ch, kids.last(), f)
    }
}

/// The total size of the trees below the vertices of a stack, each with its own levels.
spec fn stack_size(ch: Seq<Vec<u32>>, d: Seq<PathDist>, s: Seq<u32>) -> int
    decreases s.len(),
{
    if s.len() == 0 {
        0
    } else {
        stack_size(ch, d, s.drop_last()) + tree_size(ch, s.last(), fuel(d[s.last() as int]))
    }
}

proof fn lemma_sizes_pos(ch: Seq<Vec<u32>>, kids: Seq<u32>, f: nat)
    ensures
        kids_size(ch, kids, f) >= 0,
        forall|x: u32| #[trigger] tree_size(ch, x, f) >= 1,
    decreases f, kids.len(),
{
    if kids.len() > 0 {
        lemma_sizes_pos(ch, kids.drop_last(), f);
    }
    assert forall|x: u32| #[trigger] tree_size(ch, x, f) >= 1 by {
        if f > 0 {
            lemma_sizes_pos(ch, ch[x as int]@, (f - 1) as nat);
        }
    }
    if kids.len() > 0 {
        assert(tree_size(ch, kids.last(), f) >= 1);
    }
}

proof fn lemma_stack_size_pos(ch: Seq<Vec<u32>>, d: Seq<PathDist>, s: Seq<u32>)
    ensures
        stack_size(ch, d, s) >= 0,
    decreases s.len(),
{
    if s.len() > 0 {
        lemma_stack_size_pos(ch, d, s.drop_last());
        lemma_sizes_pos(ch, Seq::empty(), fuel(d[s.last() as int]));
    }
}

proof fn lemma_hop_bound(x: PathDist)
    ensures
        x.hop_spec() < 4194304,
{
    let lo = x.lo;
    assert((lo >> 42u64) < 4194304u64) by (bit_vector);
}

/// Extending a key by an edge gives a later key.
proof fn lemma_extend_grows(du: PathDist, w: u32, v: u32, u: u32)
    requires
        extendable(du, w),
        v < 2097152,
        u < 2097152,
    ensures
        pd_less(du, extend_key(du, w, v, u)),
{
    let lo = du.lo;
    let h = du.hop_spec();
    let hh: u64 = lo >> 42u64;
    assert(hh < 4194304) by (bit_vector)
        requires
            hh == lo >> 42u64,
    ;
    assert(h == hh);
    assert(lo == hh * 4398046511104u64 + (lo & 4398046511103u64) && (lo & 4398046511103u64) < 4398046511104u64) by (bit_vector)
        requires
            hh == lo >> 42u64,
    ;
    crate::algorithms::bmssp::path_dist::lemma_pack_low_fields((h + 1) as u64, v as u64, u as u64);
    assert(pack_low(h + 1, v as int, u as int) >= (h + 1) * 4398046511104) by (nonlinear_arith)
        requires
            v >= 0,
            u >= 0,
            pack_low(h + 1, v as int, u as int) == (h + 1) * 4398046511104 + v * 2097152 + u,
    ;
}

/// The out-edge `e` of `u` is relaxed: where its extension of the estimate of `u` fits
/// and lies below `b`, the estimate of its target is at or below that extension.
pub open spec fn edge_relaxed(rows: Seq<Seq<(u32, u32)>>, d: Seq<PathDist>, u: u32, e: int, b: PathDist) -> bool {
    let v = rows[u as int][e].0;
    let w = rows[u as int][e].1;
    extendable(d[u as int], w) && pd_less(extend_key(d[u as int], w, v, u), b) ==> key_le(d[v as int], extend_key(d[u as int], w, v, u))
}

/// The first `upto` out-edges of `u` are relaxed.
pub open spec fn relaxed_out(rows: Seq<Seq<(u32, u32)>>, d: Seq<PathDist>, u: u32, b: PathDist, upto: int) -> bool {
    forall|e: int| 0 <= e < upto ==> #[trigger] edge_relaxed(rows, d, u, e, b)
}

/// Lowering estimates other than that of `u` keeps its edges relaxed.
proof fn lemma_relaxed_out_lower(rows: Seq<Seq<(u32, u32)>>, d: Seq<PathDist>, d2: Seq<PathDist>, u: u32, b: PathDist, upto: int)
    requires
        relaxed_out(rows, d, u, b, upto),
        d2[u as int] == d[u as int],
        d2.len() == d.len(),
        forall|y: int| 0 <= y < d.len() ==> key_le(#[trigger] d2[y], d[y]),
        0 <= u < rows.len(),
        upto <= rows[u as int].len(),
        targets_in_range(rows),
        d.len() == rows.len(),
    ensures
        relaxed_out(rows, d2, u, b, upto),
{
    assert forall|e: int| 0 <= e < upto implies #[trigger] edge_relaxed(rows, d2, u, e, b) by {
        assert(edge_relaxed(rows, d, u, e, b));
        let v = rows[u as int][e].0;
        assert(v < rows.len());
        lemma_key_order(d2[v as int], d[v as int], extend_key(d[u as int], rows[u as int][e].1, v, u));
    }
}

/// The edge `e` out of `u` is the last edge of the path that the estimate of its
/// target records: extending the estimate of `u` by it gives that estimate.
pub open spec fn tree_edge(d: Seq<PathDist>, u: u32, e: (u32, u32)) -> bool {
    extendable(d[u as int], e.1) && extend_key(d[u as int], e.1, e.0, u) == d[e.0 as int]
}

/// The targets in `w` of the tree edges among the first `i` edges of `row`, the
/// out-edges of `u`, in edge order.
pub open spec fn forest_kids(row: Seq<(u32, u32)>, d: Seq<PathDist>, w: Seq<u32>, u: u32, i: nat) -> Seq<u32>
    decreases i,
{
    if i == 0 {
        Seq::empty()
    } else {
        let q = forest_kids(row, d, w, u, (i - 1) as nat);
        let e = row[i - 1];
        if w.contains(e.0) && tree_edge(d, u, e) {
            q.push(e.0)
        } else {
            q
        }
    }
}

/// `u` and `v` both lie in `w` and some out-edge of `u` to `v` is a tree edge.
pub open spec fn tree_parent(rows: Seq<Seq<(u32, u32)>>, d: Seq<PathDist>, w: Seq<u32>, u: u32, v: u32) -> bool {
    &&& w.contains(u)
    &&& w.contains(v)
    &&& exists|e: int| 0 <= e < rows[u as int].len() && (#[trigger] rows[u as int][e]).0 == v && tree_edge(d, u, rows[u as int][e])
}

/// The children of `x` in the forest of tree edges over `w`: its tree-edge targets
/// in `w` when `x` lies in `w`, none otherwise.
pub open spec fn forest_children(rows: Seq<Seq<(u32, u32)>>, d: Seq<PathDist>, w: Seq<u32>, x: u32) -> Seq<u32> {
    if w.contains(x) {
        forest_kids(rows[x as int], d, w, x, rows[x as int].len())
    } else {
        Seq::empty()
    }
}

/// The number of vertices in the tree below `x` of the forest of tree edges over `w`,
/// counting `x`, with `f` levels left.
pub open spec fn forest_size(rows: Seq<Seq<(u32, u32)>>, d: Seq<PathDist>, w: Seq<u32>, x: u32, f: nat) -> int
    decreases f, 0nat,
{
    if f == 0 {
        1
    } else {
        1 + forest_kids_size(rows, d, w, forest_children(rows, d, w, x), (f - 1) as nat)
    }
}

/// The total size of the trees below the vertices of `kids`, with `f` levels left.
pub open spec fn forest_kids_size(rows: Seq<Seq<(u32, u32)>>, d: Seq<PathDist>, w: Seq<u32>, kids: Seq<u32>, f: nat) -> int
    decreases f, kids.len(),
{
    if kids.len() == 0 {
        0
    } else {
        forest_kids_size(rows, d, w, kids.drop_last(), f) + forest_size(rows, d, w, kids.last(), f)
    }
}

/// `u` is a pivot: a vertex of `w` with no tree parent whose tree holds at least `k`
/// vertices.
pub open spec fn is_pivot(rows: Seq<Seq<(u32, u32)>>, d: Seq<PathDist>, w: Seq<u32>, k: int, u: u32) -> bool {
    &&& w.contains(u)
    &&& !(exists|x: u32| #[trigger] tree_parent(rows, d, w, x, u))
    &&& forest_size(rows, d, w, u, fuel(d[u as int])) >= k
}

/// The children are the targets of edges of the row.
proof fn lemma_forest_kids_targets(row: Seq<(u32, u32)>, d: Seq<PathDist>, w: Seq<u32>, x: u32, i: nat, n: int)
    requires
        i <= row.len(),
        forall|e: int| 0 <= e < row.len() ==> (#[trigger] row[e]).0 < n,
    ensures
        forall|j: int| 0 <= j < forest_kids(row, d, w, x, i).len() ==> #[trigger] forest_kids(row, d, w, x, i)[j] < n,
    decreases i,
{
    if i > 0 {
        lemma_forest_kids_targets(row, d, w, x, (i - 1) as nat, n);
        let q = forest_kids(row, d, w, x, (i - 1) as nat);
        assert(row[i - 1].0 < n);
        assert forall|j: int| 0 <= j < forest_kids(row, d, w, x, i).len() implies #[trigger] forest_kids(row, d, w, x, i)[j] < n by {
            if j < q.len() {
                assert(forest_kids(row, d, w, x, i)[j] == q[j]);
            }
        }
    }
}

/// Child lists that hold the forest's children give the forest's tree sizes.
proof fn lemma_sizes_agree(
    ch: Seq<Vec<u32>>,
    rows: Seq<Seq<(u32, u32)>>,
    d: Seq<PathDist>,
    w: Seq<u32>,
    kids: Seq<u32>,
    f: nat,
)
    requires
        targets_in_range(rows),
        ch.len() == rows.len(),
        forall|y: int| 0 <= y < rows.len() ==> (#[trigger] ch[y])@ == forest_children(rows, d, w, y as u32),
        forall|j: int| 0 <= j < kids.len() ==> #[trigger] kids[j] < rows.len(),
    ensures
        kids_size(ch, kids, f) == forest_kids_size(rows, d, w, kids, f),
        forall|j: int| 0 <= j < kids.len() ==> tree_size(ch, #[trigger] kids[j], f) == forest_size(rows, d, w, kids[j], f),
    decreases f, kids.len(),
{
    if kids.len() > 0 {
        let x = kids.last();
        lemma_sizes_agree(ch, rows, d, w, kids.drop_last(), f);
        if f > 0 {
            let c = forest_children(rows, d, w, x);
            if w.contains(x) {
                lemma_forest_kids_targets(rows[x as int], d, w, x, rows[x as int].len(), rows.len() as int);
            }
            assert(ch[x as int]@ == c);
            lemma_sizes_agree(ch, rows, d, w, c, (f - 1) as nat);
        }
        assert forall|j: int| 0 <= j < kids.len() implies tree_size(ch, #[trigger] kids[j], f) == forest_size(rows, d, w, kids[j], f) by {
            if j < kids.len() - 1 {
                assert(kids[j] == kids.drop_last()[j]);
            } else {
                if f > 0 {
                    assert(tree_size(ch, x, f) == 1 + kids_size(ch, ch[x as int]@, (f - 1) as nat));
                }
            }
        }
    }
}

/// A single vertex's tree size agrees too.
proof fn lemma_size_agrees(ch: Seq<Vec<u32>>, rows: Seq<Seq<(u32, u32)>>, d: Seq<PathDist>, w: Seq<u32>, x: u32, f: nat)
    requires
        targets_in_range(rows),
        ch.len() == rows.len(),
        forall|y: int| 0 <= y < rows.len() ==> (#[trigger] ch[y])@ == forest_children(rows, d, w, y as u32),
        x < rows.len(),
    ensures
        tree_size(ch, x, f) == forest_size(rows, d, w, x, f),
{
    lemma_sizes_agree(ch, rows, d, w, seq![x], f);
    assert(seq![x][0] == x);
}

/// Child lists built for the forest over `w`, empty outside `w`, are its children.
proof fn lemma_children_are_forest(
    rows: Seq<Seq<(u32, u32)>>,
    d: Seq<PathDist>,
    w: Seq<u32>,
    ins: Seq<bool>,
    par: Seq<u32>,
    ch: Seq<Vec<u32>>,
)
    requires
        scratch_ok(rows.len() as int, ins, par, ch, w),
        rows.len() < 2097152,
        forall|x: int|
            0 <= x < rows.len() && w.contains(x as u32) ==> (#[trigger] ch[x])@ == forest_kids(rows[x], d, w, x as u32, rows[x].len()),
    ensures
        forall|y: int| 0 <= y < rows.len() ==> (#[trigger] ch[y])@ == forest_children(rows, d, w, y as u32),
{
    assert forall|y: int| 0 <= y < rows.len() implies (#[trigger] ch[y])@ == forest_children(rows, d, w, y as u32) by {
        if !w.contains(y as u32) {
            assert(forall|z: int|
                0 <= z < rows.len() && !w.contains(z as u32) ==> #[trigger] par[z] == NO_VERTEX && ch[z]@.len() == 0);
            assert(par[y] == NO_VERTEX);
            assert(ch[y]@ =~= Seq::<u32>::empty());
        }
    }
}

/// The roots picked among `w` are exactly its pivots.
proof fn lemma_pivots_are_roots(
    rows: Seq<Seq<(u32, u32)>>,
    d: Seq<PathDist>,
    w: Seq<u32>,
    par: Seq<u32>,
    ch: Seq<Vec<u32>>,
    p: Seq<u32>,
    k: int,
)
    requires
        targets_in_range(rows),
        rows.len() < 2097152,
        ch.len() == rows.len(),
        forall|i: int| 0 <= i < w.len() ==> #[trigger] w[i] < rows.len(),
        forall|y: int| 0 <= y < rows.len() ==> (#[trigger] ch[y])@ == forest_children(rows, d, w, y as u32),
        forall|v: int|
            0 <= v < rows.len() && #[trigger] par[v] != NO_VERTEX ==> tree_parent(rows, d, w, par[v], v as u32),
        forall|x: u32, v: int| 0 <= v < rows.len() && #[trigger] tree_parent(rows, d, w, x, v as u32) ==> par[v] == x,
        forall|i: int| 0 <= i < p.len() ==> w.contains(#[trigger] p[i]),
        forall|u: u32|
            w.contains(u) ==> (p.contains(u) <==> (par[u as int] == NO_VERTEX && tree_size(ch, u, fuel(d[u as int])) >= k)),
    ensures
        forall|u: u32| #[trigger] p.contains(u) <==> is_pivot(rows, d, w, k, u),
{
    assert forall|u: u32| #[trigger] p.contains(u) <==> is_pivot(rows, d, w, k, u) by {
        if w.contains(u) {
            let q = choose|q: int| 0 <= q < w.len() && w[q] == u;
            assert(w[q] < rows.len());
            lemma_size_agrees(ch, rows, d, w, u, fuel(d[u as int]));
            if par[u as int] == NO_VERTEX {
                assert forall|x: u32| !(#[trigger] tree_parent(rows, d, w, x, u)) by {
                    if tree_parent(rows, d, w, x, u) {
                        assert(tree_parent(rows, d, w, x, (u as int) as u32));
                        assert(par[u as int] == x);
                        let qx = choose|qx: int| 0 <= qx < w.len() && w[qx] == x;
                        assert(w[qx] < rows.len());
                    }
                }
            } else {
                assert(tree_parent(rows, d, w, par[u as int], (u as int) as u32));
            }
        } else {
            if p.contains(u) {
                let q = choose|q: int| 0 <= q < p.len() && p[q] == u;
                assert(w.contains(p[q]));
            }
        }
    }
}

/// A vertex has at most one tree parent: the predecessor that its estimate records.
proof fn lemma_tree_parent_unique(d: Seq<PathDist>, x: u32, ex: (u32, u32), y: u32, ey: (u32, u32))
    requires
        x < 2097152,
        y < 2097152,
        ex.0 == ey.0,
        ex.0 < 2097152,
        tree_edge(d, x, ex),
        tree_edge(d, y, ey),
    ensures
        x == y,
{
    crate::algorithms::bmssp::path_dist::lemma_pack_low_fields((d[x as int].hop_spec() + 1) as u64, ex.0 as u64, x as u64);
    crate::algorithms::bmssp::path_dist::lemma_pack_low_fields((d[y as int].hop_spec() + 1) as u64, ey.0 as u64, y as u64);
}

impl BMSSP {
    /// Each child of a vertex is a vertex one edge further along its path, and no
    /// vertex has more children than out-edges.
    spec fn forest_ok(&self) -> bool {
        let n = self.graph.rows().len();
        &&& forall|x: int| 0 <= x < n ==> (#[trigger] self.children@[x])@.len() <= self.graph.rows()[x].len()
        &&& forall|x: int, j: int|
            0 <= x < n && 0 <= j < self.children@[x]@.len() ==> {
                let c = #[trigger] self.children@[x]@[j];
                &&& c < n
                &&& self.now_dis@[c as int].hop_spec() == self.now_dis@[x].hop_spec() + 1
            }
    }

    /// Whether the tree below `root` holds at least `k` vertices.
    fn subtree_reaches(&self, root: u32, k: usize) -> (r: bool)
        requires
            self.base_ok(),
            self.forest_ok(),
            root < self.graph.rows().len(),
        ensures
            r == (tree_size(self.children@, root, fuel(self.now_dis@[root as int])) >= k),
    {
        let ghost ch = self.children@;
        let ghost d = self.now_dis@;
        let ghost n = self.graph.rows().len();
        let ghost total = tree_size(ch, root, fuel(d[root as int]));
        let ghost mut cnt: int = 0;
        let mut size: usize = 0;
        let mut stack: Vec<u32> = Vec::new();
        stack.push(root);
        proof {
            assert(stack@.drop_last() =~= Seq::<u32>::empty());
            assert(stack@.last() == root);
            assert(stack_size(ch, d, Seq::<u32>::empty()) == 0);
            lemma_sizes_pos(ch, Seq::empty(), fuel(d[root as int]));
        }
        while stack.len() > 0
            invariant
                self.base_ok(),
                self.forest_ok(),
                ch == self.children@,
                d == self.now_dis@,
                n == self.graph.rows().len(),
                forall|i: int| 0 <= i < stack.len() ==> #[trigger] stack@[i] < n,
                cnt >= 0,
                cnt + stack_size(ch, d, stack@) == total,
                size == if cnt < k { cnt } else { k as int },
            decreases total - cnt,
        {
            let ghost old_stack = stack@;
            let x = stack.pop().unwrap();
            let ghost popped = stack@;
            proof {
                assert(old_stack.drop_last() =~= popped);
                assert(old_stack.last() == x);
                lemma_hop_bound(d[x as int]);
                lemma_stack_size_pos(ch, d, popped);
                lemma_sizes_pos(ch, Seq::empty(), fuel(d[x as int]));
                assert(tree_size(ch, x, fuel(d[x as int])) == 1 + kids_size(ch, ch[x as int]@, (fuel(d[x as int]) - 1) as nat));
            }
            if size < k {
                size = size + 1;
            }
            proof {
                cnt = cnt + 1;
            }
            let ghost f = (fuel(d[x as int]) - 1) as nat;
            let kids = &self.children[x as usize];
            let mut j: usize = 0;
            proof {
                assert(kids@.take(0) =~= Seq::<u32>::empty());
            }
            while j < kids.len()
                invariant
                    self.base_ok(),
                    self.forest_ok(),
                    ch == self.children@,
                    d == self.now_dis@,
                    n == self.graph.rows().len(),
                    x < n,
                    kids@ == ch[x as int]@,
                    f == fuel(d[x as int]) - 1,
                    j <= kids.len(),
                    forall|i: int| 0 <= i < stack.len() ==> #[trigger] stack@[i] < n,
                    stack_size(ch, d, stack@) == stack_size(ch, d, popped) + kids_size(ch, kids@.take(j as int), f),
                decreases kids.len() - j,
            {
                let c = kids[j];
                proof {
                    assert(ch[x as int]@[j as int] == c);
                    assert(d[c as int].hop_spec() == d[x as int].hop_spec() + 1);
                    lemma_hop_bound(d[c as int]);
                    assert(kids@.take(j + 1).drop_last() =~= kids@.take(j as int));
                    assert(fuel(d[c as int]) == f);
                }
                let ghost before = stack@;
                stack.push(c);
                proof {
                    assert(stack@.drop_last() =~= before);
                }
                j = j + 1;
            }
            proof {
                assert(kids@.take(kids.len() as int) =~= kids@);
                assert(popped =~= popped);
            }
        }
        size >= k
    }
}

impl BMSSP {
    /// Links the vertices of `w` into the forest of their estimates: `v` becomes a
    /// child of `u` when both are in `w` and the estimate of `v` is that of `u`
    /// extended by an edge `u -> v`.
    #[verifier::spinoff_prover]
    fn build_forest(&mut self, w: &Vec<u32>)
        requires
            old(self).base_ok(),
            scratch_ok(old(self).graph.rows().len() as int, old(self).in_set@, old(self).parent@, old(self).children@, w@),
            w@.no_duplicates(),
            forall|i: int| 0 <= i < w.len() ==> #[trigger] w@[i] < old(self).rows().len(),
            forall|v: int| 0 <= v < old(self).rows().len() ==> #[trigger] old(self).parent@[v] == NO_VERTEX,
            forall|v: int| 0 <= v < old(self).rows().len() ==> (#[trigger] old(self).children@[v])@.len() == 0,
        ensures
            final(self).base_ok(),
            scratch_ok(final(self).graph.rows().len() as int, final(self).in_set@, final(self).parent@, final(self).children@, w@),
            final(self).forest_ok(),
            final(self).graph == old(self).graph,
            final(self).now_dis == old(self).now_dis,
            final(self).in_set == old(self).in_set,
            final(self).epoch == old(self).epoch,
            final(self).cur_epoch == old(self).cur_epoch,
            final(self).k == old(self).k,
            final(self).t == old(self).t,
            final(self).top_l == old(self).top_l,
            final(self).source == old(self).source,
            forall|x: int|
                0 <= x < old(self).rows().len() && w@.contains(x as u32) ==> (#[trigger] final(self).children@[x])@ == forest_kids(
                    old(self).rows()[x],
                    old(self).now_dis@,
                    w@,
                    x as u32,
                    old(self).rows()[x].len(),
                ),
            forall|v: int|
                0 <= v < old(self).rows().len() && #[trigger] final(self).parent@[v] != NO_VERTEX ==> tree_parent(
                    old(self).rows(),
                    old(self).now_dis@,
                    w@,
                    final(self).parent@[v],
                    v as u32,
                ),
            forall|x: u32, v: int|
                0 <= v < old(self).rows().len() && #[trigger] tree_parent(old(self).rows(), old(self).now_dis@, w@, x, v as u32)
                    ==> final(self).parent@[v] == x,
    {
        let ghost n = self.graph.rows().len();
        let ghost d = self.now_dis@;
        let ghost rows = self.graph.rows();
        proof {
            assert forall|i: int| 0 <= i < w.len() implies (#[trigger] self.children@[w@[i] as int])@.len() == 0 by {
                assert(w@[i] < n);
            }
        }
        let mut idx: usize = 0;
        while idx < w.len()
            invariant
                self.base_ok(),
                scratch_ok(self.graph.rows().len() as int, self.in_set@, self.parent@, self.children@, w@),
                n == self.graph.rows().len(),
                self.graph == old(self).graph,
                self.now_dis == old(self).now_dis,
                self.in_set == old(self).in_set,
                self.epoch == old(self).epoch,
                self.cur_epoch == old(self).cur_epoch,
                self.k == old(self).k,
                self.t == old(self).t,
                self.top_l == old(self).top_l,
                self.source == old(self).source,
                idx <= w.len(),
                w@.no_duplicates(),
                forall|i: int| 0 <= i < w.len() ==> #[trigger] w@[i] < n,
                forall|i: int| idx <= i < w.len() ==> (#[trigger] self.children@[w@[i] as int])@.len() == 0,
                self.forest_ok(),
                d == self.now_dis@,
                rows == self.graph.rows(),
                forall|j: int|
                    0 <= j < idx ==> (#[trigger] self.children@[w@[j] as int])@ == forest_kids(
                        rows[w@[j] as int],
                        d,
                        w@,
                        w@[j],
                        rows[w@[j] as int].len(),
                    ),
                forall|v: int| 0 <= v < n && #[trigger] self.parent@[v] != NO_VERTEX ==> tree_parent(rows, d, w@, self.parent@[v], v as u32),
                forall|j: int, v: int|
                    0 <= j < idx && 0 <= v < n && #[trigger] tree_parent(rows, d, w@, w@[j], v as u32) ==> self.parent@[v] == w@[j],
            decreases w.len() - idx,
        {
            let u = w[idx];
            let u_dis = self.now_dis[u as usize];
            proof {
                lemma_sound_at(self.graph.rows(), self.source as int, self.now_dis@, u as int);
            }
            let (dsts, wts) = self.graph.neighbors(u as usize);
            let mut kids: Vec<u32> = Vec::new();
            let ghost ch_start = self.children@;
            let mut i: usize = 0;
            while i < dsts.len()
                invariant
                    self.children@ == ch_start,
                    forall|j: int| idx <= j < w.len() ==> (#[trigger] ch_start[w@[j] as int])@.len() == 0,
                    w@.no_duplicates(),
                    forall|j: int| 0 <= j < w.len() ==> #[trigger] w@[j] < n,
                    self.base_ok(),
                    scratch_ok(self.graph.rows().len() as int, self.in_set@, self.parent@, self.children@, w@),
                    n == self.graph.rows().len(),
                    self.graph == old(self).graph,
                    self.now_dis == old(self).now_dis,
                    self.in_set == old(self).in_set,
                    self.epoch == old(self).epoch,
                    self.cur_epoch == old(self).cur_epoch,
                    self.k == old(self).k,
                    self.t == old(self).t,
                    self.top_l == old(self).top_l,
                    self.source == old(self).source,
                    self.forest_ok(),
                    idx < w.len(),
                    u == w@[idx as int],
                    u < n,
                    u_dis == self.now_dis@[u as int],
                    dsts@.len() == wts@.len(),
                    dsts@.len() == self.graph.rows()[u as int].len(),
                    forall|e: int| 0 <= e < dsts@.len() ==> (#[trigger] dsts@[e], wts@[e]) == self.graph.rows()[u as int][e],
                    i <= dsts.len(),
                    kids.len() <= i,
                    forall|j: int|
                        0 <= j < kids.len() ==> #[trigger] kids@[j] < n && self.now_dis@[kids@[j] as int].hop_spec()
                            == self.now_dis@[u as int].hop_spec() + 1,
                    d == self.now_dis@,
                    rows == self.graph.rows(),
                    kids@ == forest_kids(rows[u as int], d, w@, u, i as nat),
                    forall|v: int| 0 <= v < n && #[trigger] self.parent@[v] != NO_VERTEX ==> tree_parent(rows, d, w@, self.parent@[v], v as u32),
                    forall|j: int, v: int|
                        0 <= j < idx && 0 <= v < n && #[trigger] tree_parent(rows, d, w@, w@[j], v as u32) ==> self.parent@[v] == w@[j],
                    forall|e: int|
                        0 <= e < i && w@.contains((#[trigger] rows[u as int][e]).0) && tree_edge(d, u, rows[u as int][e])
                            ==> self.parent@[rows[u as int][e].0 as int] == u,
                decreases dsts.len() - i,
            {
                let ghost par_it = self.parent@;
                let ghost kids_it = kids@;
                let v = dsts[i];
                let wt = wts[i];
                proof {
                    assert(self.graph.rows()[u as int][i as int].0 == v);
                }
                if self.in_set[v as usize] {
                    match extend(u_dis, wt, v, u) {
                        Some(relaxed) => {
                            if relaxed == self.now_dis[v as usize] {
                                proof {
                                    lemma_hop_bound(u_dis);
                                    crate::algorithms::bmssp::path_dist::lemma_pack_low_fields(
                                        (u_dis.hop_spec() + 1) as u64,
                                        v as u64,
                                        u as u64,
                                    );
                                    assert(self.in_set@[v as int]);
                                    assert(w@.contains(v));
                                }
                                let ghost par0 = self.parent@;
                                proof {
                                    lemma_scratch_parent(self.graph.rows().len() as int, self.in_set@, par0, self.children@, w@, v, u);
                                }
                                self.parent.set(v as usize, u);
                                kids.push(v);
                                proof {
                                    assert(self.parent@ == par0.update(v as int, u));
                                }
                            }
                        },
                        None => {},
                    }
                }
                proof {
                    let e = rows[u as int][i as int];
                    assert(e == (v, wt));
                    assert(self.in_set@[v as int] <==> w@.contains(v));
                    let cond = w@.contains(v) && tree_edge(d, u, e);
                    assert(forest_kids(rows[u as int], d, w@, u, (i + 1) as nat) == if cond {
                        kids_it.push(v)
                    } else {
                        kids_it
                    });
                    if cond {
                        assert(self.parent@ == par_it.update(v as int, u));
                        assert(kids@ == kids_it.push(v));
                        assert(tree_parent(rows, d, w@, u, v)) by {
                            assert(w@.contains(u)) by {
                                assert(w@[idx as int] == u);
                            }
                            assert(rows[u as int][i as int].0 == v);
                        }
                        assert forall|j: int, x: int|
                            0 <= j < idx && 0 <= x < n && #[trigger] tree_parent(rows, d, w@, w@[j], x as u32) implies self.parent@[x]
                            == w@[j] by {
                            if x == v {
                                let y = w@[j];
                                assert(w@[j] < n);
                                let ey = choose|ee: int|
                                    0 <= ee < rows[y as int].len() && (#[trigger] rows[y as int][ee]).0 == x as u32 && tree_edge(
                                        d,
                                        y,
                                        rows[y as int][ee],
                                    );
                                lemma_tree_parent_unique(d, y, rows[y as int][ey], u, e);
                                assert(w@[j] != w@[idx as int]);
                            }
                        }
                    } else {
                        assert(self.parent@ == par_it);
                        assert(kids@ == kids_it);
                    }
                }
                i = i + 1;
            }
            let ghost ch1 = self.children@;
            let ghost par1 = self.parent@;
            let ghost ins1 = self.in_set@;
            proof {
                assert(ch_start[w@[idx as int] as int]@.len() == 0);
                assert(ch1[u as int]@.len() == 0);
                assert forall|x: int| 0 <= x < n implies (#[trigger] ins1[x] <==> w@.contains(x as u32)) by {
                    assert(self.in_set@[x] <==> w@.contains(x as u32));
                }
                assert forall|x: int| #![trigger par1[x]] 0 <= x < n && !w@.contains(x as u32) implies par1[x] == NO_VERTEX
                    && ch1[x]@.len() == 0 by {
                    assert(self.parent@[x] == NO_VERTEX);
                }
            }
            self.children.set(u as usize, kids);
            proof {
                assert(w@.contains(u)) by {
                    assert(w@[idx as int] == u);
                }
                assert forall|x: int| 0 <= x < n && x != u implies #[trigger] self.children@[x] == ch1[x] by {}
                assert forall|x: int| 0 <= x < n implies (#[trigger] self.in_set@[x] <==> w@.contains(x as u32)) by {
                    assert(ins1[x] <==> w@.contains(x as u32));
                }
                assert forall|x: int| 0 <= x < n && !w@.contains(x as u32) implies #[trigger] self.parent@[x] == NO_VERTEX
                    && self.children@[x]@.len() == 0 by {
                    assert(par1[x] == NO_VERTEX);
                    assert(ch1[x]@.len() == 0);
                }
                assert forall|x: int| 0 <= x < n implies (#[trigger] self.children@[x])@.len() <= self.graph.rows()[x].len() by {
                    if x != u {
                        assert(ch1[x]@.len() <= self.graph.rows()[x].len());
                    }
                }
                assert forall|x: int, j: int|
                    0 <= x < n && 0 <= j < self.children@[x]@.len() implies {
                        let c = #[trigger] self.children@[x]@[j];
                        &&& c < n
                        &&& self.now_dis@[c as int].hop_spec() == self.now_dis@[x].hop_spec() + 1
                    } by {
                    if x != u {
                        assert(self.children@[x]@[j] == ch1[x]@[j]);
                    }
                }
                assert forall|j: int| idx < j < w.len() implies (#[trigger] self.children@[w@[j] as int])@.len() == 0 by {
                    assert(w@[j] != w@[idx as int]);
                    assert(ch_start[w@[j] as int]@.len() == 0);
                }
            }
            proof {
                assert(kids@ == forest_kids(rows[u as int], d, w@, u, rows[u as int].len()));
                assert forall|j: int| 0 <= j <= idx implies (#[trigger] self.children@[w@[j] as int])@ == forest_kids(
                    rows[w@[j] as int],
                    d,
                    w@,
                    w@[j],
                    rows[w@[j] as int].len(),
                ) by {
                    if j < idx {
                        assert(w@[j] != w@[idx as int]);
                        assert(w@[j] < n);
                        assert(self.children@[w@[j] as int] == ch1[w@[j] as int]);
                    }
                }
                assert forall|j: int, v: int|
                    0 <= j <= idx && 0 <= v < n && #[trigger] tree_parent(rows, d, w@, w@[j], v as u32) implies self.parent@[v]
                    == w@[j] by {
                    if j == idx {
                        let ev = choose|ee: int|
                            0 <= ee < rows[u as int].len() && (#[trigger] rows[u as int][ee]).0 == v as u32 && tree_edge(
                                d,
                                u,
                                rows[u as int][ee],
                            );
                        assert(w@.contains(rows[u as int][ev].0));
                    }
                }
            }
            idx = idx + 1;
        }
        proof {
            assert forall|x: int|
                0 <= x < n && w@.contains(x as u32) implies (#[trigger] self.children@[x])@ == forest_kids(
                rows[x],
                d,
                w@,
                x as u32,
                rows[x].len(),
            ) by {
                let j = choose|j: int| 0 <= j < w@.len() && w@[j] == x as u32;
                assert(self.children@[w@[j] as int]@ == forest_kids(rows[w@[j] as int], d, w@, w@[j], rows[w@[j] as int].len()));
            }
            assert forall|x: u32, v: int| 0 <= v < n && #[trigger] tree_parent(rows, d, w@, x, v as u32) implies self.parent@[v] == x by {
                let j = choose|j: int| 0 <= j < w@.len() && w@[j] == x;
                assert(tree_parent(rows, d, w@, w@[j], v as u32));
            }
        }
    }

    /// The roots of the forest among `w`, in the order of `w`, whose trees hold at least
    /// `k` vertices.
    fn pick_roots(&self, w: &Vec<u32>) -> (p: Vec<u32>)
        requires
            self.base_ok(),
            self.forest_ok(),
            w@.no_duplicates(),
            forall|i: int| 0 <= i < w.len() ==> #[trigger] w@[i] < self.rows().len(),
        ensures
            p@.no_duplicates(),
            forall|i: int| 0 <= i < p.len() ==> w@.contains(#[trigger] p@[i]),
            forall|u: u32|
                w@.contains(u) ==> (p@.contains(u) <==> (self.parent@[u as int] == NO_VERTEX && tree_size(
                    self.children@,
                    u,
                    fuel(self.now_dis@[u as int]),
                ) >= self.k)),
    {
        let mut p: Vec<u32> = Vec::new();
        let mut idx: usize = 0;
        while idx < w.len()
            invariant
                self.base_ok(),
                self.forest_ok(),
                idx <= w.len(),
                w@.no_duplicates(),
                forall|i: int| 0 <= i < w.len() ==> #[trigger] w@[i] < self.rows().len(),
                p@.no_duplicates(),
                forall|i: int| 0 <= i < p.len() ==> w@.take(idx as int).contains(#[trigger] p@[i]),
                forall|u: u32|
                    w@.take(idx as int).contains(u) ==> (p@.contains(u) <==> (self.parent@[u as int] == NO_VERTEX
                        && tree_size(self.children@, u, fuel(self.now_dis@[u as int])) >= self.k)),
            decreases w.len() - idx,
        {
            let u = w[idx];
            let ghost p0 = p@;
            let ghost wn = w@.take(idx + 1);
            proof {
                assert(!w@.take(idx as int).contains(u)) by {
                    if w@.take(idx as int).contains(u) {
                        let q = choose|q: int| 0 <= q < idx && w@.take(idx as int)[q] == u;
                        assert(w@[q] == w@[idx as int]);
                    }
                }
                assert(w@.take(idx + 1) =~= w@.take(idx as int).push(u));
            }
            if self.parent[u as usize] == NO_VERTEX && self.subtree_reaches(u, self.k) {
                p.push(u);
                proof {
                    assert forall|i: int| 0 <= i < p.len() implies w@.take(idx + 1).contains(#[trigger] p@[i]) by {
                        if i < p0.len() {
                            assert(w@.take(idx as int).contains(p0[i]));
                            let q = choose|q: int| 0 <= q < idx && w@.take(idx as int)[q] == p0[i];
                            assert(w@.take(idx + 1)[q] == p0[i]);
                        } else {
                            assert(w@.take(idx + 1)[idx as int] == u);
                        }
                    }
                    assert forall|x: u32| w@.take(idx + 1).contains(x) implies (p@.contains(x) <==> (self.parent@[x as int]
                        == NO_VERTEX && tree_size(self.children@, x, fuel(self.now_dis@[x as int])) >= self.k)) by {
                        if x != u {
                            let q = choose|q: int| 0 <= q <= idx && wn[q] == x;
                            assert(w@.take(idx as int)[q] == x);
                            if p@.contains(x) {
                                let r = choose|r: int| 0 <= r < p.len() && p@[r] == x;
                                assert(p0[r] == x);
                            }
                            if p0.contains(x) {
                                let r = choose|r: int| 0 <= r < p0.len() && p0[r] == x;
                                assert(p@[r] == x);
                            }
                        } else {
                            assert(p@[p.len() - 1] == u);
                        }
                    }
                    assert(!p0.contains(u)) by {
                        if p0.contains(u) {
                            let r = choose|r: int| 0 <= r < p0.len() && p0[r] == u;
                            assert(w@.take(idx as int).contains(p0[r]));
                        }
                    }
                }
            } else {
                proof {
                    assert forall|i: int| 0 <= i < p.len() implies w@.take(idx + 1).contains(#[trigger] p@[i]) by {
                        assert(w@.take(idx as int).contains(p@[i]));
                        let q = choose|q: int| 0 <= q < idx && w@.take(idx as int)[q] == p@[i];
                        assert(w@.take(idx + 1)[q] == p@[i]);
                    }
                    assert forall|x: u32| w@.take(idx + 1).contains(x) implies (p@.contains(x) <==> (self.parent@[x as int]
                        == NO_VERTEX && tree_size(self.children@, x, fuel(self.now_dis@[x as int])) >= self.k)) by {
                        if x != u {
                            let q = choose|q: int| 0 <= q <= idx && wn[q] == x;
                            assert(w@.take(idx as int)[q] == x);
                        } else {
                            if p@.contains(u) {
                                let r = choose|r: int| 0 <= r < p.len() && p@[r] == u;
                                assert(w@.take(idx as int).contains(p@[r]));
                            }
                        }
                    }
                }
            }
            idx = idx + 1;
        }
        proof {
            assert(w@.take(w.len() as int) =~= w@);
        }
        p
    }

    /// Clears the marks, parents and children of the vertices of `w`.
    #[verifier::spinoff_prover]
    fn clear_scratch(&mut self, w: &Vec<u32>)
        requires
            old(self).base_ok(),
            scratch_ok(old(self).graph.rows().len() as int, old(self).in_set@, old(self).parent@, old(self).children@, w@),
            forall|i: int| 0 <= i < w.len() ==> #[trigger] w@[i] < old(self).rows().len(),
        ensures
            final(self).wf(),
            final(self).graph == old(self).graph,
            final(self).now_dis == old(self).now_dis,
            final(self).epoch == old(self).epoch,
            final(self).cur_epoch == old(self).cur_epoch,
            final(self).k == old(self).k,
            final(self).t == old(self).t,
            final(self).top_l == old(self).top_l,
            final(self).source == old(self).source,
    {
        let ghost n = self.graph.rows().len();
        proof {
            assert(w@.skip(0) =~= w@);
            assert forall|v: int|
                0 <= v < n && !w@.skip(0).contains(v as u32) implies !(#[trigger] self.in_set@[v]) && self.parent@[v]
                    == NO_VERTEX && self.children@[v]@.len() == 0 by {
                assert(self.parent@[v] == NO_VERTEX);
            }
            assert(cleared_outside(n as int, self.in_set@, self.parent@, self.children@, w@.skip(0)));
        }
        let mut idx: usize = 0;
        while idx < w.len()
            invariant
                self.base_ok(),
                n == self.graph.rows().len(),
                self.graph == old(self).graph,
                self.now_dis == old(self).now_dis,
                self.epoch == old(self).epoch,
                self.cur_epoch == old(self).cur_epoch,
                self.k == old(self).k,
                self.t == old(self).t,
                self.top_l == old(self).top_l,
                self.source == old(self).source,
                idx <= w.len(),
                forall|i: int| 0 <= i < w.len() ==> #[trigger] w@[i] < n,
                cleared_outside(n as int, self.in_set@, self.parent@, self.children@, w@.skip(idx as int)),
            decreases w.len() - idx,
        {
            let v = w[idx];
            let ghost ins0 = self.in_set@;
            let ghost par0 = self.parent@;
            let ghost ch0 = self.children@;
            self.in_set.set(v as usize, false);
            self.parent.set(v as usize, NO_VERTEX);
            self.children[v as usize].clear();
            proof {
                assert(w@.skip(idx as int)[0] == v);
                assert(w@.skip(idx as int).skip(1) =~= w@.skip(idx + 1));
                lemma_clear_step(n as int, ins0, par0, ch0, self.in_set@, self.parent@, self.children@, w@.skip(idx as int));
            }
            idx = idx + 1;
        }
        proof {
            assert forall|x: int| 0 <= x < n implies (#[trigger] self.in_set@[x] <==> Seq::<u32>::empty().contains(x as u32)) by {
                assert(!w@.skip(w.len() as int).contains(x as u32));
                assert(!self.in_set@[x]);
            }
            assert forall|x: int| 0 <= x < n && !Seq::<u32>::empty().contains(x as u32) implies #[trigger] self.parent@[x] == NO_VERTEX
                && self.children@[x]@.len() == 0 by {
                assert(!w@.skip(w.len() as int).contains(x as u32));
                assert(!self.in_set@[x]);
            }
            assert(self.base_ok());
            assert(scratch_ok(n as int, self.in_set@, self.parent@, self.children@, Seq::empty()));
        }
    }
}

impl BMSSP {
    /// Finds pivots for the frontier `s` (a set of vertices) below the bound `b`.
    ///
    /// Runs `k` rounds of relaxations from `s`; the vertices whose estimate falls below
    /// `b` gather, after `s`, in the second result `W`. When `W` grows past `k * |s|`
    /// the pivots are all of `s`; otherwise they are the vertices of `W` that head a
    /// tree of at least `k` vertices in the forest of the estimates over `W`. Where no
    /// vertex has two out-edges to one target, the trees are disjoint, so the pivots
    /// number at most `|W| / k`.
    #[verifier::rlimit(30)]
    pub fn find_pivots(&mut self, s: &[u32], b: PathDist) -> (r: (Vec<u32>, Vec<u32>))
        requires
            old(self).wf(),
            s.len() > 0,
            s@.no_duplicates(),
            forall|i: int| 0 <= i < s.len() ==> #[trigger] s@[i] < old(self).rows().len(),
        ensures
            final(self).wf(),
            final(self).rows() == old(self).rows(),
            final(self).k_spec() == old(self).k_spec(),
            final(self).t_spec() == old(self).t_spec(),
            final(self).top_spec() == old(self).top_spec(),
            final(self).source_spec() == old(self).source_spec(),
            final(self).marks() == old(self).marks(),
            final(self).epoch_spec() == old(self).epoch_spec(),
            final(self).dists().len() == old(self).dists().len(),
            forall|v: int| 0 <= v < old(self).dists().len() ==> key_le(#[trigger] final(self).dists()[v], old(self).dists()[v]),
            r.1@.no_duplicates(),
            r.1.len() >= s.len(),
            r.1@.take(s.len() as int) == s@,
            forall|i: int| 0 <= i < r.1.len() ==> #[trigger] r.1@[i] < old(self).rows().len(),
            forall|i: int| s.len() <= i < r.1.len() ==> pd_less(final(self).dists()[#[trigger] r.1@[i] as int], b),
            r.0@.no_duplicates(),
            forall|i: int| 0 <= i < r.0.len() ==> r.1@.contains(#[trigger] r.0@[i]),
            r.1.len() > old(self).k_spec() * s.len() ==> r.0@ == s@,
            forall|v: int|
                0 <= v < old(self).dists().len() ==> key_le(
                    #[trigger] final(self).dists()[v],
                    round_dists(old(self).rows(), s@, old(self).dists(), s.len() as nat)[v],
                ),
            r.1.len() <= old(self).k_spec() * s.len() ==> forall|u: u32|
                #[trigger] r.0@.contains(u) <==> is_pivot(old(self).rows(), final(self).dists(), r.1@, old(self).k_spec(), u),
            simple_rows(old(self).rows()) ==> r.0.len() * old(self).k_spec() <= r.1.len(),
            ({
                let j = stop_round(old(self).rows(), s@, old(self).dists(), b, old(self).k_spec() as nat, old(self).k_spec() * s.len(), 0);
                &&& 1 <= j <= old(self).k_spec()
                &&& final(self).dists() == bf_state(old(self).rows(), s@, old(self).dists(), b, j).0
                &&& r.1@ == bf_state(old(self).rows(), s@, old(self).dists(), b, j).2
            }),
    {
        let ghost n = self.graph.rows().len();
        let ghost d0 = self.now_dis@;
        proof {
            lemma_scratch_clear(n as int, self.in_set@, self.parent@, self.children@);
        }
        let mut w_list: Vec<u32> = Vec::new();
        let mut i: usize = 0;
        while i < s.len()
            invariant
                self.base_ok(),
                scratch_ok(self.graph.rows().len() as int, self.in_set@, self.parent@, self.children@, w_list@),
                n == self.graph.rows().len(),
                self.graph == old(self).graph,
                self.now_dis == old(self).now_dis,
                self.parent == old(self).parent,
                self.children == old(self).children,
                self.epoch == old(self).epoch,
                self.cur_epoch == old(self).cur_epoch,
                self.k == old(self).k,
                self.t == old(self).t,
                self.top_l == old(self).top_l,
                self.source == old(self).source,
                forall|v: int| 0 <= v < n ==> #[trigger] self.parent@[v] == NO_VERTEX,
                forall|v: int| 0 <= v < n ==> (#[trigger] self.children@[v])@.len() == 0,
                i <= s.len(),
                s@.no_duplicates(),
                forall|j: int| 0 <= j < s.len() ==> #[trigger] s@[j] < n,
                w_list@ == s@.take(i as int),
            decreases s.len() - i,
        {
            let v = s[i];
            let ghost before = w_list@;
            let ghost ins = self.in_set@;
            proof {
                assert forall|x: int| 0 <= x < n implies (#[trigger] ins[x] <==> before.contains(x as u32)) by {
                    assert(self.in_set@[x] <==> w_list@.contains(x as u32));
                }
                assert(!before.contains(v)) by {
                    if before.contains(v) {
                        let q = choose|q: int| 0 <= q < before.len() && before[q] == v;
                        assert(s@[q] == s@[i as int]);
                    }
                }
            }
            self.in_set.set(v as usize, true);
            w_list.push(v);
            proof {
                assert(w_list@ =~= s@.take(i + 1));
                assert forall|x: int| 0 <= x < n implies (#[trigger] self.in_set@[x] <==> w_list@.contains(x as u32)) by {
                    if x == v {
                        assert(w_list@[i as int] == v);
                    } else {
                        if w_list@.contains(x as u32) {
                            let q = choose|q: int| 0 <= q < w_list@.len() && w_list@[q] == x as u32;
                            assert(before[q] == x as u32);
                        }
                        if before.contains(x as u32) {
                            let q = choose|q: int| 0 <= q < before.len() && before[q] == x as u32;
                            assert(w_list@[q] == x as u32);
                        }
                        assert(ins[x] <==> before.contains(x as u32));
                    }
                }
            }
            i = i + 1;
        }
        proof {
            assert(s@.take(s.len() as int) =~= s@);
        }
        let mut cur: Vec<u32> = Vec::new();
        let mut j: usize = 0;
        while j < s.len()
            invariant
                j <= s.len(),
                cur@ == s@.take(j as int),
            decreases s.len() - j,
        {
            cur.push(s[j]);
            j = j + 1;
            proof {
                assert(cur@ =~= s@.take(j as int));
            }
        }
        proof {
            assert(cur@ =~= s@);
        }
        let mut next: Vec<u32> = Vec::new();
        let mut round: usize = 0;
        let kk = self.k;
        proof {
            let a = kk as u128;
            let c = s.len() as u128;
            assert(a * c <= u128::MAX && c <= a * c) by (nonlinear_arith)
                requires
                    1 <= a < 2097152,
                    c <= 18446744073709551615u128,
            ;
        }
        let limit: u128 = (kk as u128) * (s.len() as u128);
        let ghost r1 = round_dists(self.graph.rows(), s@, d0, s.len() as nat);
        while round < self.k
            invariant
                self.base_ok(),
                scratch_ok(self.graph.rows().len() as int, self.in_set@, self.parent@, self.children@, w_list@),
                n == self.graph.rows().len(),
                self.graph == old(self).graph,
                self.parent == old(self).parent,
                self.children == old(self).children,
                self.epoch == old(self).epoch,
                self.cur_epoch == old(self).cur_epoch,
                self.k == old(self).k,
                self.t == old(self).t,
                self.top_l == old(self).top_l,
                self.source == old(self).source,
                forall|v: int| 0 <= v < n ==> #[trigger] self.parent@[v] == NO_VERTEX,
                forall|v: int| 0 <= v < n ==> (#[trigger] self.children@[v])@.len() == 0,
                limit == self.k * s.len(),
                d0 == old(self).now_dis@,
                d0.len() == n,
                forall|v: int| 0 <= v < n ==> key_le(#[trigger] self.now_dis@[v], d0[v]),
                s@.no_duplicates(),
                forall|x: int| 0 <= x < s.len() ==> #[trigger] s@[x] < n,
                w_list@.no_duplicates(),
                w_list.len() >= s.len(),
                w_list@.take(s.len() as int) == s@,
                forall|x: int| 0 <= x < w_list.len() ==> #[trigger] w_list@[x] < n,
                forall|x: int| s.len() <= x < w_list.len() ==> pd_less(self.now_dis@[#[trigger] w_list@[x] as int], b),
                forall|x: int| 0 <= x < cur.len() ==> #[trigger] cur@[x] < n,
                w_list.len() <= limit,
                round > 0 || w_list@ == s@,
                round == 0 ==> self.now_dis@ == d0 && cur@ == s@,
                r1 == round_dists(self.graph.rows(), s@, d0, s.len() as nat),
                round > 0 ==> forall|v: int| 0 <= v < n ==> key_le(#[trigger] self.now_dis@[v], r1[v]),
                round <= self.k,
                (self.now_dis@, cur@, w_list@) == bf_state(self.graph.rows(), s@, d0, b, round as nat),
                forall|i: nat| 0 < i <= round ==> (#[trigger] bf_state(self.graph.rows(), s@, d0, b, i)).2.len() <= limit,
            decreases self.k - round,
        {
            next.clear();
            let ghost w_before = w_list@;
            let ghost d_before = self.now_dis@;
            self.relax_round(&cur, b, &mut w_list, &mut next);
            proof {
                assert(next@ =~= round_targets(self.graph.rows(), cur@, d_before, b, cur.len() as nat));
                assert(bf_state(self.graph.rows(), s@, d0, b, (round + 1) as nat) == (self.now_dis@, next@, w_list@));
                assert forall|v: int| 0 <= v < n implies key_le(#[trigger] self.now_dis@[v], r1[v]) by {
                    if round > 0 {
                        lemma_key_order(self.now_dis@[v], d_before[v], r1[v]);
                    }
                }
                assert(w_list@.take(s.len() as int) =~= w_before.take(w_before.len() as int).take(s.len() as int));
                assert(w_before.take(w_before.len() as int) =~= w_before);
                assert forall|x: int| s.len() <= x < w_list.len() implies pd_less(self.now_dis@[#[trigger] w_list@[x] as int], b) by {
                    if x < w_before.len() {
                        assert(w_list@[x] == w_before[x]);
                        assert(w_list@.take(w_before.len() as int)[x] == w_before[x]);
                    }
                }
            }
            if (w_list.len() as u128) > limit {
                let mut p_set: Vec<u32> = Vec::new();
                let mut q: usize = 0;
                while q < s.len()
                    invariant
                        q <= s.len(),
                        p_set@ == s@.take(q as int),
                    decreases s.len() - q,
                {
                    p_set.push(s[q]);
                    q = q + 1;
                    proof {
                        assert(p_set@ =~= s@.take(q as int));
                    }
                }
                self.clear_scratch(&w_list);
                proof {
                    lemma_stop_round(self.graph.rows(), s@, d0, b, self.k as nat, limit as int, 0, round as nat);
                    assert(p_set@ =~= s@);
                    assert forall|x: int| 0 <= x < p_set.len() implies w_list@.contains(#[trigger] p_set@[x]) by {
                        assert(w_list@.take(s.len() as int)[x] == s@[x]);
                        assert(w_list@[x] == s@[x]);
                    }
                    assert(p_set.len() * self.k <= w_list.len()) by (nonlinear_arith)
                        requires
                            p_set.len() == s.len(),
                            w_list.len() > limit,
                            limit == self.k * s.len(),
                    ;
                }
                return (p_set, w_list);
            }
            std::mem::swap(&mut cur, &mut next);
            round = round + 1;
        }
        proof {
            lemma_stop_round(self.graph.rows(), s@, d0, b, self.k as nat, limit as int, 0, round as nat);
        }
        self.build_forest(&w_list);
        let p_set = self.pick_roots(&w_list);
        proof {
            lemma_children_are_forest(
                self.graph.rows(),
                self.now_dis@,
                w_list@,
                self.in_set@,
                self.parent@,
                self.children@,
            );
            lemma_pivots_are_roots(
                self.graph.rows(),
                self.now_dis@,
                w_list@,
                self.parent@,
                self.children@,
                p_set@,
                self.k as int,
            );
            if simple_rows(self.graph.rows()) {
                assert forall|i: int| 0 <= i < p_set@.len() implies is_pivot(
                    self.graph.rows(),
                    self.now_dis@,
                    w_list@,
                    self.k as int,
                    #[trigger] p_set@[i],
                ) by {
                    assert(p_set@.contains(p_set@[i]));
                }
                lemma_pivots_fit(self.graph.rows(), self.now_dis@, w_list@, self.k as int, p_set@);
            }
        }
        self.clear_scratch(&w_list);
        (p_set, w_list)
    }
}

/// A key as one number, in the same order.
pub open spec fn key_num(d: PathDist) -> int {
    d.hi * 18446744073709551616 + d.lo
}

/// A key as one number.
fn key_of(d: PathDist) -> (r: u128)
    ensures
        r == key_num(d),
{
    (d.hi as u128) * 18446744073709551616u128 + (d.lo as u128)
}

proof fn lemma_key_num_order(a: PathDist, b: PathDist)
    ensures
        pd_less(a, b) <==> key_num(a) < key_num(b),
        a == b <==> key_num(a) == key_num(b),
{
}

impl BMSSP {
    /// The base case of the recursion from the complete vertex `s` below the bound `b`:
    /// a search in the order of keys, with relaxations kept below `b`, that takes up
    /// to `k + 1` vertices, all reachable from `s`. When it takes at most `k`, they are
    /// all complete and the boundary stays `b`; otherwise the boundary becomes the
    /// largest key taken and the `k` vertices below it are complete. Every edge out of
    /// a complete vertex whose extension stays below `b` has been relaxed.
    pub fn base_case(&mut self, s: u32, b: PathDist) -> (r: BMSSPResult)
        requires
            old(self).wf(),
            s < old(self).rows().len(),
            pd_less(old(self).dists()[s as int], b),
        ensures
            final(self).wf(),
            final(self).rows() == old(self).rows(),
            final(self).k_spec() == old(self).k_spec(),
            final(self).t_spec() == old(self).t_spec(),
            final(self).top_spec() == old(self).top_spec(),
            final(self).source_spec() == old(self).source_spec(),
            final(self).epoch_spec() == (if old(self).epoch_spec() == u32::MAX {
                0
            } else {
                old(self).epoch_spec() + 1
            }),
            final(self).dists().len() == old(self).dists().len(),
            forall|v: int| 0 <= v < old(self).dists().len() ==> key_le(#[trigger] final(self).dists()[v], old(self).dists()[v]),
            key_le(r.new_boundary, b),
            r.complete@.no_duplicates(),
            r.complete.len() <= old(self).k_spec(),
            forall|i: int|
                0 <= i < r.complete.len() ==> #[trigger] r.complete@[i] < old(self).rows().len() && pd_less(
                    final(self).dists()[r.complete@[i] as int],
                    r.new_boundary,
                ) && final(self).marks()[r.complete@[i] as int] == final(self).epoch_spec(),
            old(self).marks()[s as int] != final(self).epoch_spec() && r.new_boundary == b ==> r.complete.len() >= 1
                && r.complete@[0] == s,
            r.new_boundary == b || (pd_less(r.new_boundary, b) && r.complete.len() == old(self).k_spec()),
            forall|i: int| 0 <= i < r.complete.len() ==> reaches(old(self).rows(), s as int, #[trigger] r.complete@[i] as int),
            pd_less(r.new_boundary, b) ==> exists|taken: Seq<u32>|
                {
                    &&& taken.len() == old(self).k_spec() + 1
                    &&& taken.no_duplicates()
                    &&& forall|i: int| 0 <= i < taken.len() ==> reaches(old(self).rows(), s as int, #[trigger] taken[i] as int)
                },
            forall|i: int|
                0 <= i < r.complete.len() ==> relaxed_out(
                    old(self).rows(),
                    final(self).dists(),
                    #[trigger] r.complete@[i],
                    b,
                    old(self).rows()[r.complete@[i] as int].len() as int,
                ),
    {
        let ghost n = self.graph.rows().len();
        let ghost d0 = self.now_dis@;
        let ghost e0 = self.epoch@;
        let k = self.k;
        let mut u0: Vec<u32> = Vec::new();
        self.cur_epoch = self.cur_epoch.wrapping_add(1);
        let ep = self.cur_epoch;
        let mut heap = MinQueue::new();
        heap.push(key_of(self.now_dis[s as usize]), s as usize);
        let ghost rows = self.graph.rows();
        let ghost mut floor: int = 0;
        proof {
            lemma_reaches_self(rows, s as int);
            lemma_key_num_order(d0[s as int], b);
            assert(heap.entries()[0] == (key_num(d0[s as int]) as u128, s as usize));
        }
        loop
            invariant
                self.wf(),
                n == self.graph.rows().len(),
                self.graph == old(self).graph,
                self.k == old(self).k,
                self.t == old(self).t,
                self.top_l == old(self).top_l,
                self.source == old(self).source,
                self.cur_epoch == ep,
                k == self.k,
                d0 == old(self).now_dis@,
                d0.len() == n,
                forall|v: int| 0 <= v < n ==> key_le(#[trigger] self.now_dis@[v], d0[v]),
                u0@.no_duplicates(),
                u0.len() <= k + 1,
                forall|i: int|
                    0 <= i < u0.len() ==> #[trigger] u0@[i] < n && pd_less(self.now_dis@[u0@[i] as int], b)
                        && self.epoch@[u0@[i] as int] == ep,
                forall|i: int| 0 <= i < heap.entries().len() ==> (#[trigger] heap.entries()[i]).1 < n,
                forall|i: int| 0 <= i < heap.entries().len() ==> (#[trigger] heap.entries()[i]).0 < key_num(b),
                e0 == old(self).epoch@,
                s < n,
                1 <= k,
                e0[s as int] != ep && u0.len() == 0 ==> self.now_dis@ == d0 && self.epoch@ == e0 && heap.entries() == seq![
                    (key_num(d0[s as int]) as u128, s as usize),
                ],
                e0[s as int] != ep ==> (u0.len() >= 1 ==> u0@[0] == s),
                rows == self.graph.rows(),
                forall|j: int| 0 <= j < heap.entries().len() ==> reaches(rows, s as int, (#[trigger] heap.entries()[j]).1 as int),
                forall|j: int| 0 <= j < u0.len() ==> reaches(rows, s as int, #[trigger] u0@[j] as int),
                floor >= 0,
                forall|j: int| 0 <= j < heap.entries().len() ==> (#[trigger] heap.entries()[j]).0 >= floor,
                forall|j: int| 0 <= j < u0.len() ==> key_num(self.now_dis@[#[trigger] u0@[j] as int]) <= floor,
                forall|j: int| 0 <= j < u0.len() ==> relaxed_out(rows, self.now_dis@, #[trigger] u0@[j], b, rows[u0@[j] as int].len() as int),
            ensures
                e0[s as int] != ep ==> u0.len() >= 1 && u0@[0] == s,
            decreases k + 1 - u0.len(), heap@.len(),
        {
            if u0.len() >= k + 1 {
                break;
            }
            proof {
                heap.lemma_entries_view();
            }
            let ghost hq = heap.entries();
            let popped = heap.pop();
            let (key, id) = match popped {
                Some(x) => x,
                None => {
                    break;
                },
            };
            proof {
                heap.lemma_entries_view();
                let i = choose|i: int| 0 <= i < hq.len() && hq[i] == (key, id) && heap.entries() == hq.remove(i);
                assert(hq[i].1 < n);
                assert forall|j: int| 0 <= j < heap.entries().len() implies (#[trigger] heap.entries()[j]).1 < n
                    && heap.entries()[j].0 < key_num(b) by {
                    if j < i {
                        assert(heap.entries()[j] == hq[j]);
                    } else {
                        assert(heap.entries()[j] == hq[j + 1]);
                    }
                }
                assert forall|j: int| 0 <= j < heap.entries().len() implies reaches(rows, s as int, (#[trigger] heap.entries()[j]).1 as int) by {
                    if j < i {
                        assert(heap.entries()[j] == hq[j]);
                    } else {
                        assert(heap.entries()[j] == hq[j + 1]);
                    }
                }
                assert(reaches(rows, s as int, hq[i].1 as int));
                hq.to_multiset_ensures();
                assert(key >= floor);
                assert forall|j: int| 0 <= j < heap.entries().len() implies (#[trigger] heap.entries()[j]).0 >= key by {
                    let y = if j < i { hq[j] } else { hq[j + 1] };
                    if j < i {
                        assert(heap.entries()[j] == hq[j]);
                    } else {
                        assert(heap.entries()[j] == hq[j + 1]);
                    }
                    assert(hq.contains(y));
                    assert(hq.to_multiset().count(y) > 0);
                }
                floor = key as int;
            }
            let u = id as u32;
            let u_dis = self.now_dis[id];
            proof {
                lemma_sound_at(self.graph.rows(), self.source as int, self.now_dis@, id as int);
            }
            if key_of(u_dis) != key {
                continue;
            }
            if self.epoch[id] == ep {
                continue;
            }
            proof {
                lemma_key_num_order(u_dis, b);
                assert(!u0@.contains(u)) by {
                    if u0@.contains(u) {
                        let q = choose|q: int| 0 <= q < u0.len() && u0@[q] == u;
                        assert(self.epoch@[u0@[q] as int] == ep);
                    }
                }
            }
            self.epoch.set(id, ep);
            let ghost before_u0 = u0@;
            u0.push(u);
            proof {
                assert forall|j: int| 0 <= j < u0.len() implies reaches(rows, s as int, #[trigger] u0@[j] as int) by {
                    if j < before_u0.len() {
                        assert(u0@[j] == before_u0[j]);
                    }
                }
                assert forall|i: int|
                    0 <= i < u0.len() implies #[trigger] u0@[i] < n && pd_less(self.now_dis@[u0@[i] as int], b)
                        && self.epoch@[u0@[i] as int] == ep by {
                    if i < before_u0.len() {
                        assert(u0@[i] == before_u0[i]);
                    }
                }
                assert(u0@.no_duplicates()) by {
                    assert forall|x: int, y: int| 0 <= x < y < u0.len() implies u0@[x] != u0@[y] by {
                        if y == u0.len() - 1 {
                            assert(before_u0.contains(u0@[x]) ==> before_u0.contains(u0@[x]));
                            assert(u0@[x] == before_u0[x]);
                        } else {
                            assert(u0@[x] == before_u0[x] && u0@[y] == before_u0[y]);
                        }
                    }
                }
            }
            proof {
                lemma_key_num_order(u_dis, u_dis);
                assert(u0@[u0.len() - 1] == u);
                assert forall|j: int| 0 <= j < u0.len() implies key_num(self.now_dis@[#[trigger] u0@[j] as int]) <= floor by {
                    if j < before_u0.len() {
                        assert(u0@[j] == before_u0[j]);
                    }
                }
                assert forall|j: int| 0 <= j < u0.len() - 1 implies relaxed_out(rows, self.now_dis@, #[trigger] u0@[j], b, rows[u0@[j] as int].len() as int) by {
                    assert(u0@[j] == before_u0[j]);
                }
            }
            let (dsts, wts) = self.graph.neighbors(id);
            let mut i: usize = 0;
            while i < dsts.len()
                invariant
                    self.wf(),
                    n == self.graph.rows().len(),
                    self.graph == old(self).graph,
                    self.k == old(self).k,
                    self.t == old(self).t,
                    self.top_l == old(self).top_l,
                    self.source == old(self).source,
                    self.cur_epoch == ep,
                    k == self.k,
                    d0 == old(self).now_dis@,
                    d0.len() == n,
                    u < n,
                    id == u,
                    forall|v: int| 0 <= v < n ==> key_le(#[trigger] self.now_dis@[v], d0[v]),
                    u0@.no_duplicates(),
                    u_dis.hi < u64::MAX ==> walk_weighs(self.graph.rows(), self.source as int, u as int, u_dis.hi as int),
                    u0.len() <= k + 1,
                    forall|j: int|
                        0 <= j < u0.len() ==> #[trigger] u0@[j] < n && pd_less(self.now_dis@[u0@[j] as int], b)
                            && self.epoch@[u0@[j] as int] == ep,
                    forall|j: int| 0 <= j < heap.entries().len() ==> (#[trigger] heap.entries()[j]).1 < n,
                    forall|j: int| 0 <= j < heap.entries().len() ==> (#[trigger] heap.entries()[j]).0 < key_num(b),
                    dsts@.len() == wts@.len(),
                    dsts@.len() == self.graph.rows()[u as int].len(),
                    forall|e: int| 0 <= e < dsts@.len() ==> (#[trigger] dsts@[e], wts@[e]) == self.graph.rows()[u as int][e],
                    i <= dsts.len(),
                    e0 == old(self).epoch@,
                    s < n,
                    1 <= k,
                    u0.len() >= 1,
                    e0[s as int] != ep ==> u0@[0] == s,
                    rows == self.graph.rows(),
                    reaches(rows, s as int, u as int),
                    forall|j: int| 0 <= j < heap.entries().len() ==> reaches(rows, s as int, (#[trigger] heap.entries()[j]).1 as int),
                    forall|j: int| 0 <= j < u0.len() ==> reaches(rows, s as int, #[trigger] u0@[j] as int),
                    floor >= 0,
                    floor == key_num(u_dis),
                    u0@[u0.len() - 1] == u,
                    self.now_dis@[u as int] == u_dis,
                    forall|j: int| 0 <= j < heap.entries().len() ==> (#[trigger] heap.entries()[j]).0 >= floor,
                    forall|j: int| 0 <= j < u0.len() ==> key_num(self.now_dis@[#[trigger] u0@[j] as int]) <= floor,
                    forall|j: int|
                        0 <= j < u0.len() - 1 ==> relaxed_out(rows, self.now_dis@, #[trigger] u0@[j], b, rows[u0@[j] as int].len() as int),
                    relaxed_out(rows, self.now_dis@, u, b, i as int),
                decreases dsts.len() - i,
            {
                let v = dsts[i];
                let w = wts[i];
                proof {
                    assert(self.graph.rows()[u as int][i as int].0 == v);
                    assert(v < n);
                }
                match extend(u_dis, w, v, u) {
                    Some(relaxed) => {
                        if relaxed.is_less(&b) && !self.now_dis[v as usize].is_less(&relaxed) {
                            let ghost dv = self.now_dis@;
                            let ghost hq2 = heap.entries();
                            self.now_dis.set(v as usize, relaxed);
                            proof {
                                if relaxed.hi < u64::MAX {
                                    lemma_walk_step(self.graph.rows(), self.source as int, u as int, i as int, u_dis.hi as int);
                                }
                                lemma_sound_update(self.graph.rows(), self.source as int, dv, v as int, relaxed);
                                lemma_extend_end(u_dis, w, v, u);
                                lemma_ends_update(dv, v as int, relaxed);
                            }
                            heap.push(key_of(relaxed), v as usize);
                            proof {
                                lemma_key_num_order(relaxed, b);
                                assert forall|x: int| 0 <= x < n implies key_le(#[trigger] self.now_dis@[x], d0[x]) by {
                                    if x == v {
                                        lemma_key_order(relaxed, dv[x], d0[x]);
                                    }
                                }
                                assert forall|j: int|
                                    0 <= j < u0.len() implies #[trigger] u0@[j] < n && pd_less(self.now_dis@[u0@[j] as int], b)
                                        && self.epoch@[u0@[j] as int] == ep by {
                                    if u0@[j] == v {
                                        lemma_key_order(relaxed, dv[v as int], b);
                                    }
                                }
                                assert forall|j: int| 0 <= j < heap.entries().len() implies (#[trigger] heap.entries()[j]).1 < n
                                    && heap.entries()[j].0 < key_num(b) by {
                                    if j < hq2.len() {
                                        assert(heap.entries()[j] == hq2[j]);
                                    }
                                }
                                lemma_reaches_step(rows, s as int, u as int, i as int);
                                assert forall|j: int| 0 <= j < heap.entries().len() implies reaches(rows, s as int, (#[trigger] heap.entries()[j]).1 as int) by {
                                    if j < hq2.len() {
                                        assert(heap.entries()[j] == hq2[j]);
                                    }
                                }
                                lemma_extend_grows(u_dis, w, v, u);
                                lemma_key_num_order(u_dis, relaxed);
                                assert forall|j: int| 0 <= j < u0.len() implies #[trigger] u0@[j] != v by {
                                    lemma_key_num_order(dv[u0@[j] as int], relaxed);
                                }
                                assert(u != v);
                                let d2 = self.now_dis@;
                                assert forall|y: int| 0 <= y < dv.len() implies key_le(#[trigger] d2[y], dv[y]) by {
                                    if y == v {
                                    } else {
                                        assert(d2[y] == dv[y]);
                                    }
                                }
                                assert forall|j: int| 0 <= j < u0.len() implies key_num(self.now_dis@[#[trigger] u0@[j] as int]) <= floor by {
                                    assert(d2[u0@[j] as int] == dv[u0@[j] as int]);
                                }
                                assert forall|j: int| 0 <= j < u0.len() - 1 implies relaxed_out(rows, self.now_dis@, #[trigger] u0@[j], b, rows[u0@[j] as int].len() as int) by {
                                    assert(d2[u0@[j] as int] == dv[u0@[j] as int]);
                                    lemma_relaxed_out_lower(rows, dv, d2, u0@[j], b, rows[u0@[j] as int].len() as int);
                                }
                                lemma_relaxed_out_lower(rows, dv, d2, u, b, i as int);
                                assert forall|j: int| 0 <= j < heap.entries().len() implies (#[trigger] heap.entries()[j]).0 >= floor by {
                                    if j < hq2.len() {
                                        assert(heap.entries()[j] == hq2[j]);
                                    }
                                }
                            }
                        }
                    },
                    None => {},
                }
                proof {
                    assert(rows[u as int][i as int] == (v, w));
                    assert(edge_relaxed(rows, self.now_dis@, u, i as int, b)) by {
                        if extendable(u_dis, w) && pd_less(extend_key(u_dis, w, v, u), b) {
                            lemma_key_order(self.now_dis@[v as int], self.now_dis@[v as int], self.now_dis@[v as int]);
                        }
                    }
                    assert forall|e: int| 0 <= e < i + 1 implies #[trigger] edge_relaxed(rows, self.now_dis@, u, e, b) by {
                        if e < i {
                            assert(relaxed_out(rows, self.now_dis@, u, b, i as int));
                        }
                    }
                }
                i = i + 1;
            }
            proof {
                assert forall|j: int| 0 <= j < u0.len() implies relaxed_out(rows, self.now_dis@, #[trigger] u0@[j], b, rows[u0@[j] as int].len() as int) by {
                    if j == u0.len() - 1 {
                        assert(u0@[j] == u);
                    }
                }
            }
        }
        if u0.len() <= k {
            return BMSSPResult { new_boundary: b, complete: u0 };
        }
        let mut nb = self.now_dis[u0[0] as usize];
        let ghost mut jm: int = 0;
        let mut j: usize = 1;
        while j < u0.len()
            invariant
                1 <= j <= u0.len(),
                0 <= jm < j,
                u0.len() == k + 1,
                forall|i: int|
                    0 <= i < u0.len() ==> #[trigger] u0@[i] < n && pd_less(self.now_dis@[u0@[i] as int], b)
                        && self.epoch@[u0@[i] as int] == ep,
                self.now_dis@.len() == n,
                nb == self.now_dis@[u0@[jm] as int],
                forall|i: int| 0 <= i < j ==> key_le(self.now_dis@[#[trigger] u0@[i] as int], nb),
                rows == self.graph.rows(),
                forall|q: int| 0 <= q < u0.len() ==> relaxed_out(rows, self.now_dis@, #[trigger] u0@[q], b, rows[u0@[q] as int].len() as int),
            decreases u0.len() - j,
        {
            let x = self.now_dis[u0[j] as usize];
            if nb.is_less(&x) {
                nb = x;
                proof {
                    jm = j as int;
                    assert forall|i: int| 0 <= i < j + 1 implies key_le(self.now_dis@[#[trigger] u0@[i] as int], nb) by {
                        if i < j {
                            lemma_key_order(self.now_dis@[u0@[i] as int], self.now_dis@[u0@[jm] as int], nb);
                        }
                    }
                }
            }
            j = j + 1;
        }
        proof {
            assert(u0@.len() == k + 1 && u0@.no_duplicates());
            assert(forall|i: int| 0 <= i < u0@.len() ==> reaches(rows, s as int, #[trigger] u0@[i] as int));
            reveal(ends_recorded);
            assert forall|i: int| 0 <= i < u0.len() implies #[trigger] self.now_dis@[u0@[i] as int].end_spec() == u0@[i] by {
                assert(u0@[i] < n);
                assert(self.now_dis@[u0@[i] as int] != unreached_key());
            }
        }
        let mut complete: Vec<u32> = Vec::new();
        let mut q: usize = 0;
        while q < u0.len()
            invariant
                forall|i: int| 0 <= i < u0.len() ==> #[trigger] self.now_dis@[u0@[i] as int].end_spec() == u0@[i],
                forall|i: int| 0 <= i < u0.len() ==> key_le(self.now_dis@[#[trigger] u0@[i] as int], nb),
                rows == self.graph.rows(),
                forall|q: int| 0 <= q < u0.len() ==> relaxed_out(rows, self.now_dis@, #[trigger] u0@[q], b, rows[u0@[q] as int].len() as int),
                complete.len() == q - (if jm < q { 1int } else { 0 }),
                q <= u0.len(),
                0 <= jm < u0.len(),
                u0.len() == k + 1,
                u0@.no_duplicates(),
                forall|i: int|
                    0 <= i < u0.len() ==> #[trigger] u0@[i] < n && pd_less(self.now_dis@[u0@[i] as int], b)
                        && self.epoch@[u0@[i] as int] == ep,
                self.now_dis@.len() == n,
                nb == self.now_dis@[u0@[jm] as int],
                complete.len() <= q - (if jm < q { 1int } else { 0 }),
                complete@.no_duplicates(),
                forall|i: int| 0 <= i < complete.len() ==> u0@.take(q as int).contains(#[trigger] complete@[i]),
                forall|i: int|
                    0 <= i < complete.len() ==> #[trigger] complete@[i] < n && pd_less(self.now_dis@[complete@[i] as int], nb)
                        && self.epoch@[complete@[i] as int] == ep,
            decreases u0.len() - q,
        {
            let v = u0[q];
            let ghost c0 = complete@;
            proof {
                if q != jm {
                    assert(u0@[q as int] != u0@[jm]);
                    assert(self.now_dis@[u0@[q as int] as int].end_spec() == u0@[q as int]);
                    assert(self.now_dis@[u0@[jm] as int].end_spec() == u0@[jm]);
                    assert(self.now_dis@[v as int] != nb);
                    assert(key_le(self.now_dis@[v as int], nb));
                }
            }
            if self.now_dis[v as usize].is_less(&nb) {
                complete.push(v);
                proof {
                    assert(q != jm);
                    assert(!c0.contains(v)) by {
                        if c0.contains(v) {
                            let t = choose|t: int| 0 <= t < c0.len() && c0[t] == v;
                            assert(u0@.take(q as int).contains(c0[t]));
                            let z = choose|z: int| 0 <= z < q && u0@.take(q as int)[z] == v;
                            assert(u0@[z] == u0@[q as int]);
                        }
                    }
                }
            }
            proof {
                assert forall|i: int| 0 <= i < complete.len() implies u0@.take(q + 1).contains(#[trigger] complete@[i]) by {
                    if i < c0.len() {
                        assert(complete@[i] == c0[i]);
                        assert(u0@.take(q as int).contains(c0[i]));
                        let z = choose|z: int| 0 <= z < q && u0@.take(q as int)[z] == c0[i];
                        assert(u0@.take(q + 1)[z] == c0[i]);
                    } else {
                        assert(u0@.take(q + 1)[q as int] == v);
                    }
                }
                assert(complete@.no_duplicates()) by {
                    assert forall|x: int, y: int| 0 <= x < y < complete.len() implies complete@[x] != complete@[y] by {
                        if y < c0.len() {
                            assert(c0[x] != c0[y]);
                        } else {
                            assert(complete@[x] == c0[x]);
                        }
                    }
                }
            }
            q = q + 1;
        }
        proof {
            lemma_key_num_order(nb, b);
            let t = jm;
            assert(pd_less(self.now_dis@[u0@[t] as int], b));
            assert forall|i: int| 0 <= i < complete.len() implies relaxed_out(
                rows,
                self.now_dis@,
                #[trigger] complete@[i],
                b,
                rows[complete@[i] as int].len() as int,
            ) by {
                assert(u0@.take(u0.len() as int).contains(complete@[i]));
                let z = choose|z: int| 0 <= z < u0.len() && u0@.take(u0.len() as int)[z] == complete@[i];
                assert(u0@[z] == complete@[i]);
            }
        }
        BMSSPResult { new_boundary: nb, complete }
    }
}

impl BMSSP {
    /// Starts a new epoch of marks and returns it.
    pub fn next_epoch(&mut self) -> (ep: u32)
        ensures
            ep == final(self).epoch_spec(),
            ep == (if old(self).epoch_spec() == u32::MAX {
                0
            } else {
                old(self).epoch_spec() + 1
            }),
            final(self).wf() == old(self).wf(),
            final(self).rows() == old(self).rows(),
            final(self).dists() == old(self).dists(),
            final(self).marks() == old(self).marks(),
            final(self).k_spec() == old(self).k_spec(),
            final(self).t_spec() == old(self).t_spec(),
            final(self).top_spec() == old(self).top_spec(),
            final(self).source_spec() == old(self).source_spec(),
    {
        self.cur_epoch = self.cur_epoch.wrapping_add(1);
        self.cur_epoch
    }

    /// Marks vertex `u` with epoch `ep`; returns whether it was not marked with it
    /// before.
    pub fn mark(&mut self, u: u32, ep: u32) -> (fresh: bool)
        requires
            old(self).wf(),
            u < old(self).rows().len(),
        ensures
            fresh == (old(self).marks()[u as int] != ep),
            final(self).marks() == old(self).marks().update(u as int, ep),
            final(self).wf(),
            final(self).epoch_spec() == old(self).epoch_spec(),
            final(self).rows() == old(self).rows(),
            final(self).dists() == old(self).dists(),
            final(self).k_spec() == old(self).k_spec(),
            final(self).t_spec() == old(self).t_spec(),
            final(self).top_spec() == old(self).top_spec(),
            final(self).source_spec() == old(self).source_spec(),
    {
        let fresh = self.epoch[u as usize] != ep;
        self.epoch.set(u as usize, ep);
        fresh
    }

    /// Relaxes every out-edge of `u`: each edge whose extension of the estimate of `u`
    /// improves on (or ties) the estimate of its target sets it, and is listed as
    /// `(target, key)` in edge order.
    pub fn relax_from(&mut self, u: u32) -> (improved: Vec<(u32, PathDist)>)
        requires
            old(self).wf(),
            u < old(self).rows().len(),
        ensures
            final(self).wf(),
            final(self).rows() == old(self).rows(),
            final(self).marks() == old(self).marks(),
            final(self).epoch_spec() == old(self).epoch_spec(),
            final(self).k_spec() == old(self).k_spec(),
            final(self).t_spec() == old(self).t_spec(),
            final(self).top_spec() == old(self).top_spec(),
            final(self).source_spec() == old(self).source_spec(),
            final(self).dists().len() == old(self).dists().len(),
            forall|v: int| 0 <= v < old(self).dists().len() ==> key_le(#[trigger] final(self).dists()[v], old(self).dists()[v]),
            forall|i: int|
                0 <= i < improved.len() ==> {
                    let (v, d) = #[trigger] improved@[i];
                    &&& v < old(self).rows().len()
                    &&& d.end_spec() == v
                    &&& key_le(final(self).dists()[v as int], d)
                    &&& key_le(d, old(self).dists()[v as int])
                },
            final(self).dists() == relax_edges(
                old(self).rows()[u as int],
                old(self).dists()[u as int],
                u,
                old(self).dists(),
                old(self).rows()[u as int].len(),
            ),
            improved@ == relaxed_pairs(
                old(self).rows()[u as int],
                old(self).dists()[u as int],
                u,
                old(self).dists(),
                old(self).rows()[u as int].len(),
            ),
    {
        let ghost n = self.graph.rows().len();
        let ghost d0 = self.now_dis@;
        let u_dis = self.now_dis[u as usize];
        proof {
            lemma_sound_at(self.graph.rows(), self.source as int, self.now_dis@, u as int);
        }
        let (dsts, wts) = self.graph.neighbors(u as usize);
        let mut improved: Vec<(u32, PathDist)> = Vec::new();
        let mut i: usize = 0;
        while i < dsts.len()
            invariant
                self.wf(),
                u_dis.hi < u64::MAX ==> walk_weighs(self.graph.rows(), self.source as int, u as int, u_dis.hi as int),
                n == self.graph.rows().len(),
                self.graph == old(self).graph,
                self.epoch == old(self).epoch,
                self.cur_epoch == old(self).cur_epoch,
                self.k == old(self).k,
                self.t == old(self).t,
                self.top_l == old(self).top_l,
                self.source == old(self).source,
                d0 == old(self).now_dis@,
                d0.len() == n,
                u < n,
                forall|v: int| 0 <= v < n ==> key_le(#[trigger] self.now_dis@[v], d0[v]),
                dsts@.len() == wts@.len(),
                dsts@.len() == self.graph.rows()[u as int].len(),
                forall|e: int| 0 <= e < dsts@.len() ==> (#[trigger] dsts@[e], wts@[e]) == self.graph.rows()[u as int][e],
                i <= dsts.len(),
                u_dis == d0[u as int],
                self.now_dis@ == relax_edges(self.graph.rows()[u as int], u_dis, u, d0, i as nat),
                improved@ == relaxed_pairs(self.graph.rows()[u as int], u_dis, u, d0, i as nat),
                forall|j: int|
                    0 <= j < improved.len() ==> {
                        let (v, d) = #[trigger] improved@[j];
                        &&& v < n
                        &&& d.end_spec() == v
                        &&& key_le(self.now_dis@[v as int], d)
                        &&& key_le(d, d0[v as int])
                    },
            decreases dsts.len() - i,
        {
            let v = dsts[i];
            let w = wts[i];
            proof {
                assert(self.graph.rows()[u as int][i as int].0 == v);
            }
            match extend(u_dis, w, v, u) {
                Some(relaxed) => {
                    if !self.now_dis[v as usize].is_less(&relaxed) {
                        let ghost dv = self.now_dis@;
                        let ghost imp0 = improved@;
                        self.now_dis.set(v as usize, relaxed);
                        proof {
                            if relaxed.hi < u64::MAX {
                                lemma_walk_step(self.graph.rows(), self.source as int, u as int, i as int, u_dis.hi as int);
                            }
                            lemma_sound_update(self.graph.rows(), self.source as int, dv, v as int, relaxed);
                            lemma_extend_end(u_dis, w, v, u);
                            lemma_ends_update(dv, v as int, relaxed);
                        }
                        improved.push((v, relaxed));
                        proof {
                            lemma_hop_bound(u_dis);
                            crate::algorithms::bmssp::path_dist::lemma_pack_low_fields(
                                (u_dis.hop_spec() + 1) as u64,
                                v as u64,
                                u as u64,
                            );
                            lemma_key_order(relaxed, dv[v as int], d0[v as int]);
                            assert forall|x: int| 0 <= x < n implies key_le(#[trigger] self.now_dis@[x], d0[x]) by {}
                            assert forall|j: int| 0 <= j < improved.len() implies {
                                let (x, d) = #[trigger] improved@[j];
                                &&& x < n
                                &&& d.end_spec() == x
                                &&& key_le(self.now_dis@[x as int], d)
                                &&& key_le(d, d0[x as int])
                            } by {
                                if j < imp0.len() {
                                    let (x, d) = imp0[j];
                                    assert(improved@[j] == imp0[j]);
                                    if x == v {
                                        lemma_key_order(relaxed, dv[v as int], d);
                                    }
                                } else {
                                    lemma_key_order(relaxed, relaxed, relaxed);
                                }
                            }
                        }
                    }
                },
                None => {},
            }
            i = i + 1;
        }
        improved
    }
}

} // verus!
