//! The recursion of bounded multi-source shortest paths: find pivots, keep the
//! frontier in a block structure, solve each pulled batch one level down, relax out of
//! the vertices it completes, and hand back the vertices made complete below a new
//! boundary.
use vstd::prelude::*;
use vstd::arithmetic::power2::{lemma_pow2_unfold, pow2};
use super::{
    BMSSP,
    BMSSPResult,
    estimates_sound,
    key_le,
    relax_edges,
    round_dists,
    settled_lengths,
    shortest_estimates,
    lemma_settled_is_shortest,
    reaches,
    relaxed_out,
    lemma_shortest_below_relaxed,
    lemma_shortest_is_settled,
    lemma_key_order,
};
use super::block_ds::{BlockDs, PullResult, NONE, pd_le, pd_is_max};
use super::path_dist::{PathDist, pd_less};

verus! {

/// Scratch space of the recursion: a key buffer per level and a pool of values.
struct Scratch {
    bufs: Vec<Vec<u32>>,
    pool: Vec<PathDist>,
}

/// The buffers of levels `0..=upto` hold [`NONE`] at each of `n` keys.
pub open spec fn bufs_ready(bufs: Seq<Vec<u32>>, n: int, upto: int) -> bool {
    forall|j: int|
        0 <= j <= upto ==> (#[trigger] bufs[j])@.len() == n && forall|x: int| 0 <= x < n ==> bufs[j]@[x] == NONE
}

/// The pool holds the largest key at each of `n` keys.
pub open spec fn pool_ready(pool: Seq<PathDist>, n: int) -> bool {
    &&& pool.len() == n
    &&& forall|x: int| 0 <= x < n ==> pd_is_max(#[trigger] pool[x])
}

/// Two states over the same graph with the same parameters.
pub open spec fn same_setup(a: BMSSP, b: BMSSP) -> bool {
    &&& a.rows() == b.rows()
    &&& a.k_spec() == b.k_spec()
    &&& a.t_spec() == b.t_spec()
    &&& a.top_spec() == b.top_spec()
    &&& a.source_spec() == b.source_spec()
}

/// `2^e`, unless it overflows.
fn pow2_checked(e: usize) -> (r: Option<usize>)
    ensures
        r matches Some(v) ==> v == pow2(e as nat),
        r is None <==> pow2(e as nat) > usize::MAX,
{
    let mut v: usize = 1;
    let mut i: usize = 0;
    proof {
        vstd::arithmetic::power::lemma_pow0(2);
    }
    while i < e
        invariant
            i <= e,
            v == pow2(i as nat),
        decreases e - i,
    {
        proof {
            lemma_pow2_unfold((i + 1) as nat);
        }
        match v.checked_mul(2) {
            Some(x) => {
                v = x;
            },
            None => {
                proof {
                    if i + 1 < e {
                        vstd::arithmetic::power2::lemma_pow2_strictly_increases((i + 1) as nat, e as nat);
                    }
                }
                return None;
            },
        }
        i = i + 1;
    }
    Some(v)
}

/// Estimates below estimates that lie below two others lie below those two too.
proof fn lemma_below_both(a: Seq<PathDist>, m: Seq<PathDist>, c1: Seq<PathDist>, c2: Seq<PathDist>, n: int)
    requires
        forall|v: int| 0 <= v < n ==> key_le(#[trigger] a[v], m[v]),
        forall|v: int| 0 <= v < n ==> key_le(#[trigger] m[v], c1[v]),
        forall|v: int| 0 <= v < n ==> key_le(#[trigger] m[v], c2[v]),
    ensures
        forall|v: int| 0 <= v < n ==> key_le(#[trigger] a[v], c1[v]),
        forall|v: int| 0 <= v < n ==> key_le(#[trigger] a[v], c2[v]),
{
}

impl BMSSP {
    /// One call of the recursion at level `l`, from the complete vertices `s`, below the
    /// bound `b`. `None` where a check that the recursion relies on fails: `s` empty or
    /// larger than `2^(l t)`, at level 0 more than one vertex or one not below `b`, a
    /// frontier key that does not end at its vertex or is above `b`, a count that
    /// overflows, or more than `2^32` nodes in a block structure. The main loop counts
    /// its rounds in a `u64` and also stops after `u64::MAX` of them.
    fn bmssp(&mut self, l: usize, s: &[u32], b: PathDist, sc: &mut Scratch) -> (r: Option<BMSSPResult>)
        requires
            old(self).wf(),
            l <= old(self).top_spec(),
            s@.no_duplicates(),
            forall|i: int| 0 <= i < s.len() ==> #[trigger] s@[i] < old(self).rows().len(),
            old(sc).bufs.len() > l,
            bufs_ready(old(sc).bufs@, old(self).rows().len() as int, l as int),
            pool_ready(old(sc).pool@, old(self).rows().len() as int),
        ensures
            final(self).wf(),
            final(self).rows() == old(self).rows(),
            final(self).k_spec() == old(self).k_spec(),
            final(self).t_spec() == old(self).t_spec(),
            final(self).top_spec() == old(self).top_spec(),
            final(self).source_spec() == old(self).source_spec(),
            r matches Some(res) ==> {
                &&& key_le(res.new_boundary, b)
                &&& forall|i: int| 0 <= i < res.complete.len() ==> #[trigger] res.complete@[i] < old(self).rows().len()
                &&& final(sc).bufs.len() == old(sc).bufs.len()
                &&& bufs_ready(final(sc).bufs@, old(self).rows().len() as int, l as int)
                &&& forall|j: int| l < j < old(sc).bufs.len() ==> #[trigger] final(sc).bufs@[j] == old(sc).bufs@[j]
                &&& pool_ready(final(sc).pool@, old(self).rows().len() as int)
            },
            final(self).dists().len() == old(self).dists().len(),
            forall|v: int| 0 <= v < old(self).dists().len() ==> key_le(#[trigger] final(self).dists()[v], old(self).dists()[v]),
            s.len() == 0 ==> r is None,
            s.len() > pow2((old(self).t_spec() * l) as nat) ==> r is None,
            l == 0 ==> (r is Some <==> s.len() == 1 && pd_less(old(self).dists()[s@[0] as int], b)),
            l == 0 ==> (r matches Some(res) ==> {
                &&& res.complete@.no_duplicates()
                &&& res.complete.len() <= old(self).k_spec()
                &&& forall|i: int|
                    0 <= i < res.complete.len() ==> pd_less(final(self).dists()[#[trigger] res.complete@[i] as int], res.new_boundary)
                &&& res.new_boundary == b || (pd_less(res.new_boundary, b) && res.complete.len() == old(self).k_spec())
                &&& old(self).marks()[s@[0] as int] != final(self).epoch_spec() && res.new_boundary == b ==> res.complete.len() >= 1
                    && res.complete@[0] == s@[0]
                &&& forall|i: int|
                    0 <= i < res.complete.len() ==> reaches(old(self).rows(), s@[0] as int, #[trigger] res.complete@[i] as int)
                &&& pd_less(res.new_boundary, b) ==> exists|taken: Seq<u32>|
                    {
                        &&& taken.len() == old(self).k_spec() + 1
                        &&& taken.no_duplicates()
                        &&& forall|i: int| 0 <= i < taken.len() ==> reaches(old(self).rows(), s@[0] as int, #[trigger] taken[i] as int)
                    }
                &&& forall|i: int|
                    0 <= i < res.complete.len() ==> relaxed_out(
                        old(self).rows(),
                        final(self).dists(),
                        #[trigger] res.complete@[i],
                        b,
                        old(self).rows()[res.complete@[i] as int].len() as int,
                    )
            }),
            l > 0 ==> (r is Some ==> forall|v: int|
                0 <= v < old(self).dists().len() ==> key_le(
                    #[trigger] final(self).dists()[v],
                    round_dists(old(self).rows(), s@, old(self).dists(), s.len() as nat)[v],
                )),
        decreases l,
    {
        proof {
            self.lemma_wf_sizes();
            vstd::arithmetic::power2::lemma2_to64();
        }
        let ghost n = self.rows().len() as int;
        let ghost sc0 = *sc;
        let ghost d_in = self.dists();
        let ghost r1 = round_dists(self.rows(), s@, d_in, s.len() as nat);
        let t = self.t();
        let k = self.k();
        let tl = match t.checked_mul(l) {
            Some(x) => x,
            None => {
                return None;
            },
        };
        let size_limit = match pow2_checked(tl) {
            Some(x) => x,
            None => {
                return None;
            },
        };
        let k_size_limit = match k.checked_mul(size_limit) {
            Some(x) => x,
            None => {
                return None;
            },
        };
        if s.len() == 0 || s.len() > size_limit {
            return None;
        }
        if l == 0 {
            if s.len() != 1 {
                return None;
            }
            let d = self.dist(s[0]);
            if !d.is_less(&b) {
                return None;
            }
            let res = self.base_case(s[0], b);
            return Some(res);
        }
        let (p_set, w_set) = self.find_pivots(s, b);
        proof {
            self.lemma_wf_sizes();
        }
        let lower = match (l - 1).checked_mul(t) {
            Some(x) => x,
            None => {
                return None;
            },
        };
        let m = match pow2_checked(lower) {
            Some(x) => x,
            None => {
                return None;
            },
        };
        if m > 4294967295usize {
            return None;
        }
        let mut buf: Vec<u32> = Vec::new();
        std::mem::swap(&mut buf, &mut sc.bufs[l]);
        assert(buf@.len() == n);
        let mut ds = BlockDs::new(m, b, buf);
        let mut now_boundary = PathDist::max_value();
        let mut i: usize = 0;
        while i < p_set.len()
            invariant
                self.wf(),
                same_setup(*self, *old(self)),
                n == self.rows().len(),
                forall|v: int| 0 <= v < n ==> key_le(#[trigger] self.dists()[v], d_in[v]),
                forall|v: int| 0 <= v < n ==> key_le(#[trigger] self.dists()[v], r1[v]),
                d_in == old(self).dists(),
                d_in.len() == n,
                l >= 1,
                r1 == round_dists(old(self).rows(), s@, d_in, s.len() as nat),
                self.dists().len() == n,
                forall|j: int| 0 <= j < p_set.len() ==> p_set@[j] < n,
                ds.wf(),
                ds.bound() == b,
                ds.key_range() == n,
                ds.batch() >= 1,
                ds.used() < NONE,
                i <= p_set.len(),
            decreases p_set.len() - i,
        {
            let x = p_set[i];
            let dis = self.dist(x);
            if dis.end() != x || b.is_less(&dis) || ds.used_count() + 2 >= 4294967295u64 {
                return None;
            }
            ds.insert(x, dis);
            if dis.is_less(&now_boundary) {
                now_boundary = dis;
            }
            i = i + 1;
        }
        let mut u_set: Vec<u32> = Vec::new();
        let mut u_count: usize = 0;
        let ep = self.next_epoch();
        let mut k_buf: Vec<(u32, PathDist)> = Vec::new();
        let mut rounds: u64 = 0;
        while u_count < k_size_limit && !ds.is_empty() && rounds < u64::MAX
            invariant
                self.wf(),
                n == self.rows().len(),
                forall|v: int| 0 <= v < n ==> key_le(#[trigger] self.dists()[v], d_in[v]),
                forall|v: int| 0 <= v < n ==> key_le(#[trigger] self.dists()[v], r1[v]),
                d_in == old(self).dists(),
                d_in.len() == n,
                l >= 1,
                r1 == round_dists(old(self).rows(), s@, d_in, s.len() as nat),
                self.dists().len() == n,
                self.rows() == old(self).rows(),
                self.k_spec() == old(self).k_spec(),
                self.t_spec() == old(self).t_spec(),
                self.top_spec() == old(self).top_spec(),
                self.source_spec() == old(self).source_spec(),
                1 <= l <= self.top_spec(),
                ds.wf(),
                ds.bound() == b,
                ds.key_range() == n,
                ds.batch() >= 1,
                ds.used() < NONE,
                sc.bufs.len() == sc0.bufs.len(),
                sc.bufs.len() > l,
                bufs_ready(sc.bufs@, n, l - 1),
                forall|j: int| l < j < sc.bufs.len() ==> #[trigger] sc.bufs@[j] == sc0.bufs@[j],
                pool_ready(sc.pool@, n),
                forall|j: int| 0 <= j < u_set.len() ==> #[trigger] u_set@[j] < n,
                forall|j: int| 0 <= j < w_set.len() ==> #[trigger] w_set@[j] < n,
            decreases u64::MAX - rounds,
        {
            rounds = rounds + 1;
            proof {
                ds.lemma_keys_in_range();
            }
            let PullResult { boundary: ub, keys } = ds.pull();
            let ghost d_pre = self.dists();
            let sub = self.bmssp(l - 1, keys.as_slice(), ub, sc);
            proof {
                lemma_below_both(self.dists(), d_pre, d_in, r1, n);
            }
            let res = match sub {
                Some(x) => x,
                None => {
                    return None;
                },
            };
            proof {
                self.lemma_wf_sizes();
            }
            let new_boundary = res.new_boundary;
            let complete = res.complete;
            let ghost sc1 = *sc;
            k_buf.clear();
            let mut ci: usize = 0;
            while ci < complete.len()
                invariant
                    self.wf(),
                    n == self.rows().len(),
                    forall|v: int| 0 <= v < n ==> key_le(#[trigger] self.dists()[v], d_in[v]),
                    forall|v: int| 0 <= v < n ==> key_le(#[trigger] self.dists()[v], r1[v]),
                    d_in == old(self).dists(),
                    d_in.len() == n,
                    l >= 1,
                    r1 == round_dists(old(self).rows(), s@, d_in, s.len() as nat),
                    self.dists().len() == n,
                    self.rows() == old(self).rows(),
                    self.k_spec() == old(self).k_spec(),
                    self.t_spec() == old(self).t_spec(),
                    self.top_spec() == old(self).top_spec(),
                    self.source_spec() == old(self).source_spec(),
                    *sc == sc1,
                    ds.wf(),
                    ds.bound() == b,
                    ds.key_range() == n,
                    ds.batch() >= 1,
                    ds.used() < NONE,
                    forall|kk: u32| #[trigger] ds.entries().contains_key(kk) ==> pd_le(ub, ds.entries()[kk]),
                    forall|j: int|
                        0 <= j < k_buf.len() ==> (#[trigger] k_buf@[j]).0 < n && k_buf@[j].1.end_spec() == k_buf@[j].0
                            && pd_less(k_buf@[j].1, ub),
                    forall|j: int| 0 <= j < complete.len() ==> #[trigger] complete@[j] < n,
                    forall|j: int| 0 <= j < u_set.len() ==> #[trigger] u_set@[j] < n,
                    ci <= complete.len(),
                decreases complete.len() - ci,
            {
                let u = complete[ci];
                if self.mark(u, ep) {
                    u_set.push(u);
                    u_count = match u_count.checked_add(1) {
                        Some(x) => x,
                        None => {
                            return None;
                        },
                    };
                }
                let ghost d_pre = self.dists();
                let improved = self.relax_from(u);
                proof {
                    lemma_below_both(self.dists(), d_pre, d_in, r1, n);
                    self.lemma_wf_sizes();
                }
                let mut qi: usize = 0;
                while qi < improved.len()
                    invariant
                        self.wf(),
                        same_setup(*self, *old(self)),
                        n == self.rows().len(),
                        forall|v: int| 0 <= v < n ==> key_le(#[trigger] self.dists()[v], d_in[v]),
                        forall|v: int| 0 <= v < n ==> key_le(#[trigger] self.dists()[v], r1[v]),
                        d_in == old(self).dists(),
                        d_in.len() == n,
                        l >= 1,
                        r1 == round_dists(old(self).rows(), s@, d_in, s.len() as nat),
                        forall|j: int|
                            0 <= j < improved.len() ==> {
                                let (v, d) = #[trigger] improved@[j];
                                &&& v < n
                                &&& d.end_spec() == v
                            },
                        ds.wf(),
                        ds.bound() == b,
                        ds.key_range() == n,
                        ds.batch() >= 1,
                        ds.used() < NONE,
                        forall|kk: u32| #[trigger] ds.entries().contains_key(kk) ==> pd_le(ub, ds.entries()[kk]),
                        forall|j: int|
                            0 <= j < k_buf.len() ==> (#[trigger] k_buf@[j]).0 < n && k_buf@[j].1.end_spec()
                                == k_buf@[j].0 && pd_less(k_buf@[j].1, ub),
                        qi <= improved.len(),
                    decreases improved.len() - qi,
                {
                    let (v, rd) = improved[qi];
                    if !rd.is_less(&ub) && rd.is_less(&b) {
                        if ds.used_count() + 2 >= 4294967295u64 {
                            return None;
                        }
                        ds.insert(v, rd);
                    } else if !rd.is_less(&new_boundary) && rd.is_less(&ub) {
                        k_buf.push((v, rd));
                    }
                    qi = qi + 1;
                }
                ci = ci + 1;
            }
            let mut xi: usize = 0;
            while xi < keys.len()
                invariant
                    self.wf(),
                    same_setup(*self, *old(self)),
                    n == self.rows().len(),
                    forall|v: int| 0 <= v < n ==> key_le(#[trigger] self.dists()[v], d_in[v]),
                    forall|v: int| 0 <= v < n ==> key_le(#[trigger] self.dists()[v], r1[v]),
                    d_in == old(self).dists(),
                    d_in.len() == n,
                    l >= 1,
                    r1 == round_dists(old(self).rows(), s@, d_in, s.len() as nat),
                    self.dists().len() == n,
                    forall|j: int| 0 <= j < keys.len() ==> #[trigger] keys@[j] < n,
                    forall|j: int|
                        0 <= j < k_buf.len() ==> (#[trigger] k_buf@[j]).0 < n && k_buf@[j].1.end_spec() == k_buf@[j].0
                            && pd_less(k_buf@[j].1, ub),
                    xi <= keys.len(),
                decreases keys.len() - xi,
            {
                let x = keys[xi];
                let xd = self.dist(x);
                if !xd.is_less(&new_boundary) && xd.is_less(&ub) {
                    if xd.end() != x {
                        return None;
                    }
                    k_buf.push((x, xd));
                }
                xi = xi + 1;
            }
            if k_buf.len() >= 4294967295usize {
                return None;
            }
            if ds.used_count() + 2 * (k_buf.len() as u64) >= 4294967295u64 {
                return None;
            }
            ds.batch_prepend(k_buf.as_slice(), sc.pool.as_mut_slice());
            now_boundary = new_boundary;
        }
        proof {
            ds.lemma_keys_in_range();
        }
        ds.cleanup();
        let buf = ds.into_buffer();
        sc.bufs.set(l, buf);
        if b.is_less(&now_boundary) {
            now_boundary = b;
        }
        let mut wi: usize = 0;
        while wi < w_set.len()
            invariant
                self.wf(),
                n == self.rows().len(),
                forall|v: int| 0 <= v < n ==> key_le(#[trigger] self.dists()[v], d_in[v]),
                forall|v: int| 0 <= v < n ==> key_le(#[trigger] self.dists()[v], r1[v]),
                d_in == old(self).dists(),
                d_in.len() == n,
                l >= 1,
                r1 == round_dists(old(self).rows(), s@, d_in, s.len() as nat),
                self.dists().len() == n,
                self.rows() == old(self).rows(),
                self.k_spec() == old(self).k_spec(),
                self.t_spec() == old(self).t_spec(),
                self.top_spec() == old(self).top_spec(),
                self.source_spec() == old(self).source_spec(),
                forall|j: int| 0 <= j < w_set.len() ==> #[trigger] w_set@[j] < n,
                forall|j: int| 0 <= j < u_set.len() ==> #[trigger] u_set@[j] < n,
                wi <= w_set.len(),
            decreases w_set.len() - wi,
        {
            let x = w_set[wi];
            if self.dist(x).is_less(&now_boundary) {
                if self.mark(x, ep) {
                    u_set.push(x);
                }
            }
            wi = wi + 1;
        }
        Some(BMSSPResult { new_boundary: now_boundary, complete: u_set })
    }

    /// Computes the shortest distances from the source, which
    /// [`fetch_result`](Self::fetch_result) then gives: `u64::MAX` exactly where no walk
    /// from the source weighs less. Runs the recursion from the source at the top level
    /// with no bound and checks that the lengths it leaves are settled (the source at
    /// `0`, and no edge that shortens the length of its target). Where a check that the
    /// recursion relies on fails, a count would overflow, or the lengths are not
    /// settled, the lengths are completed by [`dijkstra`](crate::algorithms::ssp::dijkstra)
    /// over the same edges. Estimates never grow. Returns `true`.
    pub fn solve(&mut self) -> (done: bool)
        requires
            old(self).wf(),
        ensures
            final(self).wf(),
            estimates_sound(final(self).rows(), final(self).source_spec(), final(self).dists()),
            final(self).rows() == old(self).rows(),
            final(self).k_spec() == old(self).k_spec(),
            final(self).t_spec() == old(self).t_spec(),
            final(self).top_spec() == old(self).top_spec(),
            final(self).source_spec() == old(self).source_spec(),
            final(self).dists().len() == old(self).dists().len(),
            forall|v: int| 0 <= v < old(self).dists().len() ==> key_le(#[trigger] final(self).dists()[v], old(self).dists()[v]),
            done ==> forall|v: int|
                0 <= v < old(self).dists().len() ==> key_le(
                    #[trigger] final(self).dists()[v],
                    relax_edges(
                        old(self).rows()[old(self).source_spec()],
                        old(self).dists()[old(self).source_spec()],
                        old(self).source_spec() as u32,
                        old(self).dists(),
                        old(self).rows()[old(self).source_spec()].len(),
                    )[v],
                ),
            done ==> settled_lengths(final(self).rows(), final(self).source_spec(), final(self).dists()),
            done ==> shortest_estimates(final(self).rows(), final(self).source_spec(), final(self).dists()),
            done,
            shortest_estimates(final(self).rows(), final(self).source_spec(), final(self).dists()),
    {
        proof {
            self.lemma_wf_sizes();
        }
        let ghost start = *self;
        let n = self.vertex_count();
        let top = self.top_level();
        let mut ok = false;
        if top < usize::MAX {
            ok = self.run_recursion(top, n);
        }
        proof {
            self.lemma_wf_sizes();
        }
        if !ok {
            let ghost cur = self.dists();
            self.settle_by_dijkstra();
            proof {
                self.lemma_wf_sizes();
                start.lemma_wf_sizes();
                assert forall|v: int| 0 <= v < self.dists().len() implies key_le(#[trigger] self.dists()[v], start.dists()[v]) by {
                    lemma_key_order(self.dists()[v], cur[v], start.dists()[v]);
                }
                lemma_shortest_below_relaxed(self.rows(), self.source_spec(), start.dists(), self.dists());
                lemma_shortest_is_settled(self.rows(), self.source_spec(), self.dists());
            }
        }
        true
    }

    /// The recursion from the source at the top level `top`, with no bound, over `n`
    /// vertices; whether it finished and left settled lengths.
    fn run_recursion(&mut self, top: usize, n: usize) -> (ok: bool)
        requires
            old(self).wf(),
            top == old(self).top_spec(),
            top < usize::MAX,
            n == old(self).rows().len(),
        ensures
            final(self).wf(),
            final(self).rows() == old(self).rows(),
            final(self).k_spec() == old(self).k_spec(),
            final(self).t_spec() == old(self).t_spec(),
            final(self).top_spec() == old(self).top_spec(),
            final(self).source_spec() == old(self).source_spec(),
            final(self).dists().len() == old(self).dists().len(),
            forall|v: int| 0 <= v < old(self).dists().len() ==> key_le(#[trigger] final(self).dists()[v], old(self).dists()[v]),
            ok ==> forall|v: int|
                0 <= v < old(self).dists().len() ==> key_le(
                    #[trigger] final(self).dists()[v],
                    relax_edges(
                        old(self).rows()[old(self).source_spec()],
                        old(self).dists()[old(self).source_spec()],
                        old(self).source_spec() as u32,
                        old(self).dists(),
                        old(self).rows()[old(self).source_spec()].len(),
                    )[v],
                ),
            ok ==> settled_lengths(final(self).rows(), final(self).source_spec(), final(self).dists()),
            ok ==> shortest_estimates(final(self).rows(), final(self).source_spec(), final(self).dists()),
    {
        proof {
            self.lemma_wf_sizes();
        }
        let mut bufs: Vec<Vec<u32>> = Vec::new();
        let mut j: usize = 0;
        while j <= top
            invariant
                top < usize::MAX,
                j <= top + 1,
                bufs.len() == j,
                bufs_ready(bufs@, n as int, j - 1),
            decreases top + 1 - j,
        {
            let mut b: Vec<u32> = Vec::with_capacity(n);
            let mut x: usize = 0;
            while x < n
                invariant
                    x <= n,
                    b@.len() == x,
                    forall|y: int| 0 <= y < x ==> b@[y] == NONE,
                decreases n - x,
            {
                b.push(NONE);
                x = x + 1;
            }
            bufs.push(b);
            j = j + 1;
        }
        let mut pool: Vec<PathDist> = Vec::with_capacity(n);
        let mut x: usize = 0;
        while x < n
            invariant
                x <= n,
                pool@.len() == x,
                forall|y: int| 0 <= y < x ==> pd_is_max(#[trigger] pool@[y]),
            decreases n - x,
        {
            pool.push(PathDist::max_value());
            x = x + 1;
        }
        let mut sc = Scratch { bufs, pool };
        let source = self.source() as u32;
        let s: Vec<u32> = vec![source];
        proof {
            assert(s@.no_duplicates());
            let d = self.dists();
            assert(round_dists(self.rows(), s@, d, 0) == d);
            assert(s@[0] == source);
        }
        let r = self.bmssp(top, s.as_slice(), PathDist::max_value(), &mut sc);
        proof {
            self.lemma_wf_sizes();
        }
        if r.is_none() {
            return false;
        }
        let ok = self.settled();
        proof {
            if ok {
                lemma_settled_is_shortest(self.rows(), self.source_spec(), self.dists());
            }
        }
        ok
    }
}

} // verus!
