//! The partial-order structure of bounded multi-source shortest paths: key-value
//! pairs kept in blocks, in two block lists. `D1` takes single insertions, its blocks
//! ordered by their upper bounds and split when they grow past `m` entries; `D0` takes
//! batches of values smaller than everything stored, prepended as blocks of at most
//! `m` entries in increasing order. `pull` takes the `m` smallest pairs from the front
//! blocks of both lists.
use vstd::prelude::*;
use super::path_dist::{PathDist, pd_less};

verus! {

/// The absent node of a key, and the absent block.
pub const NONE: u32 = 4294967295u32;

/// The result of [`BlockDs::pull`]: the keys taken and a bound that they all lie below.
#[derive(Debug, Clone, PartialEq, Eq)]
pub struct PullResult {
    pub boundary: PathDist,
    pub keys: Vec<u32>,
}

#[derive(Debug, Clone, Copy)]
struct Node {
    key: u32,
    value: PathDist,
    block_id: u32,
    alive: bool,
}

#[derive(Debug, Clone, Copy, PartialEq, Eq, Structural)]
enum BlockSeq {
    D0,
    D1,
}

#[derive(Debug)]
struct Block {
    seq: BlockSeq,
    items: Vec<u32>,
    upper: PathDist,
    alive: bool,
}

/// `a <= b` in the order of keys.
pub open spec fn pd_le(a: PathDist, b: PathDist) -> bool {
    !pd_less(b, a)
}

/// Pair `(va, ka)` comes before `(vb, kb)`: by value, then by key.
pub open spec fn entry_less(va: PathDist, ka: u32, vb: PathDist, kb: u32) -> bool {
    pd_less(va, vb) || (va == vb && ka < kb)
}

/// The pairs `(key, value)` of `e` whose key lies in `ks` come before all the others.
pub open spec fn keys_first(e: Map<u32, PathDist>, ks: Set<u32>) -> bool {
    forall|a: u32, b: u32|
        #![trigger ks.contains(a), e.dom().contains(b)]
        ks.contains(a) && e.dom().contains(b) && !ks.contains(b) ==> entry_less(e[a], a, e[b], b)
}

/// The smallest value that `recs` gives each of its keys.
pub open spec fn record_min(recs: Seq<(u32, PathDist)>) -> Map<u32, PathDist>
    decreases recs.len(),
{
    if recs.len() == 0 {
        Map::empty()
    } else {
        let r = record_min(recs.drop_last());
        let k = recs.last().0;
        let v = recs.last().1;
        if r.contains_key(k) && pd_le(r[k], v) {
            r
        } else {
            r.insert(k, v)
        }
    }
}

/// The pairs have distinct keys, and each value ends at its key.
spec fn keyed_pairs(s: Seq<(u32, PathDist)>) -> bool {
    &&& forall|a: int, b: int| 0 <= a < b < s.len() ==> #[trigger] s[a].0 != #[trigger] s[b].0
    &&& forall|a: int| 0 <= a < s.len() ==> (#[trigger] s[a]).1.end_spec() == s[a].0
}

/// Sorts pairs with distinct keys by value.
fn sort_pairs(pairs: &mut Vec<(u32, PathDist)>)
    requires
        keyed_pairs(old(pairs)@),
    ensures
        final(pairs)@.len() == old(pairs)@.len(),
        forall|x: (u32, PathDist)| old(pairs)@.contains(x) <==> final(pairs)@.contains(x),
        keyed_pairs(final(pairs)@),
        forall|p: int, q: int| 0 <= p < q < final(pairs)@.len() ==> pd_less(#[trigger] final(pairs)@[p].1, #[trigger] final(pairs)@[q].1),
{
    let ghost s0 = pairs@;
    let n = pairs.len();
    if n == 0 {
        return;
    }
    let mut i: usize = 1;
    while i < n
        invariant
            1 <= i <= n,
            pairs.len() == n,
            forall|x: (u32, PathDist)| s0.contains(x) <==> pairs@.contains(x),
            keyed_pairs(pairs@),
            forall|p: int, q: int| 0 <= p < q < i ==> pd_less(#[trigger] pairs@[p].1, #[trigger] pairs@[q].1),
        decreases n - i,
    {
        let mut j: usize = i;
        while j > 0 && pairs[j].1.is_less(&pairs[j - 1].1)
            invariant
                1 <= i < n,
                j <= i,
                pairs.len() == n,
                forall|x: (u32, PathDist)| s0.contains(x) <==> pairs@.contains(x),
                keyed_pairs(pairs@),
                forall|p: int, q: int|
                    0 <= p < q <= i && p != j && q != j ==> pd_less(#[trigger] pairs@[p].1, #[trigger] pairs@[q].1),
                forall|q: int| j < q <= i ==> pd_less(pairs@[j as int].1, #[trigger] pairs@[q].1),
            decreases j,
        {
            let ghost before = pairs@;
            let x = pairs[j];
            let y = pairs[j - 1];
            pairs.set(j, y);
            pairs.set(j - 1, x);
            proof {
                assert(pairs@ =~= before.update(j as int, y).update(j - 1, x));
                assert forall|z: (u32, PathDist)| before.contains(z) <==> pairs@.contains(z) by {
                    if before.contains(z) {
                        let k = choose|k: int| 0 <= k < n && before[k] == z;
                        if k == j {
                            assert(pairs@[j - 1] == z);
                        } else if k == j - 1 {
                            assert(pairs@[j as int] == z);
                        } else {
                            assert(pairs@[k] == z);
                        }
                    }
                    if pairs@.contains(z) {
                        let k = choose|k: int| 0 <= k < n && pairs@[k] == z;
                        if k == j {
                            assert(before[j - 1] == z);
                        } else if k == j - 1 {
                            assert(before[j as int] == z);
                        } else {
                            assert(before[k] == z);
                        }
                    }
                }
                assert forall|p: int, q: int| 0 <= p < q < n implies #[trigger] pairs@[p].0 != #[trigger] pairs@[q].0 by {
                    let pp = if p == j { j - 1 } else if p == j - 1 { j as int } else { p };
                    let qq = if q == j { j - 1 } else if q == j - 1 { j as int } else { q };
                    assert(pairs@[p] == before[pp]);
                    assert(pairs@[q] == before[qq]);
                }
                assert forall|p: int| 0 <= p < n implies (#[trigger] pairs@[p]).1.end_spec() == pairs@[p].0 by {
                    let pp = if p == j { j - 1 } else if p == j - 1 { j as int } else { p };
                    assert(pairs@[p] == before[pp]);
                }
            }
            j = j - 1;
        }
        proof {
            assert forall|p: int, q: int| 0 <= p < q < i + 1 implies pd_less(#[trigger] pairs@[p].1, #[trigger] pairs@[q].1) by {
                if q == j && j > 0 {
                    let vm = pairs@[j - 1].1;
                    let vj = pairs@[j as int].1;
                    assert(pairs@[j - 1].0 != pairs@[j as int].0);
                    assert(vm != vj);
                    lemma_pd_trans(vm, vj, vj);
                    if p < j - 1 {
                        lemma_pd_trans(pairs@[p].1, vm, vj);
                    }
                }
            }
        }
        i = i + 1;
    }
}

/// Storage of the pairs: a live node per stored key, in the item list of a live block
/// of `D0` or `D1`.
pub struct BlockDs {
    m: u32,
    upper_bound_b: PathDist,
    key_to_node: Vec<u32>,
    dirty_keys: Vec<u32>,
    alive_count: u32,
    nodes: Vec<Node>,
    blocks: Vec<Block>,
    d0: Vec<u32>,
    d1: Vec<u32>,
}

/// The order of the blocks, where block `except` may be empty.
spec fn order_raw(
    m: u32,
    ub: PathDist,
    nodes: Seq<Node>,
    blocks: Seq<Block>,
    d0: Seq<u32>,
    d1: Seq<u32>,
    except: int,
) -> bool {
    &&& m >= 1
    &&& d1.len() >= 1
    &&& blocks[d1[d1.len() - 1] as int].upper == ub
    &&& forall|p: int, q: int|
        #![trigger d1[p], d1[q]]
        0 <= p < q < d1.len() ==> pd_less(
            blocks[d1[p] as int].upper,
            blocks[d1[q] as int].upper,
        )
    &&& forall|p: int, k: int|
        #![trigger blocks[d1[p] as int].items@[k]]
        0 <= p < d1.len() && 0 <= k < blocks[d1[p] as int].items.len() ==> {
            let v = nodes[(blocks[d1[p] as int].items@[k]) as int].value;
            &&& pd_le(v, blocks[d1[p] as int].upper)
            &&& p > 0 ==> pd_less(blocks[d1[p - 1] as int].upper, v)
        }
    &&& forall|p: int|
        #![trigger d1[p]]
        0 <= p < d1.len() - 1 && d1[p] != except ==> blocks[d1[p] as int].items.len() > 0
    &&& forall|p: int|
        #![trigger d0[p]]
        0 <= p < d0.len() && d0[p] != except ==> blocks[d0[p] as int].items.len() > 0
    &&& forall|p: int, q: int, i: int, j: int|
        #![trigger blocks[d0[p] as int].items@[i], blocks[d0[q] as int].items@[j]]
        0 <= p < q < d0.len() && 0 <= i < blocks[d0[p] as int].items.len() && 0 <= j
            < blocks[d0[q] as int].items.len() ==> pd_less(
            nodes[(blocks[d0[p] as int].items@[i]) as int].value,
            nodes[(blocks[d0[q] as int].items@[j]) as int].value,
        )
}


impl BlockDs {
    /// The stored pairs, key to value.
    pub closed spec fn entries(&self) -> Map<u32, PathDist> {
        Map::new(
            |k: u32| k < self.key_to_node@.len() && self.key_to_node@[k as int] != NONE,
            |k: u32| self.nodes@[self.key_to_node@[k as int] as int].value,
        )
    }

    /// The bound above every stored value.
    pub closed spec fn bound(&self) -> PathDist {
        self.upper_bound_b
    }

    /// How many pairs a pull takes at most.
    pub closed spec fn batch(&self) -> int {
        self.m as int
    }

    /// The keys that can be stored are those below this number.
    pub closed spec fn key_range(&self) -> int {
        self.key_to_node@.len() as int
    }

    /// Nodes and blocks created so far; both are numbered by `u32`.
    pub closed spec fn used(&self) -> int {
        self.nodes.len() + self.blocks.len()
    }

    /// Every stored key is below the key range, which is the length of the buffer.
    pub proof fn lemma_keys_in_range(&self)
        ensures
            forall|k: u32| #[trigger] self.entries().contains_key(k) ==> k < self.key_range(),
            self.buffer().len() == self.key_range(),
    {
    }

    /// The contents of the key buffer.
    pub closed spec fn buffer(&self) -> Seq<u32> {
        self.key_to_node@
    }

    /// The keys written into the buffer since it was handed over.
    pub closed spec fn dirty(&self) -> Seq<u32> {
        self.dirty_keys@
    }

    spec fn blocks_ok(&self) -> bool {
        &&& self.nodes.len() < NONE
        &&& self.blocks.len() < NONE
        &&& forall|k: int|
            #![trigger self.d0@[k]]
            0 <= k < self.d0.len() ==> self.d0@[k] < self.blocks.len() && self.blocks@[self.d0@[k] as int].alive
                && self.blocks@[self.d0@[k] as int].seq == BlockSeq::D0
        &&& forall|k: int|
            #![trigger self.d1@[k]]
            0 <= k < self.d1.len() ==> self.d1@[k] < self.blocks.len() && self.blocks@[self.d1@[k] as int].alive
                && self.blocks@[self.d1@[k] as int].seq == BlockSeq::D1
        &&& self.d0@.no_duplicates()
        &&& self.d1@.no_duplicates()
        &&& forall|b: int|
            #![trigger self.blocks@[b]]
            0 <= b < self.blocks.len() && self.blocks@[b].alive ==> if self.blocks@[b].seq == BlockSeq::D0 {
                self.d0@.contains(b as u32)
            } else {
                self.d1@.contains(b as u32)
            }
        &&& forall|b: int, k: int|
            #![trigger self.blocks@[b].items@[k]]
            0 <= b < self.blocks.len() && self.blocks@[b].alive && 0 <= k < self.blocks@[b].items.len() ==> {
                let id = self.blocks@[b].items@[k];
                &&& id < self.nodes.len()
                &&& self.nodes@[id as int].alive
                &&& self.nodes@[id as int].block_id == b
            }
        &&& forall|b: int|
            #![trigger self.blocks@[b]]
            0 <= b < self.blocks.len() && self.blocks@[b].alive ==> self.blocks@[b].items@.no_duplicates()
        &&& forall|id: int|
            #![trigger self.nodes@[id]]
            0 <= id < self.nodes.len() && self.nodes@[id].alive ==> {
                let b = self.nodes@[id].block_id;
                &&& b < self.blocks.len()
                &&& self.blocks@[b as int].alive
                &&& self.blocks@[b as int].items@.contains(id as u32)
            }
    }

    spec fn keys_ok(&self) -> bool {
        &&& forall|k: int|
            #![trigger self.key_to_node@[k]]
            0 <= k < self.key_to_node@.len() && self.key_to_node@[k] != NONE ==> {
                let id = self.key_to_node@[k];
                &&& id < self.nodes.len()
                &&& self.nodes@[id as int].alive
                &&& self.nodes@[id as int].key == k
            }
        &&& forall|id: int|
            #![trigger self.nodes@[id]]
            0 <= id < self.nodes.len() && self.nodes@[id].alive ==> {
                let k = self.nodes@[id].key;
                &&& k < self.key_to_node@.len()
                &&& self.key_to_node@[k as int] == id
                &&& self.nodes@[id].value.end_spec() == k
            }
        &&& self.alive_count == self.entries().dom().len()
        &&& self.alive_count <= self.nodes.len()
        &&& forall|k: int|
            #![trigger self.key_to_node@[k]]
            0 <= k < self.key_to_node@.len() && self.key_to_node@[k] != NONE ==> self.dirty_keys@.contains(
                k as u32,
            )
        &&& forall|j: int| #![trigger self.dirty_keys@[j]] 0 <= j < self.dirty_keys.len() ==> self.dirty_keys@[j] < self.key_to_node@.len()
    }

    /// Value of node `id`.
    spec fn val(&self, id: u32) -> PathDist {
        self.nodes@[id as int].value
    }

    spec fn order_ok(&self) -> bool {
        self.order_ok_except(-1)
    }

    /// The order of the blocks, where block `except` may be empty.
    spec fn order_ok_except(&self, except: int) -> bool {
        order_raw(self.m, self.upper_bound_b, self.nodes@, self.blocks@, self.d0@, self.d1@, except)
    }

    /// The structure is consistent.
    pub closed spec fn wf(&self) -> bool {
        &&& self.blocks_ok()
        &&& self.keys_ok()
        &&& self.order_ok()
    }
}

impl BlockDs {
    /// An empty structure whose blocks hold `m` pairs (at least one), with values at
    /// most `upper_bound_b`, over keys below `key_to_node_buf.len()`. The buffer maps a
    /// key to its node and must hold [`NONE`] everywhere; [`cleanup`](Self::cleanup)
    /// restores that, and [`into_buffer`](Self::into_buffer) hands it back.
    pub fn new(m: usize, upper_bound_b: PathDist, key_to_node_buf: Vec<u32>) -> (ds: BlockDs)
        requires
            m <= u32::MAX,
            forall|k: int| 0 <= k < key_to_node_buf@.len() ==> key_to_node_buf@[k] == NONE,
        ensures
            ds.wf(),
            ds.entries() == Map::<u32, PathDist>::empty(),
            ds.bound() == upper_bound_b,
            ds.batch() == if m == 0 {
                1
            } else {
                m as int
            },
            ds.key_range() == key_to_node_buf@.len(),
            ds.used() == 1,
            ds.buffer() == key_to_node_buf@,
            ds.dirty().len() == 0,
    {
        let m = if m == 0 {
            1u32
        } else {
            m as u32
        };
        let ghost buf0 = key_to_node_buf@;
        let mut ds = BlockDs {
            m,
            upper_bound_b,
            key_to_node: key_to_node_buf,
            dirty_keys: Vec::new(),
            alive_count: 0,
            nodes: Vec::new(),
            blocks: Vec::new(),
            d0: Vec::new(),
            d1: Vec::new(),
        };
        let first = ds.new_block(BlockSeq::D1, upper_bound_b);
        ds.d1.push(first);
        proof {
            assert(ds.entries() =~= Map::<u32, PathDist>::empty());
            assert(ds.d1@ =~= seq![0u32]);
        }
        ds
    }

    /// Whether no pair is stored.
    pub fn is_empty(&self) -> (r: bool)
        requires
            self.wf(),
        ensures
            r == (self.entries().dom().len() == 0),
    {
        self.alive_count == 0
    }

    /// The number of pairs stored.
    pub fn len(&self) -> (r: usize)
        requires
            self.wf(),
        ensures
            r == self.entries().dom().len(),
    {
        self.alive_count as usize
    }

    /// The number of nodes and blocks created so far, which node and block numbers
    /// must leave room for.
    pub fn used_count(&self) -> (r: u64)
        requires
            self.wf(),
        ensures
            r == self.used(),
    {
        self.nodes.len() as u64 + self.blocks.len() as u64
    }

    /// The buffer that maps keys to nodes, handed back for reuse.
    pub fn into_buffer(self) -> (buf: Vec<u32>)
        ensures
            buf@ == self.buffer(),
    {
        self.key_to_node
    }

    /// Writes [`NONE`] back to every key of the buffer that was set.
    pub fn cleanup(&mut self)
        requires
            old(self).wf(),
        ensures
            final(self).buffer().len() == old(self).buffer().len(),
            forall|k: int| 0 <= k < final(self).buffer().len() ==> final(self).buffer()[k] == NONE,
    {
        let ghost buf0 = self.key_to_node@;
        let ghost dirty0 = self.dirty_keys@;
        let mut i: usize = 0;
        while i < self.dirty_keys.len()
            invariant
                i <= self.dirty_keys.len(),
                self.dirty_keys@ == dirty0,
                self.key_to_node@.len() == buf0.len(),
                forall|j: int| 0 <= j < dirty0.len() ==> #[trigger] dirty0[j] < buf0.len(),
                forall|j: int| 0 <= j < i ==> self.key_to_node@[#[trigger] dirty0[j] as int] == NONE,
                forall|k: int|
                    0 <= k < buf0.len() ==> #[trigger] self.key_to_node@[k] == NONE || self.key_to_node@[k] == buf0[k],
            decreases self.dirty_keys.len() - i,
        {
            let k = self.dirty_keys[i];
            self.key_to_node[k as usize] = NONE;
            i = i + 1;
        }
        self.dirty_keys.clear();
        proof {
            assert forall|k: int| 0 <= k < buf0.len() implies self.key_to_node@[k] == NONE by {
                if buf0[k] != NONE {
                    assert(dirty0.contains(k as u32));
                    let j = choose|j: int| 0 <= j < dirty0.len() && dirty0[j] == k as u32;
                    assert(self.key_to_node@[dirty0[j] as int] == NONE);
                }
            }
        }
    }

    fn new_block(&mut self, seq: BlockSeq, upper: PathDist) -> (id: u32)
        requires
            old(self).blocks.len() + 1 < NONE,
        ensures
            id == old(self).blocks.len(),
            final(self).blocks@.len() == old(self).blocks@.len() + 1,
            forall|b: int| 0 <= b < old(self).blocks.len() ==> #[trigger] final(self).blocks@[b] == old(self).blocks@[b],
            final(self).blocks@[id as int].seq == seq,
            final(self).blocks@[id as int].items@.len() == 0,
            final(self).blocks@[id as int].upper == upper,
            final(self).blocks@[id as int].alive,
            final(self).nodes == old(self).nodes,
            final(self).d0 == old(self).d0,
            final(self).d1 == old(self).d1,
            final(self).key_to_node@ == old(self).key_to_node@,
            final(self).dirty_keys == old(self).dirty_keys,
            final(self).alive_count == old(self).alive_count,
            final(self).m == old(self).m,
            final(self).upper_bound_b == old(self).upper_bound_b,
    {
        let id = self.blocks.len() as u32;
        self.blocks.push(Block { seq, items: Vec::new(), upper, alive: true });
        id
    }

    fn new_node(&mut self, key: u32, value: PathDist, block_id: u32) -> (id: u32)
        requires
            old(self).nodes.len() + 1 < NONE,
        ensures
            id == old(self).nodes.len(),
            final(self).nodes@ == old(self).nodes@.push(Node { key, value, block_id, alive: true }),
            final(self).blocks == old(self).blocks,
            final(self).d0 == old(self).d0,
            final(self).d1 == old(self).d1,
            final(self).key_to_node@ == old(self).key_to_node@,
            final(self).dirty_keys == old(self).dirty_keys,
            final(self).alive_count == old(self).alive_count,
            final(self).m == old(self).m,
            final(self).upper_bound_b == old(self).upper_bound_b,
    {
        let id = self.nodes.len() as u32;
        self.nodes.push(Node { key, value, block_id, alive: true });
        id
    }

    /// The first block of `D1` whose upper bound is at least `value`.
    fn locate_d1_block(&self, value: PathDist) -> (r: (usize, u32))
        requires
            self.wf(),
            pd_le(value, self.upper_bound_b),
        ensures
            r.0 < self.d1.len(),
            r.1 == self.d1@[r.0 as int],
            pd_le(value, self.blocks@[r.1 as int].upper),
            r.0 > 0 ==> pd_less(self.blocks@[self.d1@[r.0 - 1] as int].upper, value),
    {
        let mut p: usize = 0;
        while p < self.d1.len()
            invariant
                self.wf(),
                pd_le(value, self.upper_bound_b),
                p <= self.d1.len(),
                p > 0 ==> pd_less(self.blocks@[self.d1@[p - 1] as int].upper, value),
            decreases self.d1.len() - p,
        {
            let b = self.d1[p];
            if !self.blocks[b as usize].upper.is_less(&value) {
                return (p, b);
            }
            p = p + 1;
        }
        proof {
            let last = self.d1@[self.d1.len() - 1] as int;
            assert(self.blocks@[last].upper == self.upper_bound_b);
        }
        (0, self.d1[0])
    }
}

proof fn lemma_remove_at(s: Seq<u32>, p: int)
    requires
        0 <= p < s.len(),
        s.no_duplicates(),
    ensures
        s.remove(p).no_duplicates(),
        s.remove(p).len() == s.len() - 1,
        forall|q: int| 0 <= q < p ==> #[trigger] s.remove(p)[q] == s[q],
        forall|q: int| p <= q < s.len() - 1 ==> #[trigger] s.remove(p)[q] == s[q + 1],
        forall|x: u32| s.contains(x) && x != s[p] ==> #[trigger] s.remove(p).contains(x),
        !s.remove(p).contains(s[p]),
{
    let r = s.remove(p);
    assert forall|x: u32| s.contains(x) && x != s[p] implies #[trigger] r.contains(x) by {
        let q = choose|q: int| 0 <= q < s.len() && s[q] == x;
        if q < p {
            assert(r[q] == x);
        } else {
            assert(r[q - 1] == x);
        }
    }
    if r.contains(s[p]) {
        let q = choose|q: int| 0 <= q < r.len() && r[q] == s[p];
        if q < p {
            assert(s[q] == s[p]);
        } else {
            assert(s[q + 1] == s[p]);
        }
    }
}

/// Every set of `u32` is finite.
proof fn lemma_u32_set_finite(s: Set<u32>)
    ensures
        s.finite(),
{
    broadcast use vstd::set_lib::full_set_properties;

    assert(Set::<u32>::full().finite());
    vstd::set_lib::lemma_set_subset_finite(Set::<u32>::full(), s);
}

proof fn lemma_pd_trans(a: PathDist, b: PathDist, c: PathDist)
    ensures
        pd_less(a, b) && pd_less(b, c) ==> pd_less(a, c),
        pd_le(a, b) && pd_less(b, c) ==> pd_less(a, c),
        pd_less(a, b) && pd_le(b, c) ==> pd_less(a, c),
        pd_le(a, b) && pd_le(b, c) ==> pd_le(a, c),
        pd_less(a, b) ==> pd_le(a, b) && a != b,
        !pd_less(a, b) && a != b ==> pd_less(b, a),
        !pd_less(a, a),
{
}

impl BlockDs {
    /// Drops block `block_id`, empty, from its list.
    #[verifier::rlimit(60)]
    fn remove_empty_block(&mut self, block_id: u32)
        requires
            old(self).blocks_ok(),
            old(self).keys_ok(),
            old(self).order_ok_except(block_id as int),
            block_id < old(self).blocks.len(),
            old(self).blocks@[block_id as int].alive,
            old(self).blocks@[block_id as int].items.len() == 0,
            old(self).blocks@[block_id as int].seq == BlockSeq::D0 || old(self).blocks@[block_id as int].upper
                != old(self).upper_bound_b,
        ensures
            final(self).wf(),
            final(self).entries() == old(self).entries(),
            final(self).nodes == old(self).nodes,
            final(self).used() == old(self).used(),
            final(self).key_to_node@ == old(self).key_to_node@,
            final(self).dirty_keys == old(self).dirty_keys,
            final(self).alive_count == old(self).alive_count,
            final(self).m == old(self).m,
            final(self).upper_bound_b == old(self).upper_bound_b,
    {
        let ghost old_d0 = self.d0@;
        let ghost old_d1 = self.d1@;
        let b = block_id as usize;
        match self.blocks[b].seq {
            BlockSeq::D0 => {
                let mut p: usize = 0;
                assert(self.d0@.contains(block_id));
                while self.d0[p] != block_id
                    invariant
                        self.d0@ == old_d0,
                        old_d0.contains(block_id),
                        p < old_d0.len(),
                        old_d0.len() == self.d0.len(),
                        forall|q: int| 0 <= q < p ==> old_d0[q] != block_id,
                    decreases old_d0.len() - p,
                {
                    p = p + 1;
                    assert(p < old_d0.len()) by {
                        let q = choose|q: int| 0 <= q < old_d0.len() && old_d0[q] == block_id;
                        if q < p {
                        }
                    }
                }
                self.d0.remove(p);
            },
            BlockSeq::D1 => {
                let mut p: usize = 0;
                assert(self.d1@.contains(block_id));
                while self.d1[p] != block_id
                    invariant
                        self.d1@ == old_d1,
                        old_d1.contains(block_id),
                        p < old_d1.len(),
                        old_d1.len() == self.d1.len(),
                        forall|q: int| 0 <= q < p ==> old_d1[q] != block_id,
                    decreases old_d1.len() - p,
                {
                    p = p + 1;
                    assert(p < old_d1.len()) by {
                        let q = choose|q: int| 0 <= q < old_d1.len() && old_d1[q] == block_id;
                        if q < p {
                        }
                    }
                }
                proof {
                    assert(p < old_d1.len() - 1);
                }
                self.d1.remove(p);
                if self.d1.len() == 0 {
                    let fresh = self.new_block(BlockSeq::D1, self.upper_bound_b);
                    self.d1.push(fresh);
                }
            },
        }
        let ghost before = self.blocks@;
        self.blocks.set(b, Block { seq: self.blocks[b].seq, items: Vec::new(), upper: self.blocks[b].upper, alive: false });
        proof {
            let nb = self.blocks@;
            assert forall|x: int| 0 <= x < nb.len() && x != b implies #[trigger] nb[x] == before[x] by {}
            if before[b as int].seq == BlockSeq::D0 {
                let p = choose|p: int| 0 <= p < old_d0.len() && old_d0[p] == block_id;
                assert(self.d0@ == old_d0.remove(p)) by {
                    assert(forall|q: int| 0 <= q < p ==> old_d0[q] != block_id);
                }
                lemma_remove_at(old_d0, p);
            } else {
                let p = choose|p: int| 0 <= p < old_d1.len() && old_d1[p] == block_id;
                lemma_remove_at(old_d1, p);
            }
        }
        assert(self.blocks_ok());
        assert(self.keys_ok());
        assert(self.order_ok());
    }
}

impl BlockDs {
    /// Removes node `node_id`, and its block when that becomes empty (unless it is the
    /// last block of `D1`).
    fn delete_node(&mut self, node_id: u32)
        requires
            old(self).wf(),
            node_id < old(self).nodes.len(),
            old(self).nodes@[node_id as int].alive,
        ensures
            final(self).wf(),
            final(self).entries() == old(self).entries().remove(old(self).nodes@[node_id as int].key),
            final(self).nodes.len() == old(self).nodes.len(),
            forall|id: int|
                0 <= id < old(self).nodes.len() && id != node_id ==> #[trigger] final(self).nodes@[id] == old(
                    self,
                ).nodes@[id],
            !final(self).nodes@[node_id as int].alive,
            final(self).nodes@[node_id as int].key == old(self).nodes@[node_id as int].key,
            final(self).nodes@[node_id as int].value == old(self).nodes@[node_id as int].value,
            final(self).used() == old(self).used(),
            final(self).key_to_node@ == old(self).key_to_node@.update(
                old(self).nodes@[node_id as int].key as int,
                NONE,
            ),
            final(self).dirty_keys == old(self).dirty_keys,
            final(self).m == old(self).m,
            final(self).upper_bound_b == old(self).upper_bound_b,
    {
        let ghost e0 = self.entries();
        let ghost nodes0 = self.nodes@;
        let ghost blocks0 = self.blocks@;
        let key = self.nodes[node_id as usize].key;
        let block_id = self.nodes[node_id as usize].block_id;
        let b = block_id as usize;
        let ghost items0 = self.blocks@[b as int].items@;
        let mut pos: usize = 0;
        while self.blocks[b].items[pos] != node_id
            invariant
                self.blocks@ == blocks0,
                b < blocks0.len(),
                blocks0[b as int].items@ == items0,
                items0.contains(node_id),
                pos < items0.len(),
                items0.len() == self.blocks@[b as int].items.len(),
                forall|q: int| 0 <= q < pos ==> items0[q] != node_id,
            decreases items0.len() - pos,
        {
            pos = pos + 1;
            assert(pos < items0.len()) by {
                let q = choose|q: int| 0 <= q < items0.len() && items0[q] == node_id;
                if q < pos {
                }
            }
        }
        self.blocks[b].items.remove(pos);
        self.nodes[node_id as usize].alive = false;
        self.key_to_node[key as usize] = NONE;
        proof {
            lemma_remove_at(items0, pos as int);
            assert(self.entries() =~= e0.remove(key));
            assert(e0.dom().contains(key));
            lemma_u32_set_finite(e0.dom());
        }
        self.alive_count = self.alive_count - 1;
        proof {
            assert forall|x: int| 0 <= x < self.blocks.len() && x != b implies #[trigger] self.blocks@[x] == blocks0[x] by {}
            assert forall|x: int| 0 <= x < self.nodes.len() && x != node_id implies #[trigger] self.nodes@[x] == nodes0[x] by {}
        }
        if self.blocks[b].items.len() == 0 && (self.blocks[b].seq == BlockSeq::D0 || self.blocks[b].upper
            != self.upper_bound_b) {
            self.remove_empty_block(block_id);
        }
    }
}

proof fn lemma_entry_order(va: PathDist, ka: u32, vb: PathDist, kb: u32, vc: PathDist, kc: u32)
    ensures
        !entry_less(va, ka, va, ka),
        ka != kb ==> entry_less(va, ka, vb, kb) || entry_less(vb, kb, va, ka),
        entry_less(va, ka, vb, kb) && entry_less(vb, kb, vc, kc) ==> entry_less(va, ka, vc, kc),
        entry_less(va, ka, vb, kb) ==> !entry_less(vb, kb, va, ka),
{
}

/// `x` occurs among the first `i` entries of `s`.
pub open spec fn has_before(s: Seq<u32>, i: int, x: u32) -> bool {
    exists|k: int| 0 <= k < i && s[k] == x
}

/// Sequence `t` holds the same elements as `s`.
pub open spec fn same_elements(s: Seq<u32>, t: Seq<u32>) -> bool {
    &&& s.len() == t.len()
    &&& forall|x: u32| s.contains(x) <==> t.contains(x)
}

impl BlockDs {
    /// Node `a` comes before node `b`: by value, then by key.
    spec fn node_less(&self, a: u32, b: u32) -> bool {
        entry_less(self.nodes@[a as int].value, self.nodes@[a as int].key, self.nodes@[b as int].value, self.nodes@[b as int].key)
    }

    fn node_before(&self, a: u32, b: u32) -> (r: bool)
        requires
            a < self.nodes.len(),
            b < self.nodes.len(),
        ensures
            r == self.node_less(a, b),
    {
        let na = &self.nodes[a as usize];
        let nb = &self.nodes[b as usize];
        na.value.is_less(&nb.value) || (na.value == nb.value && na.key < nb.key)
    }

    /// Sorts live node ids by value, then by key.
    fn sort_node_ids(&self, ids: &mut Vec<u32>)
        requires
            self.keys_ok(),
            old(ids)@.no_duplicates(),
            forall|i: int| 0 <= i < old(ids).len() ==> #[trigger] old(ids)@[i] < self.nodes.len() && self.nodes@[old(ids)@[i] as int].alive,
        ensures
            same_elements(old(ids)@, final(ids)@),
            final(ids)@.no_duplicates(),
            forall|i: int| 0 <= i < final(ids).len() ==> #[trigger] final(ids)@[i] < self.nodes.len() && self.nodes@[final(ids)@[i] as int].alive,
            forall|p: int, q: int| 0 <= p < q < final(ids).len() ==> self.node_less(#[trigger] final(ids)@[p], #[trigger] final(ids)@[q]),
    {
        let ghost ids0 = ids@;
        let n = ids.len();
        if n == 0 {
            return;
        }
        let mut i: usize = 1;
        while i < n
            invariant
                self.keys_ok(),
                1 <= i <= n,
                ids.len() == n,
                same_elements(ids0, ids@),
                ids@.no_duplicates(),
                forall|k: int| 0 <= k < n ==> #[trigger] ids@[k] < self.nodes.len() && self.nodes@[ids@[k] as int].alive,
                forall|p: int, q: int| 0 <= p < q < i ==> self.node_less(#[trigger] ids@[p], #[trigger] ids@[q]),
            decreases n - i,
        {
            let mut j: usize = i;
            while j > 0 && self.node_before(ids[j], ids[j - 1])
                invariant
                    self.keys_ok(),
                    1 <= i < n,
                    j <= i,
                    ids.len() == n,
                    same_elements(ids0, ids@),
                    ids@.no_duplicates(),
                    forall|k: int| 0 <= k < n ==> #[trigger] ids@[k] < self.nodes.len() && self.nodes@[ids@[k] as int].alive,
                    forall|p: int, q: int|
                        0 <= p < q <= i && p != j && q != j ==> self.node_less(#[trigger] ids@[p], #[trigger] ids@[q]),
                    forall|q: int| j < q <= i ==> self.node_less(ids@[j as int], #[trigger] ids@[q]),
                decreases j,
            {
                let ghost before = ids@;
                let x = ids[j];
                let y = ids[j - 1];
                ids.set(j, y);
                ids.set(j - 1, x);
                proof {
                    assert(ids@ =~= before.update(j as int, y).update(j - 1, x));
                    assert forall|z: u32| before.contains(z) <==> ids@.contains(z) by {
                        if before.contains(z) {
                            let k = choose|k: int| 0 <= k < n && before[k] == z;
                            if k == j {
                                assert(ids@[j - 1] == z);
                            } else if k == j - 1 {
                                assert(ids@[j as int] == z);
                            } else {
                                assert(ids@[k] == z);
                            }
                        }
                        if ids@.contains(z) {
                            let k = choose|k: int| 0 <= k < n && ids@[k] == z;
                            if k == j {
                                assert(before[j - 1] == z);
                            } else if k == j - 1 {
                                assert(before[j as int] == z);
                            } else {
                                assert(before[k] == z);
                            }
                        }
                    }
                    assert forall|p: int, q: int| 0 <= p < q < n implies ids@[p] != ids@[q] by {
                        let pp = if p == j { j - 1 } else if p == j - 1 { j as int } else { p };
                        let qq = if q == j { j - 1 } else if q == j - 1 { j as int } else { q };
                        assert(ids@[p] == before[pp]);
                        assert(ids@[q] == before[qq]);
                    }
                }
                j = j - 1;
            }
            proof {
                assert forall|p: int, q: int| 0 <= p < q < i + 1 implies self.node_less(#[trigger] ids@[p], #[trigger] ids@[q]) by {
                    let np = self.nodes@[ids@[p] as int];
                    let nq = self.nodes@[ids@[q] as int];
                    if q == j {
                        let nm = self.nodes@[ids@[j - 1] as int];
                        let nj = self.nodes@[ids@[j as int] as int];
                        assert(ids@[j - 1] != ids@[j as int]);
                        assert(nm.key != nj.key) by {
                            assert(self.key_to_node@[nm.key as int] == ids@[j - 1]);
                            assert(self.key_to_node@[nj.key as int] == ids@[j as int]);
                        }
                        lemma_entry_order(nm.value, nm.key, nj.value, nj.key, nj.value, nj.key);
                        if p < j - 1 {
                            lemma_entry_order(np.value, np.key, nm.value, nm.key, nj.value, nj.key);
                        }
                    } else if p == j {
                    } else {
                    }
                }
            }
            i = i + 1;
        }
    }
}

impl BlockDs {
    fn push_node_to_block_tail(&mut self, block_id: u32, node_id: u32)
        requires
            block_id < old(self).blocks.len(),
        ensures
            final(self).blocks@.len() == old(self).blocks@.len(),
            final(self).blocks@[block_id as int].items@ == old(self).blocks@[block_id as int].items@.push(node_id),
            final(self).blocks@[block_id as int].seq == old(self).blocks@[block_id as int].seq,
            final(self).blocks@[block_id as int].upper == old(self).blocks@[block_id as int].upper,
            final(self).blocks@[block_id as int].alive == old(self).blocks@[block_id as int].alive,
            forall|b: int| 0 <= b < old(self).blocks.len() && b != block_id ==> #[trigger] final(self).blocks@[b] == old(self).blocks@[b],
            final(self).nodes == old(self).nodes,
            final(self).d0 == old(self).d0,
            final(self).d1 == old(self).d1,
            final(self).key_to_node@ == old(self).key_to_node@,
            final(self).dirty_keys == old(self).dirty_keys,
            final(self).alive_count == old(self).alive_count,
            final(self).m == old(self).m,
            final(self).upper_bound_b == old(self).upper_bound_b,
    {
        self.blocks[block_id as usize].items.push(node_id);
    }

    /// The node ids of a block, in order.
    fn collect_block_nodes(&self, block_id: u32) -> (out: Vec<u32>)
        requires
            block_id < self.blocks.len(),
        ensures
            out@ == self.blocks@[block_id as int].items@,
    {
        let b = block_id as usize;
        let mut out: Vec<u32> = Vec::with_capacity(self.blocks[b].items.len());
        let mut i: usize = 0;
        while i < self.blocks[b].items.len()
            invariant
                b < self.blocks.len(),
                i <= self.blocks@[b as int].items.len(),
                out@ == self.blocks@[b as int].items@.take(i as int),
            decreases self.blocks@[b as int].items.len() - i,
        {
            out.push(self.blocks[b].items[i]);
            i = i + 1;
            proof {
                assert(out@ =~= self.blocks@[b as int].items@.take(i as int));
            }
        }
        proof {
            assert(self.blocks@[b as int].items@.take(i as int) =~= self.blocks@[b as int].items@);
        }
        out
    }

    /// Makes `ids` the nodes of block `block_id`, with upper bound `upper`.
    fn reset_block_nodes(&mut self, block_id: u32, ids: Vec<u32>, upper: PathDist)
        requires
            block_id < old(self).blocks.len(),
            old(self).nodes.len() < NONE,
            forall|i: int| 0 <= i < ids.len() ==> #[trigger] ids@[i] < old(self).nodes.len(),
        ensures
            final(self).blocks@.len() == old(self).blocks@.len(),
            final(self).blocks@[block_id as int].items@ == ids@,
            final(self).blocks@[block_id as int].seq == old(self).blocks@[block_id as int].seq,
            final(self).blocks@[block_id as int].upper == upper,
            final(self).blocks@[block_id as int].alive == old(self).blocks@[block_id as int].alive,
            forall|b: int| 0 <= b < old(self).blocks.len() && b != block_id ==> #[trigger] final(self).blocks@[b] == old(self).blocks@[b],
            final(self).nodes.len() == old(self).nodes.len(),
            forall|id: int|
                0 <= id < old(self).nodes.len() ==> #[trigger] final(self).nodes@[id] == if ids@.contains(id as u32) {
                    Node { block_id, ..old(self).nodes@[id] }
                } else {
                    old(self).nodes@[id]
                },
            final(self).d0@ == old(self).d0@,
            final(self).d1@ == old(self).d1@,
            final(self).key_to_node@ == old(self).key_to_node@,
            final(self).dirty_keys@ == old(self).dirty_keys@,
            final(self).alive_count == old(self).alive_count,
            final(self).m == old(self).m,
            final(self).upper_bound_b == old(self).upper_bound_b,
    {
        let ghost nodes0 = self.nodes@;
        let ghost blocks0 = self.blocks@;
        let ghost d00 = self.d0@;
        let ghost d10 = self.d1@;
        let ghost k2n0 = self.key_to_node@;
        let ghost dirty0 = self.dirty_keys@;
        let ghost count0 = self.alive_count;
        let ghost m0 = self.m;
        let ghost ub0 = self.upper_bound_b;
        let b = block_id as usize;
        let mut i: usize = 0;
        while i < ids.len()
            invariant
                i <= ids.len(),
                b < blocks0.len(),
                self.blocks@ == blocks0,
                self.d0@ == d00,
                self.d1@ == d10,
                self.key_to_node@ == k2n0,
                self.dirty_keys@ == dirty0,
                self.alive_count == count0,
                self.m == m0,
                self.upper_bound_b == ub0,
                self.nodes.len() == nodes0.len(),
                nodes0.len() < NONE,
                forall|k: int| 0 <= k < ids.len() ==> #[trigger] ids@[k] < nodes0.len(),
                forall|id: int|
                    0 <= id < nodes0.len() ==> #[trigger] self.nodes@[id] == if has_before(ids@, i as int, id as u32) {
                        Node { block_id, ..nodes0[id] }
                    } else {
                        nodes0[id]
                    },
            decreases ids.len() - i,
        {
            let id = ids[i];
            self.nodes[id as usize].block_id = block_id;
            proof {
                assert forall|x: int| 0 <= x < nodes0.len() implies #[trigger] self.nodes@[x] == if has_before(ids@, i + 1, x as u32) {
                    Node { block_id, ..nodes0[x] }
                } else {
                    nodes0[x]
                } by {
                    if has_before(ids@, i + 1, x as u32) && x != id {
                        let k = choose|k: int| 0 <= k < i + 1 && ids@[k] == x as u32;
                        assert(k != i);
                        assert(has_before(ids@, i as int, x as u32));
                    }
                    if x == id {
                        assert(ids@[i as int] == x as u32);
                    }
                }
            }
            i = i + 1;
        }
        proof {
            assert forall|x: u32| has_before(ids@, ids.len() as int, x) == ids@.contains(x) by {}
        }
        self.blocks[b].items = ids;
        self.blocks[b].upper = upper;
    }
}

impl BlockDs {
    /// Stores `value` for `key`, unless `key` already holds a value that is not
    /// larger. `value` must end at `key` and not exceed the bound.
    #[verifier::rlimit(50)]
    pub fn insert(&mut self, key: u32, value: PathDist)
        requires
            old(self).wf(),
            key < old(self).key_range(),
            value.end_spec() == key,
            pd_le(value, old(self).bound()),
            old(self).used() + 2 < NONE,
        ensures
            final(self).wf(),
            final(self).entries() == if old(self).entries().contains_key(key) && pd_le(old(self).entries()[key], value) {
                old(self).entries()
            } else {
                old(self).entries().insert(key, value)
            },
            final(self).bound() == old(self).bound(),
            final(self).batch() == old(self).batch(),
            final(self).key_range() == old(self).key_range(),
            final(self).used() <= old(self).used() + 2,
    {
        let ghost e0 = self.entries();
        let old_id = self.key_to_node[key as usize];
        if old_id != NONE {
            if value.is_less(&self.nodes[old_id as usize].value) {
                self.delete_node(old_id);
            } else {
                return;
            }
        }
        let (p, block_id) = self.locate_d1_block(value);
        let ghost nodes1 = self.nodes@;
        self.push_new_node(block_id, key, value);
        proof {
            assert forall|x: int| 0 <= x < nodes1.len() implies #[trigger] self.nodes@[x] == nodes1[x] by {}
            assert(self.order_ok());
        }
        if self.blocks[block_id as usize].items.len() > self.m as usize {
            self.split_d1_block(p, block_id);
        }
    }
}

impl BlockDs {
    /// Stores `(key, value)`, for a key not stored, in a new node at the end of block
    /// `block_id`.
    fn push_new_node(&mut self, block_id: u32, key: u32, value: PathDist) -> (id: u32)
        requires
            old(self).blocks_ok(),
            old(self).keys_ok(),
            block_id < old(self).blocks.len(),
            old(self).blocks@[block_id as int].alive,
            key < old(self).key_to_node@.len(),
            !old(self).entries().contains_key(key),
            value.end_spec() == key,
            old(self).nodes.len() + 1 < NONE,
        ensures
            id == old(self).nodes.len(),
            final(self).blocks_ok(),
            final(self).keys_ok(),
            final(self).entries() == old(self).entries().insert(key, value),
            final(self).nodes@ == old(self).nodes@.push(Node { key, value, block_id, alive: true }),
            final(self).blocks@.len() == old(self).blocks@.len(),
            final(self).blocks@[block_id as int].items@ == old(self).blocks@[block_id as int].items@.push(id),
            final(self).blocks@[block_id as int].seq == old(self).blocks@[block_id as int].seq,
            final(self).blocks@[block_id as int].upper == old(self).blocks@[block_id as int].upper,
            final(self).blocks@[block_id as int].alive,
            forall|b: int| 0 <= b < old(self).blocks.len() && b != block_id ==> #[trigger] final(self).blocks@[b] == old(self).blocks@[b],
            final(self).d0 == old(self).d0,
            final(self).d1 == old(self).d1,
            final(self).key_to_node@ == old(self).key_to_node@.update(key as int, id),
            final(self).dirty_keys@ == old(self).dirty_keys@.push(key),
            final(self).m == old(self).m,
            final(self).upper_bound_b == old(self).upper_bound_b,
    {
        let ghost e1 = self.entries();
        let ghost nodes1 = self.nodes@;
        let ghost blocks1 = self.blocks@;
        let ghost dirty1 = self.dirty_keys@;
        let node_id = self.new_node(key, value, block_id);
        self.key_to_node[key as usize] = node_id;
        self.dirty_keys.push(key);
        proof {
            assert forall|k: int|
                0 <= k < self.key_to_node@.len() && self.key_to_node@[k] != NONE implies self.dirty_keys@.contains(k as u32) by {
                if k == key {
                    assert(self.dirty_keys@[self.dirty_keys@.len() - 1] == key);
                } else {
                    assert(dirty1.contains(k as u32));
                    let j = choose|j: int| 0 <= j < dirty1.len() && dirty1[j] == k as u32;
                    assert(self.dirty_keys@[j] == k as u32);
                }
            }
            lemma_u32_set_finite(e1.dom());
            assert(self.entries() =~= e1.insert(key, value)) by {
                assert forall|k: u32| #[trigger] self.entries().dom().contains(k) == e1.insert(key, value).dom().contains(k) by {}
            }
        }
        self.alive_count = self.alive_count + 1;
        self.push_node_to_block_tail(block_id, node_id);
        proof {
            assert forall|x: int| 0 <= x < nodes1.len() implies #[trigger] self.nodes@[x] == nodes1[x] by {}
            assert(self.blocks_ok()) by {
                assert forall|id: int|
                    #![trigger self.nodes@[id]]
                    0 <= id < self.nodes.len() && self.nodes@[id].alive implies {
                        let b = self.nodes@[id].block_id;
                        &&& b < self.blocks.len()
                        &&& self.blocks@[b as int].alive
                        &&& self.blocks@[b as int].items@.contains(id as u32)
                    } by {
                    if id < nodes1.len() {
                        let b = nodes1[id].block_id;
                        assert(blocks1[b as int].items@.contains(id as u32));
                        if b == block_id {
                            let k = choose|k: int| 0 <= k < blocks1[b as int].items@.len() && blocks1[b as int].items@[k] == id as u32;
                            assert(self.blocks@[b as int].items@[k] == id as u32);
                        }
                    } else {
                        assert(self.blocks@[block_id as int].items@[self.blocks@[block_id as int].items.len() - 1] == node_id);
                    }
                }
            }
            assert(self.keys_ok());
        }
        node_id
    }
}

impl BlockDs {
    /// Places block `new_id` in `D1` right after position `left_pos`.
    fn insert_d1_block_after(&mut self, left_pos: usize, new_id: u32)
        requires
            left_pos < old(self).d1.len(),
        ensures
            final(self).d1@ == old(self).d1@.insert(left_pos + 1, new_id),
            final(self).blocks@ == old(self).blocks@,
            final(self).nodes@ == old(self).nodes@,
            final(self).d0@ == old(self).d0@,
            final(self).key_to_node@ == old(self).key_to_node@,
            final(self).dirty_keys@ == old(self).dirty_keys@,
            final(self).alive_count == old(self).alive_count,
            final(self).m == old(self).m,
            final(self).upper_bound_b == old(self).upper_bound_b,
    {
        self.d1.insert(left_pos + 1, new_id);
    }

    /// Splits block `block_id` (at position `p` of `D1`) in two around the median:
    /// the smaller half keeps the block, with the largest of it as upper bound, and the
    /// larger half goes to a new block right after it.
    #[verifier::rlimit(60)]
    fn split_d1_block(&mut self, p: usize, block_id: u32)
        requires
            old(self).wf(),
            p < old(self).d1.len(),
            old(self).d1@[p as int] == block_id,
            old(self).blocks@[block_id as int].items.len() >= 2,
            old(self).blocks.len() + 1 < NONE,
        ensures
            final(self).wf(),
            final(self).entries() == old(self).entries(),
            final(self).used() == old(self).used() + 1,
            final(self).key_to_node@ == old(self).key_to_node@,
            final(self).m == old(self).m,
            final(self).upper_bound_b == old(self).upper_bound_b,
    {
        let ghost nodes0 = self.nodes@;
        let ghost blocks0 = self.blocks@;
        let ghost d10 = self.d1@;
        let ghost e0 = self.entries();
        let b = block_id as usize;
        let mut ids = self.collect_block_nodes(block_id);
        proof {
            assert forall|i: int| 0 <= i < ids.len() implies #[trigger] ids@[i] < self.nodes.len() && self.nodes@[ids@[i] as int].alive by {
                assert(blocks0[b as int].items@[i] == ids@[i]);
            }
        }
        let ghost items0 = ids@;
        self.sort_node_ids(&mut ids);
        let ghost sorted = ids@;
        let mid = ids.len() / 2;
        let left_upper = self.nodes[ids[mid - 1] as usize].value;
        let right_upper = self.blocks[b].upper;
        let right_ids = ids.split_off(mid);
        let ghost left = ids@;
        let ghost right = right_ids@;
        proof {
            assert(left =~= sorted.subrange(0, mid as int));
            assert(right =~= sorted.subrange(mid as int, sorted.len() as int));
            // strictly increasing values along `sorted`
            assert forall|x: int, y: int| 0 <= x < y < sorted.len() implies pd_less(
                nodes0[sorted[x] as int].value,
                nodes0[sorted[y] as int].value,
            ) by {
                assert(self.node_less(sorted[x], sorted[y]));
                let nx = nodes0[sorted[x] as int];
                let ny = nodes0[sorted[y] as int];
                assert(sorted[x] != sorted[y]);
                assert(self.key_to_node@[nx.key as int] == sorted[x]);
                assert(self.key_to_node@[ny.key as int] == sorted[y]);
            }
            assert forall|x: int| 0 <= x < sorted.len() implies #[trigger] items0.contains(sorted[x]) by {
                assert(sorted.contains(sorted[x]));
            }
        }
        self.reset_block_nodes(block_id, ids, left_upper);
        let new_id = self.new_block(BlockSeq::D1, right_upper);
        self.reset_block_nodes(new_id, right_ids, right_upper);
        self.insert_d1_block_after(p, new_id);
        proof {
            let nb = self.blocks@;
            let nn = self.nodes@;
            let nd1 = self.d1@;
            assert(nd1 =~= d10.insert(p + 1, new_id));
            assert(forall|x: int| 0 <= x < blocks0.len() && x != b ==> #[trigger] nb[x] == blocks0[x]);
            assert forall|id: int| 0 <= id < nodes0.len() implies #[trigger] nn[id] == if right.contains(id as u32) {
                Node { block_id: new_id, ..nodes0[id] }
            } else if left.contains(id as u32) {
                Node { block_id, ..nodes0[id] }
            } else {
                nodes0[id]
            } by {
                if right.contains(id as u32) && left.contains(id as u32) {
                    let x = choose|x: int| 0 <= x < left.len() && left[x] == id as u32;
                    let y = choose|y: int| 0 <= y < right.len() && right[y] == id as u32;
                    assert(sorted[x] == sorted[mid + y]);
                }
            }
            // members of the old block are exactly those of the two halves
            assert forall|id: u32| items0.contains(id) implies left.contains(id) || right.contains(id) by {
                assert(sorted.contains(id));
                let x = choose|x: int| 0 <= x < sorted.len() && sorted[x] == id;
                if x < mid {
                    assert(left[x] == id);
                } else {
                    assert(right[x - mid] == id);
                }
            }
            assert forall|id: u32| left.contains(id) || right.contains(id) implies items0.contains(id) by {
                if left.contains(id) {
                    let x = choose|x: int| 0 <= x < left.len() && left[x] == id;
                    assert(sorted[x] == id);
                } else {
                    let x = choose|x: int| 0 <= x < right.len() && right[x] == id;
                    assert(sorted[mid + x] == id);
                }
                assert(sorted.contains(id));
            }
            assert(left.no_duplicates());
            assert(right.no_duplicates());
            assert(nb[b as int].items@ == left);
            assert(nb[new_id as int].items@ == right);
            assert(nd1.no_duplicates()) by {
                assert forall|x: int, y: int| 0 <= x < y < nd1.len() implies nd1[x] != nd1[y] by {
                    if x == p + 1 {
                        assert(d10[y - 1] < blocks0.len());
                    } else if y == p + 1 {
                        assert(d10[x] < blocks0.len());
                    }
                }
            }
            assert(self.blocks_ok()) by {
                assert forall|x: int|
                    #![trigger nb[x]]
                    0 <= x < nb.len() && nb[x].alive implies if nb[x].seq == BlockSeq::D0 {
                        self.d0@.contains(x as u32)
                    } else {
                        nd1.contains(x as u32)
                    } by {
                    if x == new_id {
                        assert(nd1[p + 1] == new_id);
                    } else if blocks0[x].seq == BlockSeq::D1 {
                        let k = choose|k: int| 0 <= k < d10.len() && d10[k] == x as u32;
                        if k <= p {
                            assert(nd1[k] == x as u32);
                        } else {
                            assert(nd1[k + 1] == x as u32);
                        }
                    }
                }
                assert forall|x: int, k: int|
                    #![trigger nb[x].items@[k]]
                    0 <= x < nb.len() && nb[x].alive && 0 <= k < nb[x].items.len() implies {
                        let id = nb[x].items@[k];
                        &&& id < nn.len()
                        &&& nn[id as int].alive
                        &&& nn[id as int].block_id == x
                    } by {
                    let id = nb[x].items@[k];
                    if x == b {
                        assert(left.contains(id));
                        assert(items0.contains(id));
                        let j = choose|j: int| 0 <= j < items0.len() && items0[j] == id;
                        assert(blocks0[b as int].items@[j] == id);
                    } else if x == new_id {
                        assert(right.contains(id));
                        assert(items0.contains(id));
                        let j = choose|j: int| 0 <= j < items0.len() && items0[j] == id;
                        assert(blocks0[b as int].items@[j] == id);
                    } else {
                        assert(blocks0[x].items@[k] == id);
                        assert(nodes0[id as int].block_id == x);
                        if left.contains(id) || right.contains(id) {
                            assert(items0.contains(id));
                            let j = choose|j: int| 0 <= j < items0.len() && items0[j] == id;
                            assert(blocks0[b as int].items@[j] == id);
                        }
                    }
                }
                assert forall|id: int|
                    #![trigger nn[id]]
                    0 <= id < nn.len() && nn[id].alive implies {
                        let x = nn[id].block_id;
                        &&& x < nb.len()
                        &&& nb[x as int].alive
                        &&& nb[x as int].items@.contains(id as u32)
                    } by {
                    if !right.contains(id as u32) && !left.contains(id as u32) {
                        let x = nodes0[id].block_id;
                        assert(blocks0[x as int].items@.contains(id as u32));
                        if x == b {
                            assert(items0.contains(id as u32));
                        }
                    }
                }
            }
            assert(self.keys_ok());
            assert forall|id: int| 0 <= id < nodes0.len() implies #[trigger] nn[id].value == nodes0[id].value by {}
            assert(nn.len() == nodes0.len());
            lemma_split_order(
                self.m,
                self.upper_bound_b,
                nodes0,
                blocks0,
                self.d0@,
                d10,
                nn,
                nb,
                nd1,
                p as int,
                block_id,
                new_id,
                sorted,
                mid as int,
                left_upper,
                right_upper,
            );
        }
    }
}

/// Splitting a block of `D1` around the median keeps the order of the blocks.
#[verifier::rlimit(80)]
proof fn lemma_split_order(
    m: u32,
    ub: PathDist,
    nodes0: Seq<Node>,
    blocks0: Seq<Block>,
    d0: Seq<u32>,
    d10: Seq<u32>,
    nn: Seq<Node>,
    nb: Seq<Block>,
    nd1: Seq<u32>,
    p: int,
    b: u32,
    new_id: u32,
    sorted: Seq<u32>,
    mid: int,
    lu: PathDist,
    ru: PathDist,
)
    requires
        order_raw(m, ub, nodes0, blocks0, d0, d10, -1),
        forall|k: int| 0 <= k < d0.len() ==> #[trigger] d0[k] < blocks0.len() && d0[k] != b,
        forall|k: int| 0 <= k < d10.len() ==> #[trigger] d10[k] < blocks0.len(),
        forall|q: int, k: int|
            0 <= q < d0.len() && 0 <= k < blocks0[d0[q] as int].items.len() ==> #[trigger] blocks0[d0[q] as int].items@[k]
                < nodes0.len(),
        forall|q: int, k: int|
            0 <= q < d10.len() && 0 <= k < blocks0[d10[q] as int].items.len() ==> #[trigger] blocks0[d10[q] as int].items@[k]
                < nodes0.len(),
        d10.no_duplicates(),
        0 <= p < d10.len(),
        d10[p] == b,
        new_id == blocks0.len(),
        nd1 == d10.insert(p + 1, new_id),
        nb.len() == blocks0.len() + 1,
        forall|x: int| 0 <= x < blocks0.len() && x != b ==> #[trigger] nb[x] == blocks0[x],
        nb[b as int].items@ == sorted.subrange(0, mid),
        nb[b as int].upper == lu,
        nb[new_id as int].items@ == sorted.subrange(mid, sorted.len() as int),
        nb[new_id as int].upper == ru,
        ru == blocks0[b as int].upper,
        1 <= mid < sorted.len(),
        lu == nodes0[sorted[mid - 1] as int].value,
        nn.len() == nodes0.len(),
        forall|id: int| 0 <= id < nodes0.len() ==> #[trigger] nn[id].value == nodes0[id].value,
        forall|x: int| 0 <= x < sorted.len() ==> sorted[x] < nodes0.len() && #[trigger] blocks0[b as int].items@.contains(sorted[x]),
        forall|x: int, y: int|
            0 <= x < y < sorted.len() ==> pd_less(#[trigger] nodes0[sorted[x] as int].value, #[trigger] nodes0[sorted[y] as int].value),
    ensures
        order_raw(m, ub, nn, nb, d0, nd1, -1),
{
    let n_old = d10.len() as int;
    assert forall|q: int| 0 <= q < d0.len() implies #[trigger] nb[d0[q] as int] == blocks0[d0[q] as int] by {}
    assert(nd1.len() == n_old + 1);
    assert forall|q: int| 0 <= q <= p implies #[trigger] nd1[q] == d10[q] by {}
    assert(nd1[p + 1] == new_id);
    assert forall|q: int| p + 1 < q < nd1.len() implies #[trigger] nd1[q] == d10[q - 1] by {}
    assert forall|q: int| 0 <= q < n_old && q != p implies #[trigger] d10[q] != b by {}
    // the upper bound at each position of the new list
    assert forall|q: int| 0 <= q < nd1.len() implies #[trigger] nb[nd1[q] as int].upper == if q < p {
        blocks0[d10[q] as int].upper
    } else if q == p {
        lu
    } else if q == p + 1 {
        ru
    } else {
        blocks0[d10[q - 1] as int].upper
    } by {
        if q < p {
            assert(d10[q] != b);
        } else if q > p + 1 {
            assert(d10[q - 1] != b);
        }
    }
    // an element of the right half lies above `lu`, and the left half's largest is `lu`
    let sm = sorted[mid];
    assert(pd_less(lu, nodes0[sm as int].value));
    assert(blocks0[b as int].items@.contains(sorted[mid]));
    let k_sm = choose|k: int| 0 <= k < blocks0[b as int].items@.len() && blocks0[b as int].items@[k] == sm;
    assert(pd_le(nodes0[sm as int].value, ru)) by {
        assert(blocks0[d10[p] as int].items@[k_sm] == sm);
    }
    lemma_pd_trans(lu, nodes0[sm as int].value, ru);
    let sl = sorted[mid - 1];
    assert(blocks0[b as int].items@.contains(sorted[mid - 1]));
    let k_sl = choose|k: int| 0 <= k < blocks0[b as int].items@.len() && blocks0[b as int].items@[k] == sl;
    if p > 0 {
        assert(pd_less(blocks0[d10[p - 1] as int].upper, lu)) by {
            assert(blocks0[d10[p] as int].items@[k_sl] == sl);
        }
    }
    assert forall|x: int, y: int|
        #![trigger nd1[x], nd1[y]]
        0 <= x < y < nd1.len() implies pd_less(nb[nd1[x] as int].upper, nb[nd1[y] as int].upper) by {
        let ux = nb[nd1[x] as int].upper;
        let uy = nb[nd1[y] as int].upper;
        if y <= p {
            if y == p {
                if x < p - 1 {
                    assert(pd_less(blocks0[d10[x] as int].upper, blocks0[d10[p - 1] as int].upper));
                    lemma_pd_trans(ux, blocks0[d10[p - 1] as int].upper, lu);
                }
            } else {
                assert(pd_less(blocks0[d10[x] as int].upper, blocks0[d10[y] as int].upper));
            }
        } else if y == p + 1 {
            if x < p {
                assert(pd_less(blocks0[d10[x] as int].upper, blocks0[d10[p] as int].upper));
            }
        } else {
            assert(pd_less(blocks0[d10[p] as int].upper, blocks0[d10[y - 1] as int].upper));
            if x < p {
                assert(pd_less(blocks0[d10[x] as int].upper, blocks0[d10[y - 1] as int].upper));
            } else if x == p {
                lemma_pd_trans(lu, ru, uy);
            } else if x > p + 1 {
                assert(pd_less(blocks0[d10[x - 1] as int].upper, blocks0[d10[y - 1] as int].upper));
            }
        }
    }
    assert forall|q: int, k: int|
        #![trigger nb[nd1[q] as int].items@[k]]
        0 <= q < nd1.len() && 0 <= k < nb[nd1[q] as int].items.len() implies {
            let v = nn[(nb[nd1[q] as int].items@[k]) as int].value;
            &&& pd_le(v, nb[nd1[q] as int].upper)
            &&& q > 0 ==> pd_less(nb[nd1[q - 1] as int].upper, v)
        } by {
        let id = nb[nd1[q] as int].items@[k];
        if q < p {
            assert(blocks0[d10[q] as int].items@[k] == id);
        } else if q == p {
            assert(id == sorted[k]);
            assert(blocks0[b as int].items@.contains(sorted[k]));
            let kk = choose|j: int| 0 <= j < blocks0[b as int].items@.len() && blocks0[b as int].items@[j] == id;
            assert(blocks0[d10[p] as int].items@[kk] == id);
            if k < mid - 1 {
                assert(pd_less(nodes0[sorted[k] as int].value, nodes0[sorted[mid - 1] as int].value));
            }
        } else if q == p + 1 {
            assert(id == sorted[mid + k]);
            assert(blocks0[b as int].items@.contains(sorted[mid + k]));
            let kk = choose|j: int| 0 <= j < blocks0[b as int].items@.len() && blocks0[b as int].items@[j] == id;
            assert(blocks0[d10[p] as int].items@[kk] == id);
            if k > 0 {
                assert(pd_less(nodes0[sorted[mid - 1] as int].value, nodes0[sorted[mid + k] as int].value));
            }
        } else {
            assert(blocks0[d10[q - 1] as int].items@[k] == id);
            if q == p + 2 {
            }
        }
    }
    assert forall|q: int|
        #![trigger nd1[q]]
        0 <= q < nd1.len() - 1 && nd1[q] != -1 implies nb[nd1[q] as int].items.len() > 0 by {
        if q < p {
            assert(blocks0[d10[q] as int].items.len() > 0);
        } else if q > p + 1 {
            assert(blocks0[d10[q - 1] as int].items.len() > 0);
        }
    }
    assert(nb[nd1[nd1.len() - 1] as int].upper == ub) by {
        if p + 1 == nd1.len() - 1 {
        } else {
            assert(nd1[nd1.len() - 1] == d10[n_old - 1]);
        }
    }
    assert forall|q1: int, q2: int, i: int, j: int|
        #![trigger nb[d0[q1] as int].items@[i], nb[d0[q2] as int].items@[j]]
        0 <= q1 < q2 < d0.len() && 0 <= i < nb[d0[q1] as int].items.len() && 0 <= j < nb[d0[q2] as int].items.len()
            implies pd_less(
            nn[(nb[d0[q1] as int].items@[i]) as int].value,
            nn[(nb[d0[q2] as int].items@[j]) as int].value,
        ) by {
        assert(blocks0[d0[q1] as int].items@[i] == nb[d0[q1] as int].items@[i]);
        assert(blocks0[d0[q2] as int].items@[j] == nb[d0[q2] as int].items@[j]);
        assert(blocks0[d0[q1] as int].items@[i] < nodes0.len());
        assert(blocks0[d0[q2] as int].items@[j] < nodes0.len());
    }
}

/// The node ids of the blocks in `list`, block after block.
spec fn flat(blocks: Seq<Block>, list: Seq<u32>) -> Seq<u32>
    decreases list.len(),
{
    if list.len() == 0 {
        Seq::empty()
    } else {
        flat(blocks, list.drop_last()) + blocks[list.last() as int].items@
    }
}

/// Where each entry of `flat` comes from.
proof fn lemma_flat_members(blocks: Seq<Block>, list: Seq<u32>)
    ensures
        forall|q: int, k: int|
            0 <= q < list.len() && 0 <= k < blocks[list[q] as int].items.len() ==> #[trigger] flat(blocks, list).contains(
                blocks[list[q] as int].items@[k],
            ),
        forall|x: u32|
            #[trigger] flat(blocks, list).contains(x) ==> exists|q: int, k: int|
                0 <= q < list.len() && 0 <= k < blocks[list[q] as int].items.len() && blocks[list[q] as int].items@[k] == x,
    decreases list.len(),
{
    if list.len() > 0 {
        let init = list.drop_last();
        lemma_flat_members(blocks, init);
        let f0 = flat(blocks, init);
        let last = blocks[list.last() as int].items@;
        assert forall|q: int, k: int|
            0 <= q < list.len() && 0 <= k < blocks[list[q] as int].items.len() implies #[trigger] flat(blocks, list).contains(
                blocks[list[q] as int].items@[k],
            ) by {
            if q < list.len() - 1 {
                assert(init[q] == list[q]);
                assert(f0.contains(blocks[init[q] as int].items@[k]));
                let i = choose|i: int| 0 <= i < f0.len() && f0[i] == blocks[list[q] as int].items@[k];
                assert(flat(blocks, list)[i] == f0[i]);
            } else {
                assert(flat(blocks, list)[f0.len() + k] == last[k]);
            }
        }
        assert forall|x: u32| #[trigger] flat(blocks, list).contains(x) implies exists|q: int, k: int|
            0 <= q < list.len() && 0 <= k < blocks[list[q] as int].items.len() && blocks[list[q] as int].items@[k] == x by {
            let i = choose|i: int| 0 <= i < flat(blocks, list).len() && flat(blocks, list)[i] == x;
            if i < f0.len() {
                assert(f0[i] == x);
                assert(f0.contains(x));
                let (q, k) = choose|q: int, k: int|
                    0 <= q < init.len() && 0 <= k < blocks[init[q] as int].items.len() && blocks[init[q] as int].items@[k] == x;
                assert(list[q] == init[q]);
            } else {
                assert(last[i - f0.len()] == x);
                assert(list[list.len() - 1] == list.last());
            }
        }
    }
}

/// A `take` of one more block adds that block's ids.
proof fn lemma_flat_take(blocks: Seq<Block>, list: Seq<u32>, j: int)
    requires
        0 <= j < list.len(),
    ensures
        flat(blocks, list.take(j + 1)) == flat(blocks, list.take(j)) + blocks[list[j] as int].items@,
{
    assert(list.take(j + 1).drop_last() =~= list.take(j));
}

/// `P` has no more elements than `S` minus one, when all of them lie in `S` and
/// differ from `a`, an element of `S`.
proof fn lemma_pigeonhole(pp: Seq<u32>, ss: Seq<u32>, a: u32)
    requires
        pp.no_duplicates(),
        ss.no_duplicates(),
        ss.contains(a),
        forall|x: u32| pp.contains(x) ==> ss.contains(x) && x != a,
    ensures
        pp.len() <= ss.len() - 1,
{
    pp.unique_seq_to_set();
    ss.unique_seq_to_set();
    let t = ss.to_set().remove(a);
    assert(pp.to_set().subset_of(t));
    vstd::set_lib::lemma_len_subset(pp.to_set(), t);
}

/// Blocks with different ids hold different nodes, so the ids of distinct blocks
/// are distinct.
proof fn lemma_flat_nodup(nodes: Seq<Node>, blocks: Seq<Block>, list: Seq<u32>)
    requires
        list.no_duplicates(),
        forall|q: int| 0 <= q < list.len() ==> #[trigger] list[q] < blocks.len(),
        forall|q: int| 0 <= q < list.len() ==> (#[trigger] blocks[list[q] as int]).items@.no_duplicates(),
        forall|q: int, k: int|
            0 <= q < list.len() && 0 <= k < blocks[list[q] as int].items.len() ==> #[trigger] blocks[list[q] as int].items@[k]
                < nodes.len() && nodes[blocks[list[q] as int].items@[k] as int].block_id == list[q],
    ensures
        flat(blocks, list).no_duplicates(),
    decreases list.len(),
{
    if list.len() > 0 {
        let init = list.drop_last();
        assert forall|q: int| 0 <= q < init.len() implies #[trigger] init[q] == list[q] by {}
        lemma_flat_nodup(nodes, blocks, init);
        lemma_flat_members(blocks, init);
        let f0 = flat(blocks, init);
        let last = blocks[list.last() as int].items@;
        let f = flat(blocks, list);
        assert(f == f0 + last);
        assert forall|x: int, y: int| 0 <= x < y < f.len() implies f[x] != f[y] by {
            if y >= f0.len() && x < f0.len() {
                let v = f[x];
                assert(f0.contains(v));
                let (q, k) = choose|q: int, k: int|
                    0 <= q < init.len() && 0 <= k < blocks[init[q] as int].items.len() && blocks[init[q] as int].items@[k] == v;
                assert(nodes[v as int].block_id == list[q]);
                assert(last[y - f0.len()] == f[y]);
                assert(nodes[f[y] as int].block_id == list[list.len() - 1]);
            } else if y >= f0.len() {
                assert(last[x - f0.len()] != last[y - f0.len()]);
            } else {
                assert(f0[x] != f0[y]);
            }
        }
    }
}

impl BlockDs {
    /// Appends to `out` the nodes of the first blocks of `D0` (when `use_d0`) or `D1`,
    /// block by block, until at least `m` were appended or the list ends; returns
    /// the number of blocks taken.
    fn collect_prefix(&self, use_d0: bool, m: usize, out: &mut Vec<u32>) -> (j: usize)
        requires
            self.wf(),
        ensures
            ({
                let list = if use_d0 {
                    self.d0@
                } else {
                    self.d1@
                };
                &&& j <= list.len()
                &&& final(out)@ == old(out)@ + flat(self.blocks@, list.take(j as int))
                &&& j == list.len() || flat(self.blocks@, list.take(j as int)).len() >= m
            }),
    {
        let ghost list = if use_d0 {
            self.d0@
        } else {
            self.d1@
        };
        let ghost out0 = out@;
        let n = if use_d0 {
            self.d0.len()
        } else {
            self.d1.len()
        };
        let mut q: usize = 0;
        let start = out.len();
        while q < n
            invariant_except_break
                q <= n,
            invariant
                self.wf(),
                n == list.len(),
                list == if use_d0 {
                    self.d0@
                } else {
                    self.d1@
                },
                q <= n,
                out@ == out0 + flat(self.blocks@, list.take(q as int)),
                start == out0.len(),
            ensures
                q <= n,
                out@ == out0 + flat(self.blocks@, list.take(q as int)),
                q == n || flat(self.blocks@, list.take(q as int)).len() >= m,
            decreases n - q,
        {
            if out.len() - start >= m {
                break;
            }
            let b = if use_d0 {
                self.d0[q]
            } else {
                self.d1[q]
            };
            let ghost before = out@;
            let len_b = self.blocks[b as usize].items.len();
            let mut k: usize = 0;
            while k < len_b
                invariant
                    self.wf(),
                    b < self.blocks.len(),
                    len_b == self.blocks@[b as int].items.len(),
                    k <= len_b,
                    out@ == before + self.blocks@[b as int].items@.take(k as int),
                decreases len_b - k,
            {
                out.push(self.blocks[b as usize].items[k]);
                k = k + 1;
                proof {
                    assert(out@ =~= before + self.blocks@[b as int].items@.take(k as int));
                }
            }
            proof {
                assert(self.blocks@[b as int].items@.take(k as int) =~= self.blocks@[b as int].items@);
                lemma_flat_take(self.blocks@, list, q as int);
                assert(out@ =~= out0 + flat(self.blocks@, list.take(q + 1)));
            }
            q = q + 1;
        }
        q
    }

    /// The smallest value in block `block_id`, if any.
    fn block_min_value(&self, block_id: u32) -> (r: Option<PathDist>)
        requires
            self.wf(),
            block_id < self.blocks.len(),
            self.blocks@[block_id as int].alive,
        ensures
            r is None <==> self.blocks@[block_id as int].items.len() == 0,
            r matches Some(v) ==> (exists|k: int|
                0 <= k < self.blocks@[block_id as int].items.len() && self.val(self.blocks@[block_id as int].items@[k]) == v)
                && forall|k: int|
                0 <= k < self.blocks@[block_id as int].items.len() ==> pd_le(v, self.val(#[trigger] self.blocks@[block_id as int].items@[k])),
    {
        let b = block_id as usize;
        let n = self.blocks[b].items.len();
        let mut ans: Option<PathDist> = None;
        let mut k: usize = 0;
        while k < n
            invariant
                self.wf(),
                b < self.blocks.len(),
                self.blocks@[b as int].alive,
                n == self.blocks@[b as int].items.len(),
                k <= n,
                ans is None <==> k == 0,
                ans matches Some(v) ==> (exists|i: int| 0 <= i < k && self.val(self.blocks@[b as int].items@[i]) == v)
                    && forall|i: int| 0 <= i < k ==> pd_le(v, self.val(#[trigger] self.blocks@[b as int].items@[i])),
            decreases n - k,
        {
            let id = self.blocks[b].items[k];
            proof {
                assert(id < self.nodes.len());
            }
            let v = self.nodes[id as usize].value;
            ans = match ans {
                Some(x) => if v.is_less(&x) {
                    proof {
                        assert forall|i: int| 0 <= i < k + 1 implies pd_le(v, self.val(#[trigger] self.blocks@[b as int].items@[i])) by {
                            if i < k {
                                lemma_pd_trans(v, x, self.val(self.blocks@[b as int].items@[i]));
                            }
                        }
                    }
                    Some(v)
                } else {
                    Some(x)
                },
                None => Some(v),
            };
            k = k + 1;
        }
        ans
    }
}

impl BlockDs {
    /// Where the node of a stored key sits: a position of `D0` or `D1` and an index in
    /// that block.
    proof fn lemma_locate_key(&self, key: u32) -> (r: (bool, int, int))
        requires
            self.wf(),
            self.entries().contains_key(key),
        ensures
            ({
                let id = self.buffer()[key as int];
                let list = if r.0 {
                    self.d0@
                } else {
                    self.d1@
                };
                &&& 0 <= r.1 < list.len()
                &&& 0 <= r.2 < self.blocks@[list[r.1] as int].items.len()
                &&& self.blocks@[list[r.1] as int].items@[r.2] == id
                &&& id < self.nodes.len()
                &&& self.nodes@[id as int].alive
                &&& self.nodes@[id as int].key == key
                &&& self.val(id) == self.entries()[key]
            }),
    {
        let id = self.key_to_node@[key as int];
        assert(self.nodes@[id as int].alive);
        let b = self.nodes@[id as int].block_id;
        assert(self.blocks@[b as int].items@.contains(id));
        let k = choose|k: int| 0 <= k < self.blocks@[b as int].items.len() && self.blocks@[b as int].items@[k] == id;
        if self.blocks@[b as int].seq == BlockSeq::D0 {
            assert(self.d0@.contains(b));
            let q = choose|q: int| 0 <= q < self.d0@.len() && self.d0@[q] == b;
            (true, q, k)
        } else {
            assert(self.d1@.contains(b));
            let q = choose|q: int| 0 <= q < self.d1@.len() && self.d1@[q] == b;
            (false, q, k)
        }
    }

    /// The smallest stored value, if any.
    fn min_remaining_value(&self) -> (r: Option<PathDist>)
        requires
            self.wf(),
        ensures
            r is None <==> (forall|k: u32| !self.entries().contains_key(k)),
            r matches Some(v) ==> (exists|k: u32| self.entries().contains_key(k) && self.entries()[k] == v) && (forall|k: u32|
                #[trigger] self.entries().contains_key(k) ==> pd_le(v, self.entries()[k])),
    {
        let d0_min = if self.d0.len() > 0 {
            self.block_min_value(self.d0[0])
        } else {
            None
        };
        let d1_min = if self.d1.len() > 0 {
            self.block_min_value(self.d1[0])
        } else {
            None
        };
        let r = match (d0_min, d1_min) {
            (Some(a), Some(b)) => if b.is_less(&a) {
                Some(b)
            } else {
                Some(a)
            },
            (Some(a), None) => Some(a),
            (None, Some(b)) => Some(b),
            (None, None) => None,
        };
        proof {
            // every stored value is at least the minimum of a front block
            assert forall|k: u32| #[trigger] self.entries().contains_key(k) implies (d0_min matches Some(a) && pd_le(
                a,
                self.entries()[k],
            )) || (d1_min matches Some(b) && pd_le(b, self.entries()[k])) by {
                let (in_d0, q, i) = self.lemma_locate_key(k);
                let id = self.key_to_node@[k as int];
                if in_d0 {
                    assert(self.blocks@[self.d0@[0] as int].items.len() > 0);
                    if q > 0 {
                        let a = d0_min->0;
                        let j = choose|j: int|
                            0 <= j < self.blocks@[self.d0@[0] as int].items.len() && self.val(self.blocks@[self.d0@[0] as int].items@[j]) == a;
                        assert(pd_less(
                            self.val(self.blocks@[self.d0@[0] as int].items@[j]),
                            self.val(self.blocks@[self.d0@[q] as int].items@[i]),
                        ));
                    }
                } else {
                    if q > 0 {
                        assert(self.blocks@[self.d1@[0] as int].items.len() > 0);
                        let b = d1_min->0;
                        let j = choose|j: int|
                            0 <= j < self.blocks@[self.d1@[0] as int].items.len() && self.val(self.blocks@[self.d1@[0] as int].items@[j]) == b;
                        let u0 = self.blocks@[self.d1@[0] as int].upper;
                        let uq = self.blocks@[self.d1@[q - 1] as int].upper;
                        let x = self.val(self.blocks@[self.d1@[0] as int].items@[j]);
                        let y = self.val(self.blocks@[self.d1@[q] as int].items@[i]);
                        assert(pd_le(x, u0));
                        assert(pd_less(uq, y));
                        if q - 1 > 0 {
                            assert(pd_less(u0, uq));
                        }
                        lemma_pd_trans(x, u0, uq);
                        lemma_pd_trans(x, uq, y);
                    }
                }
            }
            // a minimum of a front block is a stored value
            assert(d0_min matches Some(a) ==> exists|k: u32| self.entries().contains_key(k) && self.entries()[k] == a) by {
                if d0_min is Some {
                    let a = d0_min->0;
                    let j = choose|j: int|
                        0 <= j < self.blocks@[self.d0@[0] as int].items.len() && self.val(self.blocks@[self.d0@[0] as int].items@[j]) == a;
                    let id = self.blocks@[self.d0@[0] as int].items@[j];
                    let key = self.nodes@[id as int].key;
                    assert(self.entries().contains_key(key));
                }
            }
            assert(d1_min matches Some(b) ==> exists|k: u32| self.entries().contains_key(k) && self.entries()[k] == b) by {
                if d1_min is Some {
                    let b = d1_min->0;
                    let j = choose|j: int|
                        0 <= j < self.blocks@[self.d1@[0] as int].items.len() && self.val(self.blocks@[self.d1@[0] as int].items@[j]) == b;
                    let id = self.blocks@[self.d1@[0] as int].items@[j];
                    let key = self.nodes@[id as int].key;
                    assert(self.entries().contains_key(key));
                }
            }
            if let (Some(a), Some(b)) = (d0_min, d1_min) {
                assert forall|k: u32| #[trigger] self.entries().contains_key(k) implies pd_le(r->0, self.entries()[k]) by {
                    lemma_pd_trans(r->0, a, self.entries()[k]);
                    lemma_pd_trans(r->0, b, self.entries()[k]);
                }
            }
        }
        r
    }
}

impl BlockDs {
    /// `D0` or `D1`.
    spec fn list_of(&self, use_d0: bool) -> Seq<u32> {
        if use_d0 {
            self.d0@
        } else {
            self.d1@
        }
    }

    /// The ids of the first `j` blocks of a list are all live nodes, without repeats.
    proof fn lemma_prefix_ids(&self, use_d0: bool, j: int)
        requires
            self.wf(),
            0 <= j <= self.list_of(use_d0).len(),
        ensures
            ({
                let list = self.list_of(use_d0);
                let f = flat(self.blocks@, list.take(j));
                &&& f.no_duplicates()
                &&& forall|x: u32|
                    #[trigger] f.contains(x) ==> x < self.nodes.len() && self.nodes@[x as int].alive
                        && self.blocks@[self.nodes@[x as int].block_id as int].seq == (if use_d0 {
                        BlockSeq::D0
                    } else {
                        BlockSeq::D1
                    })
            }),
    {
        let list = self.list_of(use_d0);
        let t = list.take(j);
        assert forall|q: int| 0 <= q < t.len() implies #[trigger] t[q] == list[q] by {}
        assert(t.no_duplicates());
        lemma_flat_nodup(self.nodes@, self.blocks@, t);
        lemma_flat_members(self.blocks@, t);
        assert forall|x: u32| #[trigger] flat(self.blocks@, t).contains(x) implies x < self.nodes.len() && self.nodes@[x as int].alive
            && self.blocks@[self.nodes@[x as int].block_id as int].seq == (if use_d0 {
            BlockSeq::D0
        } else {
            BlockSeq::D1
        }) by {
            let (q, k) = choose|q: int, k: int|
                0 <= q < t.len() && 0 <= k < self.blocks@[t[q] as int].items.len() && self.blocks@[t[q] as int].items@[k] == x;
            assert(self.blocks@[list[q] as int].items@[k] == x);
        }
    }

    /// A live node outside the first `j` blocks of its list lies after all of them, so
    /// `j` is not the whole list and every node of those blocks comes before it.
    proof fn lemma_outside_prefix(&self, use_d0: bool, j: int, id: u32)
        requires
            self.wf(),
            0 <= j <= self.list_of(use_d0).len(),
            id < self.nodes.len(),
            self.nodes@[id as int].alive,
            self.blocks@[self.nodes@[id as int].block_id as int].seq == (if use_d0 {
                BlockSeq::D0
            } else {
                BlockSeq::D1
            }),
            !flat(
                self.blocks@,
                self.list_of(use_d0).take(j),
            ).contains(id),
        ensures
            j < self.list_of(use_d0).len(),
            forall|x: u32|
                #[trigger] flat(
                    self.blocks@,
                    self.list_of(use_d0).take(j),
                ).contains(x) ==> pd_less(self.val(x), self.val(id)),
    {
        let list = self.list_of(use_d0);
        let t = list.take(j);
        let b = self.nodes@[id as int].block_id;
        assert(self.blocks@[b as int].items@.contains(id));
        let k = choose|k: int| 0 <= k < self.blocks@[b as int].items.len() && self.blocks@[b as int].items@[k] == id;
        assert(list.contains(b));
        let q = choose|q: int| 0 <= q < list.len() && list[q] == b;
        lemma_flat_members(self.blocks@, t);
        if q < j {
            assert(t[q] == list[q]);
            assert(flat(self.blocks@, t).contains(self.blocks@[t[q] as int].items@[k]));
        }
        assert forall|x: u32| #[trigger] flat(self.blocks@, t).contains(x) implies pd_less(self.val(x), self.val(id)) by {
            let (p, i) = choose|p: int, i: int|
                0 <= p < t.len() && 0 <= i < self.blocks@[t[p] as int].items.len() && self.blocks@[t[p] as int].items@[i] == x;
            assert(t[p] == list[p]);
            if use_d0 {
                assert(pd_less(
                    self.val(self.blocks@[self.d0@[p] as int].items@[i]),
                    self.val(self.blocks@[self.d0@[q] as int].items@[k]),
                ));
            } else {
                let up = self.blocks@[self.d1@[p] as int].upper;
                let uq = self.blocks@[self.d1@[q - 1] as int].upper;
                assert(pd_le(self.val(self.blocks@[self.d1@[p] as int].items@[i]), up));
                assert(pd_less(uq, self.val(self.blocks@[self.d1@[q] as int].items@[k])));
                if p < q - 1 {
                    assert(pd_less(up, uq));
                }
                lemma_pd_trans(self.val(x), up, uq);
                lemma_pd_trans(self.val(x), uq, self.val(id));
            }
        }
    }
}

/// The keys of the nodes `ids`.
spec fn keys_of(nodes: Seq<Node>, ids: Seq<u32>) -> Seq<u32> {
    ids.map_values(|id: u32| nodes[id as int].key)
}

impl BlockDs {
    /// Takes the `m` smallest pairs (all of them when fewer are stored), by value and
    /// then key, and returns their keys with a boundary: the smallest value left, or
    /// the structure's bound when nothing is left.
    #[verifier::rlimit(100)]
    pub fn pull(&mut self) -> (r: PullResult)
        requires
            old(self).wf(),
        ensures
            final(self).wf(),
            final(self).bound() == old(self).bound(),
            final(self).batch() == old(self).batch(),
            final(self).key_range() == old(self).key_range(),
            final(self).used() == old(self).used(),
            r.keys@.no_duplicates(),
            r.keys.len() <= old(self).batch(),
            forall|i: int| 0 <= i < r.keys.len() ==> old(self).entries().contains_key(#[trigger] r.keys@[i]),
            r.keys.len() < old(self).batch() ==> forall|k: u32|
                #[trigger] old(self).entries().contains_key(k) ==> r.keys@.contains(k),
            keys_first(old(self).entries(), r.keys@.to_set()),
            final(self).entries() == old(self).entries().remove_keys(r.keys@.to_set()),
            (forall|k: u32| !final(self).entries().contains_key(k)) ==> r.boundary == old(self).bound(),
            (exists|k: u32| final(self).entries().contains_key(k)) ==> (exists|k: u32|
                final(self).entries().contains_key(k) && final(self).entries()[k] == r.boundary) && (forall|k: u32|
                #[trigger] final(self).entries().contains_key(k) ==> pd_le(r.boundary, final(self).entries()[k])),
    {
        let ghost e0 = self.entries();
        let ghost nodes0 = self.nodes@;
        let ghost k2n0 = self.key_to_node@;
        let m = self.m as usize;
        let mut cand_ids: Vec<u32> = Vec::new();
        let j0 = self.collect_prefix(true, m, &mut cand_ids);
        let ghost c0 = cand_ids@;
        let j1 = self.collect_prefix(false, m, &mut cand_ids);
        let ghost cand = cand_ids@;
        let ghost c1 = flat(self.blocks@, self.d1@.take(j1 as int));
        proof {
            assert(c0 =~= flat(self.blocks@, self.d0@.take(j0 as int)));
            self.lemma_prefix_ids(true, j0 as int);
            self.lemma_prefix_ids(false, j1 as int);
            assert(cand == c0 + c1);
            assert forall|x: u32| cand.contains(x) <==> c0.contains(x) || c1.contains(x) by {
                if cand.contains(x) {
                    let i = choose|i: int| 0 <= i < cand.len() && cand[i] == x;
                    if i < c0.len() {
                        assert(c0[i] == x);
                    } else {
                        assert(c1[i - c0.len()] == x);
                    }
                }
                if c0.contains(x) {
                    let i = choose|i: int| 0 <= i < c0.len() && c0[i] == x;
                    assert(cand[i] == x);
                }
                if c1.contains(x) {
                    let i = choose|i: int| 0 <= i < c1.len() && c1[i] == x;
                    assert(cand[c0.len() + i] == x);
                }
            }
            assert(cand.no_duplicates()) by {
                assert forall|x: int, y: int| 0 <= x < y < cand.len() implies cand[x] != cand[y] by {
                    if x < c0.len() && y >= c0.len() {
                        assert(c0.contains(cand[x]));
                        assert(c1.contains(cand[y]));
                    } else if x < c0.len() {
                        assert(c0[x] != c0[y]);
                    } else {
                        assert(c1[x - c0.len()] != c1[y - c0.len()]);
                    }
                }
            }
        }
        let small = cand_ids.len() < m;
        proof {
            assert forall|i: int| 0 <= i < cand.len() implies #[trigger] cand[i] < self.nodes.len() && self.nodes@[cand[i] as int].alive by {
                assert(cand.contains(cand[i]));
            }
            if small {
                assert forall|b: u32| b < nodes0.len() && nodes0[b as int].alive implies #[trigger] cand.contains(b) by {
                    let in_d0 = self.blocks@[nodes0[b as int].block_id as int].seq == BlockSeq::D0;
                    let jj = if in_d0 { j0 as int } else { j1 as int };
                    if !flat(self.blocks@, self.list_of(in_d0).take(jj)).contains(b) {
                        self.lemma_outside_prefix(in_d0, jj, b);
                    }
                }
            }
        }
        let mut result_ids = cand_ids;
        if result_ids.len() > m {
            self.sort_node_ids(&mut result_ids);
            let ghost sorted = result_ids@;
            result_ids.truncate(m);
            proof {
                assert forall|a: u32, x: u32| result_ids@.contains(a) && cand.contains(x) && !result_ids@.contains(x) implies self.node_less(a, x) by {
                    let i = choose|i: int| 0 <= i < result_ids@.len() && result_ids@[i] == a;
                    assert(sorted.contains(x));
                    let j = choose|j: int| 0 <= j < sorted.len() && sorted[j] == x;
                    if j < m {
                        assert(result_ids@[j] == x);
                    }
                    assert(sorted[i] == a);
                }
                assert forall|a: u32| result_ids@.contains(a) implies cand.contains(a) by {
                    let i = choose|i: int| 0 <= i < result_ids@.len() && result_ids@[i] == a;
                    assert(sorted[i] == a);
                    assert(sorted.contains(a));
                }
            }
        }
        let ghost sel = result_ids@;
        proof {
            assert(self.nodes@ == nodes0);
            assert forall|a: u32, x: u32| sel.contains(a) && cand.contains(x) && !sel.contains(x) implies #[trigger] self.node_less(a, x) by {
                if cand.len() <= m {
                    assert(sel == cand);
                }
            }
            assert forall|t: int| 0 <= t < sel.len() implies #[trigger] sel[t] < nodes0.len() && nodes0[sel[t] as int].alive by {
                assert(sel.contains(sel[t]));
                assert(cand.contains(sel[t]));
            }
            assert(sel.no_duplicates());
            assert(sel.len() <= m || small);
            // every selected node comes before every other live node
            assert forall|a: u32, b: u32|
                sel.contains(a) && b < nodes0.len() && nodes0[b as int].alive && !sel.contains(b) implies entry_less(
                    nodes0[a as int].value,
                    nodes0[a as int].key,
                    nodes0[b as int].value,
                    nodes0[b as int].key,
                ) by {
                assert(cand.contains(a));
                if cand.contains(b) {
                    assert(self.node_less(a, b));
                } else {
                    let in_d0 = self.blocks@[nodes0[b as int].block_id as int].seq == BlockSeq::D0;
                    let jj = if in_d0 { j0 as int } else { j1 as int };
                    let pre = flat(self.blocks@, self.list_of(in_d0).take(jj));
                    assert(!pre.contains(b));
                    self.lemma_outside_prefix(in_d0, jj, b);
                    self.lemma_prefix_ids(in_d0, jj);
                    assert(pre.len() >= m);
                    let na = nodes0[a as int];
                    let nb = nodes0[b as int];
                    assert(na.key != nb.key) by {
                        assert(k2n0[na.key as int] == a);
                        assert(k2n0[nb.key as int] == b);
                    }
                    if !self.node_less(a, b) {
                        lemma_entry_order(na.value, na.key, nb.value, nb.key, na.value, na.key);
                        assert forall|x: u32| pre.contains(x) implies sel.contains(x) && x != a by {
                            let nx = nodes0[x as int];
                            assert(pd_less(nx.value, nb.value));
                            lemma_entry_order(nx.value, nx.key, nb.value, nb.key, na.value, na.key);
                            assert(cand.contains(x));
                            if !sel.contains(x) {
                                assert(self.node_less(a, x));
                                lemma_entry_order(na.value, na.key, nx.value, nx.key, na.value, na.key);
                            }
                        }
                        lemma_pigeonhole(pre, sel, a);
                    }
                }
            }
        }
        let ghost blocks_unused = 0int;
        let mut i: usize = 0;
        while i < result_ids.len()
            invariant
                self.wf(),
                sel == result_ids@,
                sel.no_duplicates(),
                forall|t: int| 0 <= t < sel.len() ==> #[trigger] sel[t] < nodes0.len() && nodes0[sel[t] as int].alive,
                i <= sel.len(),
                self.nodes.len() == nodes0.len(),
                forall|x: int|
                    0 <= x < nodes0.len() ==> #[trigger] self.nodes@[x].key == nodes0[x].key && self.nodes@[x].value
                        == nodes0[x].value,
                forall|t: int| i <= t < sel.len() ==> self.nodes@[#[trigger] sel[t] as int].alive,
                self.entries() == e0.remove_keys(keys_of(nodes0, sel.take(i as int)).to_set()),
                self.bound() == old(self).bound(),
                self.batch() == old(self).batch(),
                self.key_range() == old(self).key_range(),
                self.used() == old(self).used(),
            decreases sel.len() - i,
        {
            let id = result_ids[i];
            let ghost ent = self.entries();
            self.delete_node(id);
            proof {
                let kk = nodes0[id as int].key;
                assert(keys_of(nodes0, sel.take(i + 1)) =~= keys_of(nodes0, sel.take(i as int)).push(kk));
                keys_of(nodes0, sel.take(i as int)).lemma_push_to_set_commute(kk);
                assert(self.entries() =~= e0.remove_keys(keys_of(nodes0, sel.take(i + 1)).to_set()));
                assert forall|t: int| i + 1 <= t < sel.len() implies self.nodes@[#[trigger] sel[t] as int].alive by {
                    assert(sel[t] != sel[i as int]);
                }
            }
            i = i + 1;
        }
        let ghost keys_sel = keys_of(nodes0, sel);
        proof {
            assert(sel.take(sel.len() as int) =~= sel);
        }
        let mut keys: Vec<u32> = Vec::with_capacity(result_ids.len());
        let mut t: usize = 0;
        while t < result_ids.len()
            invariant
                sel == result_ids@,
                t <= sel.len(),
                self.nodes.len() == nodes0.len(),
                forall|t2: int| 0 <= t2 < sel.len() ==> #[trigger] sel[t2] < nodes0.len(),
                forall|x: int| 0 <= x < nodes0.len() ==> #[trigger] self.nodes@[x].key == nodes0[x].key,
                keys@ == keys_of(nodes0, sel).take(t as int),
            decreases sel.len() - t,
        {
            keys.push(self.nodes[result_ids[t] as usize].key);
            t = t + 1;
            proof {
                assert(keys@ =~= keys_of(nodes0, sel).take(t as int));
            }
        }
        proof {
            assert(keys@ =~= keys_sel);
        }
        let boundary = if small {
            self.upper_bound_b
        } else {
            match self.min_remaining_value() {
                Some(v) => v,
                None => self.upper_bound_b,
            }
        };
        proof {
            let kset = keys@.to_set();
            assert forall|k: u32| kset.contains(k) <==> exists|t: int| 0 <= t < sel.len() && nodes0[sel[t] as int].key == k by {
                if kset.contains(k) {
                    assert(keys@.contains(k));
                    let t = choose|t: int| 0 <= t < keys@.len() && keys@[t] == k;
                    assert(keys_sel[t] == nodes0[sel[t] as int].key);
                }
                if exists|t: int| 0 <= t < sel.len() && nodes0[sel[t] as int].key == k {
                    let t = choose|t: int| 0 <= t < sel.len() && nodes0[sel[t] as int].key == k;
                    assert(keys@[t] == k);
                }
            }
            // the node of a key in the result is the selected node
            assert forall|t: int| 0 <= t < sel.len() implies #[trigger] k2n0[nodes0[sel[t] as int].key as int] == sel[t] by {}
            assert(keys@.no_duplicates()) by {
                assert forall|x: int, y: int| 0 <= x < y < keys@.len() implies keys@[x] != keys@[y] by {
                    assert(keys@[x] == nodes0[sel[x] as int].key);
                    assert(keys@[y] == nodes0[sel[y] as int].key);
                    assert(k2n0[nodes0[sel[x] as int].key as int] == sel[x]);
                    assert(k2n0[nodes0[sel[y] as int].key as int] == sel[y]);
                }
            }
            assert forall|x: int| 0 <= x < keys.len() implies e0.contains_key(#[trigger] keys@[x]) by {
                assert(keys@[x] == nodes0[sel[x] as int].key);
            }
            if keys.len() < m {
                assert forall|k: u32| #[trigger] e0.contains_key(k) implies keys@.contains(k) by {
                    let id = k2n0[k as int];
                    assert(nodes0[id as int].alive);
                    assert(small);
                    assert(cand.contains(id));
                    let t = choose|t: int| 0 <= t < sel.len() && sel[t] == id;
                    assert(kset.contains(k));
                }
            }
            assert forall|a: u32, b: u32|
                #![trigger kset.contains(a), e0.dom().contains(b)]
                kset.contains(a) && e0.dom().contains(b) && !kset.contains(b) implies entry_less(e0[a], a, e0[b], b) by {
                let ta = choose|t: int| 0 <= t < sel.len() && nodes0[sel[t] as int].key == a;
                let ia = sel[ta];
                let ib = k2n0[b as int];
                assert(nodes0[ib as int].alive);
                if sel.contains(ib) {
                    let tb = choose|t: int| 0 <= t < sel.len() && sel[t] == ib;
                    assert(nodes0[sel[tb] as int].key == b);
                }
                assert(entry_less(nodes0[ia as int].value, nodes0[ia as int].key, nodes0[ib as int].value, nodes0[ib as int].key));
            }
            if small {
                assert forall|k: u32| !self.entries().contains_key(k) by {
                    if e0.contains_key(k) {
                        let id = k2n0[k as int];
                        assert(cand.contains(id));
                        let t = choose|t: int| 0 <= t < sel.len() && sel[t] == id;
                        assert(kset.contains(k));
                    }
                }
            }
        }
        PullResult { boundary, keys }
    }
}

/// The largest key, which marks an unused place of the scratch pool.
pub open spec fn pd_is_max(v: PathDist) -> bool {
    v.hi == u64::MAX && v.lo == u64::MAX
}

impl BlockDs {
    /// Removes every stored key that `records` names, and gathers each such key once,
    /// with the smallest value that `records` gives it. `pool`, indexed by key, serves
    /// as scratch space and is left as it was found.
    fn gather_records(&mut self, records: &[(u32, PathDist)], pool: &mut [PathDist]) -> (pairs: Vec<(u32, PathDist)>)
        requires
            old(self).wf(),
            forall|i: int|
                0 <= i < records@.len() ==> #[trigger] records@[i].0 < old(self).key_range() && records@[i].0 < old(
                    pool,
                )@.len() && records@[i].1.end_spec() == records@[i].0 && !pd_is_max(records@[i].1),
            forall|k: int| 0 <= k < old(pool)@.len() ==> pd_is_max(#[trigger] old(pool)@[k]),
        ensures
            final(self).wf(),
            final(self).bound() == old(self).bound(),
            final(self).batch() == old(self).batch(),
            final(self).key_range() == old(self).key_range(),
            final(self).used() == old(self).used(),
            final(self).entries() == old(self).entries().remove_keys(record_min(records@).dom()),
            final(pool)@ == old(pool)@,
            keyed_pairs(pairs@),
            pairs.len() <= records.len(),
            forall|t: int|
                0 <= t < pairs.len() ==> record_min(records@).contains_key(#[trigger] pairs@[t].0) && pairs@[t].1
                    == record_min(records@)[pairs@[t].0],
            forall|k: u32| #[trigger] record_min(records@).contains_key(k) ==> exists|t: int| 0 <= t < pairs.len() && pairs@[t].0 == k,
    {
        let ghost e0 = self.entries();
        let ghost pool0 = pool@;
        let ghost recs = records@;
        let mut pairs: Vec<(u32, PathDist)> = Vec::new();
        let ghost mut rm: Map<u32, PathDist> = Map::empty();
        let mut i: usize = 0;
        proof {
            assert(recs.take(0) =~= Seq::<(u32, PathDist)>::empty());
            assert(e0.remove_keys(rm.dom()) =~= e0);
        }
        while i < records.len()
            invariant
                self.wf(),
                self.bound() == old(self).bound(),
                self.batch() == old(self).batch(),
                self.key_range() == old(self).key_range(),
                self.used() == old(self).used(),
                records@ == recs,
                i <= recs.len(),
                forall|t: int|
                    0 <= t < recs.len() ==> #[trigger] recs[t].0 < self.key_range() && recs[t].0 < pool0.len()
                        && recs[t].1.end_spec() == recs[t].0 && !pd_is_max(recs[t].1),
                forall|k: int| 0 <= k < pool0.len() ==> pd_is_max(#[trigger] pool0[k]),
                rm == record_min(recs.take(i as int)),
                forall|k: u32| #[trigger] rm.contains_key(k) ==> k < pool0.len() && rm[k].end_spec() == k && !pd_is_max(rm[k]),
                self.entries() == e0.remove_keys(rm.dom()),
                pool@.len() == pool0.len(),
                forall|k: int|
                    0 <= k < pool0.len() ==> #[trigger] pool@[k] == if k <= u32::MAX && rm.contains_key(k as u32) {
                        rm[k as u32]
                    } else {
                        pool0[k]
                    },
                keyed_pairs(pairs@),
                pairs.len() <= i,
                forall|t: int| 0 <= t < pairs.len() ==> rm.contains_key(#[trigger] pairs@[t].0),
                forall|k: u32| #[trigger] rm.contains_key(k) ==> exists|t: int| 0 <= t < pairs.len() && pairs@[t].0 == k,
            decreases recs.len() - i,
        {
            let key = records[i].0;
            let value = records[i].1;
            let ghost rm_next = record_min(recs.take(i + 1));
            proof {
                assert(recs.take(i + 1).drop_last() =~= recs.take(i as int));
                assert(recs.take(i + 1).last() == recs[i as int]);
            }
            let old_id = self.key_to_node[key as usize];
            if old_id != NONE {
                self.delete_node(old_id);
            }
            proof {
                assert(self.entries() =~= e0.remove_keys(rm.dom().insert(key)));
            }
            let cur = pool[key as usize];
            if cur == PathDist::max_value() {
                proof {
                    assert(!rm.contains_key(key));
                }
                let ghost p_before = pairs@;
                pairs.push((key, value));
                pool[key as usize] = value;
                proof {
                    let np = pairs@.len() - 1;
                    assert(pairs@[np] == (key, value));
                    assert forall|k: u32| #[trigger] rm_next.contains_key(k) implies exists|t: int|
                        0 <= t < pairs.len() && pairs@[t].0 == k by {
                        if k == key {
                            assert(pairs@[np].0 == k);
                        } else {
                            assert(rm.contains_key(k));
                            let t = choose|t: int| 0 <= t < p_before.len() && p_before[t].0 == k;
                            assert(pairs@[t] == p_before[t]);
                        }
                    }
                }
            } else {
                proof {
                    assert(rm.contains_key(key));
                }
                if value.is_less(&cur) {
                    pool[key as usize] = value;
                }
            }
            proof {
                rm = rm_next;
                assert(rm.dom() =~= record_min(recs.take(i as int)).dom().insert(key));
                assert(self.entries() =~= e0.remove_keys(rm.dom()));
            }
            i = i + 1;
        }
        proof {
            assert(recs.take(recs.len() as int) =~= recs);
        }
        let ghost full = rm;
        let ghost pool1 = pool@;
        let mut j: usize = 0;
        while j < pairs.len()
            invariant
                full == record_min(recs),
                records@ == recs,
                pairs.len() <= recs.len(),
                forall|k: u32| #[trigger] full.contains_key(k) ==> k < pool0.len() && full[k].end_spec() == k,
                keyed_pairs(pairs@),
                j <= pairs.len(),
                pool@.len() == pool0.len(),
                forall|t: int| 0 <= t < pairs.len() ==> full.contains_key(#[trigger] pairs@[t].0),
                forall|k: u32| #[trigger] full.contains_key(k) ==> exists|t: int| 0 <= t < pairs.len() && pairs@[t].0 == k,
                forall|t: int| 0 <= t < j ==> (#[trigger] pairs@[t]).1 == full[pairs@[t].0],
                forall|t: int| 0 <= t < j ==> pd_is_max(#[trigger] pool@[pairs@[t].0 as int]),
                forall|t: int| j <= t < pairs.len() ==> #[trigger] pool@[pairs@[t].0 as int] == full[pairs@[t].0],
                forall|k: int|
                    0 <= k < pool0.len() && !(k <= u32::MAX && full.contains_key(k as u32)) ==> #[trigger] pool@[k]
                        == pool0[k],
                forall|k: int| 0 <= k < pool0.len() ==> pd_is_max(#[trigger] pool0[k]),
            decreases pairs.len() - j,
        {
            let key = pairs[j].0;
            let v = pool[key as usize];
            pool[key as usize] = PathDist::max_value();
            let ghost before = pairs@;
            pairs.set(j, (key, v));
            proof {
                assert forall|t: int| j < t < pairs.len() implies #[trigger] pool@[pairs@[t].0 as int] == full[pairs@[t].0] by {
                    assert(pairs@[t] == before[t]);
                    assert(before[t].0 != before[j as int].0);
                }
                assert forall|t: int| 0 <= t < j implies pd_is_max(#[trigger] pool@[pairs@[t].0 as int]) by {
                    assert(pairs@[t] == before[t]);
                }
                assert forall|t: int| 0 <= t < pairs.len() implies full.contains_key(#[trigger] pairs@[t].0) by {
                    assert(pairs@[t].0 == before[t].0);
                }
                assert forall|k: u32| #[trigger] full.contains_key(k) implies exists|t: int| 0 <= t < pairs.len() && pairs@[t].0 == k by {
                    let t = choose|t: int| 0 <= t < before.len() && before[t].0 == k;
                    assert(pairs@[t].0 == k);
                }
                assert forall|a: int, b: int| 0 <= a < b < pairs.len() implies #[trigger] pairs@[a].0 != #[trigger] pairs@[b].0 by {
                    assert(pairs@[a].0 == before[a].0);
                    assert(pairs@[b].0 == before[b].0);
                }
            }
            j = j + 1;
        }
        proof {
            assert forall|k: int| 0 <= k < pool0.len() implies pool@[k] == pool0[k] by {
                if k <= u32::MAX && full.contains_key(k as u32) {
                    let t = choose|t: int| 0 <= t < pairs.len() && pairs@[t].0 == k as u32;
                    assert(pd_is_max(pool@[pairs@[t].0 as int]));
                }
            }
            assert(pool@ =~= pool0);
        }
        pairs
    }
}

/// The block order after new blocks `newb`, holding the first `filled` of the sorted
/// `pairs` in new nodes numbered from `nodes0.len()`, went in front of `D0`: the new
/// blocks take increasing node numbers, and every pair lies below what `D0` held.
#[verifier::rlimit(40)]
proof fn lemma_prepend_order(
    m: u32,
    ub: PathDist,
    nodes0: Seq<Node>,
    blocks0: Seq<Block>,
    d0_old: Seq<u32>,
    d1: Seq<u32>,
    nodes: Seq<Node>,
    blocks: Seq<Block>,
    newb: Seq<u32>,
    pairs: Seq<(u32, PathDist)>,
    filled: int,
    except: int,
)
    requires
        order_raw(m, ub, nodes0, blocks0, d0_old, d1, -1),
        0 <= filled <= pairs.len(),
        nodes.len() == nodes0.len() + filled,
        forall|id: int| 0 <= id < nodes0.len() ==> #[trigger] nodes[id] == nodes0[id],
        forall|t: int| 0 <= t < filled ==> #[trigger] nodes[nodes0.len() + t].value == pairs[t].1,
        blocks.len() == blocks0.len() + newb.len(),
        forall|b: int| 0 <= b < blocks0.len() ==> #[trigger] blocks[b] == blocks0[b],
        forall|p: int| 0 <= p < newb.len() ==> #[trigger] newb[p] == blocks0.len() + p,
        forall|p: int| 0 <= p < d0_old.len() ==> #[trigger] d0_old[p] < blocks0.len(),
        forall|p: int| 0 <= p < d1.len() ==> #[trigger] d1[p] < blocks0.len(),
        forall|p: int, k: int|
            #![trigger blocks0[d0_old[p] as int].items@[k]]
            0 <= p < d0_old.len() && 0 <= k < blocks0[d0_old[p] as int].items.len() ==> {
                let x = blocks0[d0_old[p] as int].items@[k];
                &&& x < nodes0.len()
                &&& forall|t: int| 0 <= t < pairs.len() ==> pd_less(#[trigger] pairs[t].1, nodes0[x as int].value)
            },
        forall|p: int, k: int|
            #![trigger blocks0[d1[p] as int].items@[k]]
            0 <= p < d1.len() && 0 <= k < blocks0[d1[p] as int].items.len() ==> blocks0[d1[p] as int].items@[k]
                < nodes0.len(),
        forall|p: int, k: int|
            #![trigger blocks[newb[p] as int].items@[k]]
            0 <= p < newb.len() && 0 <= k < blocks[newb[p] as int].items.len() ==> nodes0.len()
                <= blocks[newb[p] as int].items@[k] < nodes.len(),
        forall|p: int, q: int, i: int, j: int|
            #![trigger blocks[newb[p] as int].items@[i], blocks[newb[q] as int].items@[j]]
            0 <= p < q < newb.len() && 0 <= i < blocks[newb[p] as int].items.len() && 0 <= j
                < blocks[newb[q] as int].items.len() ==> blocks[newb[p] as int].items@[i]
                < blocks[newb[q] as int].items@[j],
        forall|p: int| 0 <= p < newb.len() && newb[p] != except ==> #[trigger] blocks[newb[p] as int].items.len() > 0,
        except == -1 || except >= blocks0.len(),
        forall|p: int, q: int| 0 <= p < q < pairs.len() ==> pd_less(#[trigger] pairs[p].1, #[trigger] pairs[q].1),
    ensures
        order_raw(m, ub, nodes, blocks, newb + d0_old, d1, except),
{
    let d0 = newb + d0_old;
    let c = newb.len() as int;
    let base = nodes0.len() as int;
    assert forall|p: int| 0 <= p < d1.len() implies #[trigger] blocks[d1[p] as int] == blocks0[d1[p] as int] by {}
    assert forall|p: int, k: int|
        #![trigger blocks[d1[p] as int].items@[k]]
        0 <= p < d1.len() && 0 <= k < blocks[d1[p] as int].items.len() implies {
            let v = nodes[(blocks[d1[p] as int].items@[k]) as int].value;
            &&& pd_le(v, blocks[d1[p] as int].upper)
            &&& p > 0 ==> pd_less(blocks[d1[p - 1] as int].upper, v)
        } by {
        let x = blocks0[d1[p] as int].items@[k];
        assert(blocks[d1[p] as int] == blocks0[d1[p] as int]);
        assert(nodes[x as int] == nodes0[x as int]);
        if p > 0 {
            assert(blocks[d1[p - 1] as int] == blocks0[d1[p - 1] as int]);
        }
    }
    assert forall|p: int, q: int| 0 <= p < q < d1.len() implies pd_less(
        blocks[#[trigger] d1[p] as int].upper,
        blocks[#[trigger] d1[q] as int].upper,
    ) by {
        assert(blocks[d1[p] as int] == blocks0[d1[p] as int]);
        assert(blocks[d1[q] as int] == blocks0[d1[q] as int]);
    }
    assert forall|p: int| 0 <= p < d1.len() - 1 && d1[p] != except implies #[trigger] blocks[d1[p] as int].items.len() > 0 by {
        assert(blocks[d1[p] as int] == blocks0[d1[p] as int]);
    }
    assert(blocks[d1[d1.len() - 1] as int] == blocks0[d1[d1.len() - 1] as int]);
    assert forall|p: int| 0 <= p < d0.len() && d0[p] != except implies #[trigger] blocks[d0[p] as int].items.len() > 0 by {
        if p >= c {
            assert(d0[p] == d0_old[p - c]);
            assert(blocks[d0[p] as int] == blocks0[d0_old[p - c] as int]);
        }
    }
    assert forall|p: int, q: int, i: int, j: int|
        #![trigger blocks[d0[p] as int].items@[i], blocks[d0[q] as int].items@[j]]
        0 <= p < q < d0.len() && 0 <= i < blocks[d0[p] as int].items.len() && 0 <= j
            < blocks[d0[q] as int].items.len() implies pd_less(
            nodes[(blocks[d0[p] as int].items@[i]) as int].value,
            nodes[(blocks[d0[q] as int].items@[j]) as int].value,
        ) by {
        let x = blocks[d0[p] as int].items@[i];
        let y = blocks[d0[q] as int].items@[j];
        if q < c {
            assert(d0[p] == newb[p]);
            assert(d0[q] == newb[q]);
            assert(x < y);
            assert(nodes[x as int].value == pairs[x - base].1) by {
                assert(nodes[base + (x - base)].value == pairs[x - base].1);
            }
            assert(nodes[y as int].value == pairs[y - base].1) by {
                assert(nodes[base + (y - base)].value == pairs[y - base].1);
            }
        } else if p < c {
            assert(d0[p] == newb[p]);
            assert(d0[q] == d0_old[q - c]);
            assert(blocks[d0[q] as int] == blocks0[d0_old[q - c] as int]);
            assert(y == blocks0[d0_old[q - c] as int].items@[j]);
            assert(y < base);
            assert(nodes[y as int] == nodes0[y as int]);
            assert(nodes[x as int].value == pairs[x - base].1) by {
                assert(nodes[base + (x - base)].value == pairs[x - base].1);
            }
        } else {
            assert(d0[p] == d0_old[p - c]);
            assert(d0[q] == d0_old[q - c]);
            assert(blocks[d0[p] as int] == blocks0[d0_old[p - c] as int]);
            assert(blocks[d0[q] as int] == blocks0[d0_old[q - c] as int]);
            assert(x == blocks0[d0_old[p - c] as int].items@[i]);
            assert(y == blocks0[d0_old[q - c] as int].items@[j]);
            assert(nodes[x as int] == nodes0[x as int]);
            assert(nodes[y as int] == nodes0[y as int]);
        }
    }
}

impl BlockDs {
    /// Stores `pairs`, sorted by value, with distinct keys none of which is stored and
    /// values below every stored value, in new blocks of at most `m` pairs each, placed
    /// in order in front of `D0`.
    #[verifier::rlimit(80)]
    fn prepend_sorted(&mut self, pairs: &Vec<(u32, PathDist)>)
        requires
            old(self).wf(),
            keyed_pairs(pairs@),
            forall|p: int, q: int| 0 <= p < q < pairs.len() ==> pd_less(#[trigger] pairs@[p].1, #[trigger] pairs@[q].1),
            forall|t: int|
                0 <= t < pairs.len() ==> #[trigger] pairs@[t].0 < old(self).key_range() && !old(self).entries().contains_key(
                    pairs@[t].0,
                ),
            forall|t: int, k: u32|
                0 <= t < pairs.len() && #[trigger] old(self).entries().contains_key(k) ==> pd_less(
                    #[trigger] pairs@[t].1,
                    old(self).entries()[k],
                ),
            old(self).used() + 2 * pairs.len() < NONE,
        ensures
            final(self).wf(),
            final(self).bound() == old(self).bound(),
            final(self).batch() == old(self).batch(),
            final(self).key_range() == old(self).key_range(),
            final(self).used() <= old(self).used() + 2 * pairs.len(),
            forall|k: u32|
                #[trigger] final(self).entries().contains_key(k) <==> old(self).entries().contains_key(k) || exists|t: int|
                    0 <= t < pairs.len() && pairs@[t].0 == k,
            forall|k: u32| #[trigger] old(self).entries().contains_key(k) ==> final(self).entries()[k] == old(self).entries()[k],
            forall|t: int| 0 <= t < pairs.len() ==> final(self).entries()[#[trigger] pairs@[t].0] == pairs@[t].1,
    {
        let ghost e0 = self.entries();
        let ghost nodes0 = self.nodes@;
        let ghost blocks0 = self.blocks@;
        let ghost d0_old = self.d0@;
        let ghost d1_0 = self.d1@;
        let ghost k2n0 = self.key_to_node@;
        let ghost base = self.nodes.len() as int;
        let ghost ub = self.upper_bound_b;
        let ghost ps = pairs@;
        let n = pairs.len();
        let m = self.m as usize;
        proof {
            assert forall|p: int, k: int|
                #![trigger blocks0[d0_old[p] as int].items@[k]]
                0 <= p < d0_old.len() && 0 <= k < blocks0[d0_old[p] as int].items.len() implies {
                    let x = blocks0[d0_old[p] as int].items@[k];
                    &&& x < nodes0.len()
                    &&& forall|t: int| 0 <= t < ps.len() ==> pd_less(#[trigger] ps[t].1, nodes0[x as int].value)
                } by {
                let b = d0_old[p] as int;
                assert(self.blocks@[b].alive);
                let x = blocks0[b].items@[k];
                assert(x < nodes0.len() && nodes0[x as int].alive);
                let key = nodes0[x as int].key;
                assert(k2n0[key as int] == x);
                assert(e0.contains_key(key));
                assert forall|t: int| 0 <= t < ps.len() implies pd_less(#[trigger] ps[t].1, nodes0[x as int].value) by {
                    assert(pd_less(ps[t].1, e0[key]));
                }
            }
            assert forall|p: int, k: int|
                #![trigger blocks0[d1_0[p] as int].items@[k]]
                0 <= p < d1_0.len() && 0 <= k < blocks0[d1_0[p] as int].items.len() implies blocks0[d1_0[p] as int].items@[k]
                    < nodes0.len() by {
                assert(self.blocks@[d1_0[p] as int].alive);
            }
            assert(Seq::<u32>::empty() + d0_old =~= d0_old);
        }
        let ghost mut newb: Seq<u32> = Seq::empty();
        let mut c: usize = 0;
        let mut cursor: usize = 0;
        while cursor < n
            invariant
                self.wf(),
                self.m == m,
                m >= 1,
                self.upper_bound_b == ub,
                self.key_to_node@.len() == k2n0.len(),
                self.d1@ == d1_0,
                pairs@ == ps,
                n == ps.len(),
                c <= cursor <= n,
                newb.len() == c,
                forall|p: int| 0 <= p < c ==> #[trigger] newb[p] == blocks0.len() + p,
                self.d0@ == newb + d0_old,
                forall|p: int| 0 <= p < c ==> #[trigger] self.blocks@[newb[p] as int].items.len() > 0,
                self.nodes.len() == base + cursor,
                self.blocks.len() == blocks0.len() + c,
                base == nodes0.len(),
                base + blocks0.len() + 2 * n < NONE,
                forall|id: int| 0 <= id < base ==> #[trigger] self.nodes@[id] == nodes0[id],
                forall|t: int| 0 <= t < cursor ==> #[trigger] self.nodes@[base + t].value == ps[t].1,
                forall|b: int| 0 <= b < blocks0.len() ==> #[trigger] self.blocks@[b] == blocks0[b],
                forall|p: int, k: int|
                    #![trigger self.blocks@[newb[p] as int].items@[k]]
                    0 <= p < newb.len() && 0 <= k < self.blocks@[newb[p] as int].items.len() ==> base
                        <= self.blocks@[newb[p] as int].items@[k] < base + cursor,
                forall|p: int, q: int, i: int, j: int|
                    #![trigger self.blocks@[newb[p] as int].items@[i], self.blocks@[newb[q] as int].items@[j]]
                    0 <= p < q < newb.len() && 0 <= i < self.blocks@[newb[p] as int].items.len() && 0 <= j
                        < self.blocks@[newb[q] as int].items.len() ==> self.blocks@[newb[p] as int].items@[i]
                        < self.blocks@[newb[q] as int].items@[j],
                order_raw(m as u32, ub, nodes0, blocks0, d0_old, d1_0, -1),
                forall|p: int| 0 <= p < d0_old.len() ==> #[trigger] d0_old[p] < blocks0.len(),
                forall|p: int| 0 <= p < d1_0.len() ==> #[trigger] d1_0[p] < blocks0.len(),
                forall|p: int, k: int|
                    #![trigger blocks0[d0_old[p] as int].items@[k]]
                    0 <= p < d0_old.len() && 0 <= k < blocks0[d0_old[p] as int].items.len() ==> {
                        let x = blocks0[d0_old[p] as int].items@[k];
                        &&& x < nodes0.len()
                        &&& forall|t: int| 0 <= t < ps.len() ==> pd_less(#[trigger] ps[t].1, nodes0[x as int].value)
                    },
                forall|p: int, k: int|
                    #![trigger blocks0[d1_0[p] as int].items@[k]]
                    0 <= p < d1_0.len() && 0 <= k < blocks0[d1_0[p] as int].items.len() ==> blocks0[d1_0[p] as int].items@[k]
                        < nodes0.len(),
                keyed_pairs(ps),
                forall|p: int, q: int| 0 <= p < q < ps.len() ==> pd_less(#[trigger] ps[p].1, #[trigger] ps[q].1),
                forall|t: int| 0 <= t < ps.len() ==> #[trigger] ps[t].0 < k2n0.len() && !e0.contains_key(ps[t].0),
                forall|k: u32|
                    #[trigger] self.entries().contains_key(k) <==> e0.contains_key(k) || exists|t: int|
                        0 <= t < cursor && ps[t].0 == k,
                forall|k: u32| #[trigger] e0.contains_key(k) ==> self.entries()[k] == e0[k],
                forall|t: int| 0 <= t < cursor ==> self.entries()[#[trigger] ps[t].0] == ps[t].1,
            decreases n - cursor,
        {
            let end = if n - cursor < m {
                n
            } else {
                cursor + m
            };
            let upper = pairs[end - 1].1;
            let block_id = self.new_block(BlockSeq::D0, upper);
            self.d0.insert(c, block_id);
            proof {
                assert(newb.push(block_id) + d0_old =~= (newb + d0_old).insert(c as int, block_id));
                newb = newb.push(block_id);
                assert(self.blocks_ok()) by {
                    assert forall|k: int| 0 <= k < self.d0.len() implies #[trigger] self.d0@[k] < self.blocks.len()
                        && self.blocks@[self.d0@[k] as int].alive && self.blocks@[self.d0@[k] as int].seq == BlockSeq::D0 by {
                        if k >= c + 1 {
                            assert(self.d0@[k] == d0_old[k - c - 1]);
                        }
                    }
                    assert(self.d0@.no_duplicates()) by {
                        assert forall|x: int, y: int| 0 <= x < y < self.d0.len() implies self.d0@[x] != self.d0@[y] by {
                            if y <= c {
                            } else if x <= c {
                                assert(self.d0@[y] == d0_old[y - c - 1]);
                            } else {
                                assert(self.d0@[x] == d0_old[x - c - 1]);
                                assert(self.d0@[y] == d0_old[y - c - 1]);
                            }
                        }
                    }
                    assert forall|b: int| 0 <= b < self.blocks.len() && #[trigger] self.blocks@[b].alive implies if self.blocks@[b].seq
                        == BlockSeq::D0 {
                        self.d0@.contains(b as u32)
                    } else {
                        self.d1@.contains(b as u32)
                    } by {
                        if b == block_id {
                            assert(self.d0@[c as int] == block_id);
                        } else if b >= blocks0.len() {
                            assert(self.d0@[b - blocks0.len()] == b);
                        } else {
                            if blocks0[b].seq == BlockSeq::D0 {
                                let k = choose|k: int| 0 <= k < d0_old.len() && d0_old[k] == b as u32;
                                assert(self.d0@[k + c + 1] == b as u32);
                            }
                        }
                    }
                }
                lemma_prepend_order(
                    m as u32,
                    ub,
                    nodes0,
                    blocks0,
                    d0_old,
                    d1_0,
                    self.nodes@,
                    self.blocks@,
                    newb,
                    ps,
                    cursor as int,
                    block_id as int,
                );
                assert(self.order_ok_except(block_id as int));
            }
            let mut idx: usize = cursor;
            while idx < end
                invariant
                    self.blocks_ok(),
                    self.keys_ok(),
                    self.order_ok_except(if idx == cursor { block_id as int } else { -1 }),
                    self.m == m,
                    m >= 1,
                    self.upper_bound_b == ub,
                    self.key_to_node@.len() == k2n0.len(),
                    self.d1@ == d1_0,
                    pairs@ == ps,
                    n == ps.len(),
                    c < n,
                    c <= cursor <= idx <= end <= n,
                    cursor < end,
                    block_id == blocks0.len() + c,
                    newb.len() == c + 1,
                    forall|p: int| 0 <= p <= c ==> #[trigger] newb[p] == blocks0.len() + p,
                    self.d0@ == newb + d0_old,
                    forall|p: int| 0 <= p < c ==> #[trigger] self.blocks@[newb[p] as int].items.len() > 0,
                    self.nodes.len() == base + idx,
                    self.blocks.len() == blocks0.len() + c + 1,
                    base == nodes0.len(),
                    base + blocks0.len() + 2 * n < NONE,
                    forall|id: int| 0 <= id < base ==> #[trigger] self.nodes@[id] == nodes0[id],
                    forall|t: int| 0 <= t < idx ==> #[trigger] self.nodes@[base + t].value == ps[t].1,
                    forall|b: int| 0 <= b < blocks0.len() ==> #[trigger] self.blocks@[b] == blocks0[b],
                    forall|p: int, k: int|
                        #![trigger self.blocks@[newb[p] as int].items@[k]]
                        0 <= p < newb.len() && 0 <= k < self.blocks@[newb[p] as int].items.len() ==> base
                            <= self.blocks@[newb[p] as int].items@[k] < base + idx,
                    forall|p: int, k: int|
                        #![trigger self.blocks@[newb[p] as int].items@[k]]
                        0 <= p < c && 0 <= k < self.blocks@[newb[p] as int].items.len() ==> self.blocks@[newb[p] as int].items@[k]
                            < base + cursor,
                    forall|p: int, q: int, i: int, j: int|
                        #![trigger self.blocks@[newb[p] as int].items@[i], self.blocks@[newb[q] as int].items@[j]]
                        0 <= p < q < newb.len() && 0 <= i < self.blocks@[newb[p] as int].items.len() && 0 <= j
                            < self.blocks@[newb[q] as int].items.len() ==> self.blocks@[newb[p] as int].items@[i]
                            < self.blocks@[newb[q] as int].items@[j],
                    idx > cursor ==> self.blocks@[block_id as int].items.len() > 0,
                    self.blocks@[block_id as int].seq == BlockSeq::D0,
                    self.blocks@[block_id as int].alive,
                    order_raw(m as u32, ub, nodes0, blocks0, d0_old, d1_0, -1),
                    forall|p: int| 0 <= p < d0_old.len() ==> #[trigger] d0_old[p] < blocks0.len(),
                    forall|p: int| 0 <= p < d1_0.len() ==> #[trigger] d1_0[p] < blocks0.len(),
                    forall|p: int, k: int|
                        #![trigger blocks0[d0_old[p] as int].items@[k]]
                        0 <= p < d0_old.len() && 0 <= k < blocks0[d0_old[p] as int].items.len() ==> {
                            let x = blocks0[d0_old[p] as int].items@[k];
                            &&& x < nodes0.len()
                            &&& forall|t: int| 0 <= t < ps.len() ==> pd_less(#[trigger] ps[t].1, nodes0[x as int].value)
                        },
                    forall|p: int, k: int|
                        #![trigger blocks0[d1_0[p] as int].items@[k]]
                        0 <= p < d1_0.len() && 0 <= k < blocks0[d1_0[p] as int].items.len() ==> blocks0[d1_0[p] as int].items@[k]
                            < nodes0.len(),
                    keyed_pairs(ps),
                    forall|p: int, q: int| 0 <= p < q < ps.len() ==> pd_less(#[trigger] ps[p].1, #[trigger] ps[q].1),
                    forall|t: int| 0 <= t < ps.len() ==> #[trigger] ps[t].0 < k2n0.len() && !e0.contains_key(ps[t].0),
                    forall|k: u32|
                        #[trigger] self.entries().contains_key(k) <==> e0.contains_key(k) || exists|t: int|
                            0 <= t < idx && ps[t].0 == k,
                    forall|k: u32| #[trigger] e0.contains_key(k) ==> self.entries()[k] == e0[k],
                    forall|t: int| 0 <= t < idx ==> self.entries()[#[trigger] ps[t].0] == ps[t].1,
                decreases end - idx,
            {
                let key = pairs[idx].0;
                let value = pairs[idx].1;
                let ghost ent = self.entries();
                let ghost blocks1 = self.blocks@;
                proof {
                    assert(!ent.contains_key(key)) by {
                        if ent.contains_key(key) {
                            assert(!e0.contains_key(ps[idx as int].0));
                            let t = choose|t: int| 0 <= t < idx && ps[t].0 == key;
                            assert(ps[t].0 != ps[idx as int].0);
                        }
                    }
                    assert(ps[idx as int].1.end_spec() == key);
                }
                let node_id = self.push_new_node(block_id, key, value);
                proof {
                    let newx = self.blocks@[block_id as int].items.len() - 1;
                    assert(self.blocks@[block_id as int].items@[newx] == node_id);
                    assert forall|p: int| 0 <= p < newb.len() && newb[p] != block_id implies #[trigger] self.blocks@[newb[p] as int]
                        == blocks1[newb[p] as int] by {}
                    assert forall|p: int, k: int|
                        #![trigger self.blocks@[newb[p] as int].items@[k]]
                        0 <= p < newb.len() && 0 <= k < self.blocks@[newb[p] as int].items.len() implies base
                            <= self.blocks@[newb[p] as int].items@[k] < base + idx + 1 by {
                        if p == c && k < newx {
                            assert(self.blocks@[newb[p] as int].items@[k] == blocks1[block_id as int].items@[k]);
                        }
                    }
                    assert forall|p: int, q: int, i: int, j: int|
                        #![trigger self.blocks@[newb[p] as int].items@[i], self.blocks@[newb[q] as int].items@[j]]
                        0 <= p < q < newb.len() && 0 <= i < self.blocks@[newb[p] as int].items.len() && 0 <= j
                            < self.blocks@[newb[q] as int].items.len() implies self.blocks@[newb[p] as int].items@[i]
                            < self.blocks@[newb[q] as int].items@[j] by {
                        if q == c && j < newx {
                            assert(self.blocks@[newb[q] as int].items@[j] == blocks1[block_id as int].items@[j]);
                        }
                    }
                    assert forall|t: int| 0 <= t < idx + 1 implies #[trigger] self.nodes@[base + t].value == ps[t].1 by {}
                    assert forall|id: int| 0 <= id < base implies #[trigger] self.nodes@[id] == nodes0[id] by {}
                    lemma_prepend_order(
                        m as u32,
                        ub,
                        nodes0,
                        blocks0,
                        d0_old,
                        d1_0,
                        self.nodes@,
                        self.blocks@,
                        newb,
                        ps,
                        idx + 1,
                        -1,
                    );
                    assert forall|k: u32|
                        #[trigger] self.entries().contains_key(k) <==> e0.contains_key(k) || exists|t: int|
                            0 <= t < idx + 1 && ps[t].0 == k by {
                        if k == key {
                            assert(ps[idx as int].0 == k);
                        }
                        if exists|t: int| 0 <= t < idx + 1 && ps[t].0 == k {
                            let t = choose|t: int| 0 <= t < idx + 1 && ps[t].0 == k;
                            if t < idx {
                                assert(ent.contains_key(k));
                            }
                        }
                    }
                    assert forall|t: int| 0 <= t < idx + 1 implies self.entries()[#[trigger] ps[t].0] == ps[t].1 by {
                        if t < idx {
                            assert(ps[t].0 != ps[idx as int].0);
                        }
                    }
                }
                idx = idx + 1;
            }
            cursor = end;
            c = c + 1;
        }
    }
}

/// Each key that `recs` names gets, in `record_min`, a value that one of its records
/// gives it.
proof fn lemma_record_min_from(recs: Seq<(u32, PathDist)>)
    ensures
        forall|k: u32|
            #[trigger] record_min(recs).contains_key(k) ==> exists|i: int|
                0 <= i < recs.len() && recs[i].0 == k && recs[i].1 == record_min(recs)[k],
    decreases recs.len(),
{
    if recs.len() > 0 {
        let rest = recs.drop_last();
        lemma_record_min_from(rest);
        assert forall|k: u32| #[trigger] record_min(recs).contains_key(k) implies exists|i: int|
            0 <= i < recs.len() && recs[i].0 == k && recs[i].1 == record_min(recs)[k] by {
            if k == recs.last().0 && record_min(recs)[k] == recs.last().1 {
                assert(recs[recs.len() - 1] == recs.last());
            } else {
                assert(record_min(rest).contains_key(k));
                assert(record_min(recs)[k] == record_min(rest)[k]);
                let i = choose|i: int| 0 <= i < rest.len() && rest[i].0 == k && rest[i].1 == record_min(rest)[k];
                assert(recs[i] == rest[i]);
            }
        }
    }
}

impl BlockDs {
    /// Stores a batch of pairs whose values all lie below every stored value: each key
    /// named in `records` then holds the smallest value that `records` gives it, in
    /// place of what it held. `pool`, indexed by key and holding the largest key
    /// everywhere, is scratch space and is left as it was found. The largest key marks
    /// an empty place of `pool`, so no record may carry it as its value (its end field
    /// is `2^21 - 1`, so only a record for that key could): repeated records with that
    /// value would each be taken as the first for their key.
    pub fn batch_prepend(&mut self, records: &[(u32, PathDist)], pool: &mut [PathDist])
        requires
            old(self).wf(),
            forall|i: int|
                0 <= i < records@.len() ==> #[trigger] records@[i].0 < old(self).key_range() && records@[i].0 < old(
                    pool,
                )@.len() && records@[i].1.end_spec() == records@[i].0 && !pd_is_max(records@[i].1),
            forall|i: int, k: u32|
                0 <= i < records@.len() && #[trigger] old(self).entries().contains_key(k) ==> pd_less(
                    #[trigger] records@[i].1,
                    old(self).entries()[k],
                ),
            forall|k: int| 0 <= k < old(pool)@.len() ==> pd_is_max(#[trigger] old(pool)@[k]),
            old(self).used() + 2 * records@.len() < NONE,
        ensures
            final(self).wf(),
            final(self).bound() == old(self).bound(),
            final(self).batch() == old(self).batch(),
            final(self).key_range() == old(self).key_range(),
            final(self).used() <= old(self).used() + 2 * records@.len(),
            final(self).entries() == old(self).entries().union_prefer_right(record_min(records@)),
            final(pool)@ == old(pool)@,
    {
        let ghost e0 = self.entries();
        let ghost recs = records@;
        if records.len() == 0 {
            proof {
                assert(record_min(recs) =~= Map::<u32, PathDist>::empty());
                assert(e0.union_prefer_right(record_min(recs)) =~= e0);
            }
            return;
        }
        let mut pairs = self.gather_records(records, pool);
        let ghost gathered = pairs@;
        let ghost e1 = self.entries();
        let ghost r = record_min(recs);
        sort_pairs(&mut pairs);
        proof {
            lemma_record_min_from(recs);
            assert forall|t: int| 0 <= t < pairs@.len() implies r.contains_key(#[trigger] pairs@[t].0) && pairs@[t].1
                == r[pairs@[t].0] by {
                assert(gathered.contains(pairs@[t]));
                let u = choose|u: int| 0 <= u < gathered.len() && gathered[u] == pairs@[t];
                assert(r.contains_key(gathered[u].0));
            }
            assert forall|t: int| 0 <= t < pairs@.len() implies #[trigger] pairs@[t].0 < self.key_range()
                && !e1.contains_key(pairs@[t].0) by {
                let k = pairs@[t].0;
                let i = choose|i: int| 0 <= i < recs.len() && recs[i].0 == k && recs[i].1 == r[k];
                assert(recs[i].0 < self.key_range());
            }
            assert forall|t: int, k: u32| 0 <= t < pairs@.len() && #[trigger] e1.contains_key(k) implies pd_less(
                #[trigger] pairs@[t].1,
                e1[k],
            ) by {
                let kk = pairs@[t].0;
                let i = choose|i: int| 0 <= i < recs.len() && recs[i].0 == kk && recs[i].1 == r[kk];
                assert(e0.contains_key(k));
                assert(pd_less(recs[i].1, e0[k]));
            }
        }
        self.prepend_sorted(&pairs);
        proof {
            assert forall|k: u32| r.contains_key(k) implies exists|t: int| 0 <= t < pairs@.len() && pairs@[t].0 == k by {
                let u = choose|u: int| 0 <= u < gathered.len() && gathered[u].0 == k;
                assert(pairs@.contains(gathered[u]));
                let t = choose|t: int| 0 <= t < pairs@.len() && pairs@[t] == gathered[u];
                assert(pairs@[t].0 == k);
            }
            assert forall|k: u32| #[trigger] self.entries().contains_key(k) == e0.union_prefer_right(r).contains_key(k) by {
                if exists|t: int| 0 <= t < pairs@.len() && pairs@[t].0 == k {
                    let t = choose|t: int| 0 <= t < pairs@.len() && pairs@[t].0 == k;
                    assert(r.contains_key(pairs@[t].0));
                }
            }
            assert forall|k: u32| #[trigger] self.entries().contains_key(k) implies self.entries()[k] == e0.union_prefer_right(
                r,
            )[k] by {
                if r.contains_key(k) {
                    let t = choose|t: int| 0 <= t < pairs@.len() && pairs@[t].0 == k;
                    assert(self.entries()[pairs@[t].0] == pairs@[t].1);
                }
            }
            assert(self.entries() =~= e0.union_prefer_right(r));
        }
    }
}

} // verus!
