//! The total-order key of a shortest path: distance, hop count, end vertex and
//! predecessor, packed into two words.
use vstd::prelude::*;

verus! {

/// Bits given to the end vertex and to the predecessor in the low word.
const END_BITS: u64 = 21;

/// The key of a path that ends at `end`: compared by distance, then hop count, then
/// end vertex, then predecessor.
///
/// `hi` holds the distance; `lo` holds `hop` (22 bits), `end` (21 bits) and `pred`
/// (21 bits), from most to least significant, so that comparing `(hi, lo)`
/// lexicographically compares the four fields in that order.
#[derive(Clone, Copy, PartialEq, Eq, Hash, PartialOrd, Ord, Debug, Structural)]
pub struct PathDist {
    pub hi: u64,
    pub lo: u64,
}

/// Whether `a` comes strictly before `b`: the order of the derived `Ord`, by `hi`
/// then `lo`.
pub open spec fn pd_less(a: PathDist, b: PathDist) -> bool {
    a.hi < b.hi || (a.hi == b.hi && a.lo < b.lo)
}

/// The low word that holds the three small fields.
pub open spec fn pack_low(hop: int, end: int, pred: int) -> int {
    hop * 4398046511104 + end * 2097152 + pred
}

impl PathDist {
    /// The largest key; stands for "unreachable".
    pub fn max_value() -> (r: PathDist)
        ensures
            r.hi == u64::MAX,
            r.lo == u64::MAX,
    {
        PathDist { hi: u64::MAX, lo: u64::MAX }
    }

    /// The key of a path of length `dis` with `hop` edges, ending at `end`, whose last
    /// edge leaves `pred`.
    pub fn new(dis: u64, hop: u32, end: u32, pred: u32) -> (r: PathDist)
        requires
            hop < 4194304,
            end < 2097152,
            pred < 2097152,
        ensures
            r.hi == dis,
            r.lo == pack_low(hop as int, end as int, pred as int),
            r.hop_spec() == hop,
            r.end_spec() == end,
            r.pred_spec() == pred,
    {
        let lo: u64 = ((hop as u64) << 42u64) | ((end as u64) << END_BITS) | (pred as u64);
        let h = hop as u64;
        let e = end as u64;
        let p = pred as u64;
        assert(((h << 42u64) | (e << 21u64) | p) == h * 4398046511104 + e * 2097152 + p
            && (((h * 4398046511104 + e * 2097152 + p) as u64) >> 42u64) == h
            && ((((h * 4398046511104 + e * 2097152 + p) as u64) >> 21u64) & 2097151u64) == e
            && (((h * 4398046511104 + e * 2097152 + p) as u64) & 2097151u64) == p) by (bit_vector)
            requires
                h < 4194304,
                e < 2097152,
                p < 2097152,
        ;
        PathDist { hi: dis, lo }
    }

    /// Hop count held in the low word.
    pub open spec fn hop_spec(self) -> u32 {
        (self.lo >> 42u64) as u32
    }

    /// End vertex held in the low word.
    pub open spec fn end_spec(self) -> u32 {
        ((self.lo >> 21u64) & 2097151u64) as u32
    }

    /// Predecessor held in the low word.
    pub open spec fn pred_spec(self) -> u32 {
        (self.lo & 2097151u64) as u32
    }

    /// The distance.
    pub fn dis(self) -> (r: u64)
        ensures
            r == self.hi,
    {
        self.hi
    }

    /// The hop count.
    pub fn hop(self) -> (r: u32)
        ensures
            r == self.hop_spec(),
    {
        (self.lo >> 42u64) as u32
    }

    /// The end vertex.
    pub fn end(self) -> (r: u32)
        ensures
            r == self.end_spec(),
    {
        ((self.lo >> END_BITS) & 2097151u64) as u32
    }

    /// The predecessor.
    pub fn pred(self) -> (r: u32)
        ensures
            r == self.pred_spec(),
    {
        (self.lo & 2097151u64) as u32
    }

    /// The largest key of distance `dis`: an upper bound above every path of that
    /// length.
    pub fn scalar_upper(dis: u64) -> (r: PathDist)
        ensures
            r.hi == dis,
            r.lo == u64::MAX,
    {
        PathDist { hi: dis, lo: u64::MAX }
    }

    /// The key of a path of length `dis` with no edges that ends at `end`.
    pub fn from_dis(dis: u64, end: usize) -> (r: PathDist)
        requires
            end < 2097152,
        ensures
            r.hi == dis,
            r.hop_spec() == 0,
            r.end_spec() == end,
            r.pred_spec() == 0,
            r.lo == pack_low(0, end as int, 0),
    {
        PathDist::new(dis, 0, end as u32, 0)
    }

    /// Whether `self` comes strictly before `other` in the order of keys.
    pub fn is_less(&self, other: &PathDist) -> (r: bool)
        ensures
            r == pd_less(*self, *other),
    {
        self.hi < other.hi || (self.hi == other.hi && self.lo < other.lo)
    }
}

/// Packing the three small fields and reading them back gives them again.
pub proof fn lemma_pack_low_fields(hop: u64, end: u64, pred: u64)
    requires
        hop < 4194304,
        end < 2097152,
        pred < 2097152,
    ensures
        pack_low(hop as int, end as int, pred as int) <= u64::MAX,
        ((pack_low(hop as int, end as int, pred as int) as u64) >> 42u64) == hop,
        (((pack_low(hop as int, end as int, pred as int) as u64) >> 21u64) & 2097151u64) == end,
        ((pack_low(hop as int, end as int, pred as int) as u64) & 2097151u64) == pred,
{
    assert((hop * 4398046511104 + end * 2097152 + pred) <= u64::MAX
        && (((hop * 4398046511104 + end * 2097152 + pred) as u64) >> 42u64) == hop
        && ((((hop * 4398046511104 + end * 2097152 + pred) as u64) >> 21u64) & 2097151u64) == end
        && (((hop * 4398046511104 + end * 2097152 + pred) as u64) & 2097151u64) == pred) by (bit_vector)
        requires
            hop < 4194304,
            end < 2097152,
            pred < 2097152,
    ;
}

/// The order of keys compares distance, then hop count, then end vertex, then
/// predecessor.
pub proof fn lemma_order_by_fields(a: PathDist, b: PathDist)
    requires
        a.lo < 18446744073709551615,
        b.lo < 18446744073709551615,
        a.lo == pack_low(a.hop_spec() as int, a.end_spec() as int, a.pred_spec() as int),
        b.lo == pack_low(b.hop_spec() as int, b.end_spec() as int, b.pred_spec() as int),
    ensures
        pd_less(a, b) <==> (a.hi < b.hi || (a.hi == b.hi && (a.hop_spec() < b.hop_spec() || (
        a.hop_spec() == b.hop_spec() && (a.end_spec() < b.end_spec() || (a.end_spec()
            == b.end_spec() && a.pred_spec() < b.pred_spec())))))),
{
    let ah = a.hop_spec();
    let bh = b.hop_spec();
    let ae = a.end_spec();
    let be = b.end_spec();
    let ap = a.pred_spec();
    let bp = b.pred_spec();
    let al = a.lo;
    let bl = b.lo;
    assert(ae < 2097152 && be < 2097152 && ap < 2097152 && bp < 2097152) by (bit_vector)
        requires
            ae == ((al >> 21u64) & 2097151u64) as u32,
            be == ((bl >> 21u64) & 2097151u64) as u32,
            ap == (al & 2097151u64) as u32,
            bp == (bl & 2097151u64) as u32,
    ;
    assert((a.lo < b.lo) <==> (ah < bh || (ah == bh && (ae < be || (ae == be && ap < bp)))))
        by (nonlinear_arith)
        requires
            a.lo == ah * 4398046511104 + ae * 2097152 + ap,
            b.lo == bh * 4398046511104 + be * 2097152 + bp,
            ae < 2097152,
            be < 2097152,
            ap < 2097152,
            bp < 2097152,
    ;
}

} // verus!
