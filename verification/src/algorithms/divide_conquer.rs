use vstd::prelude::*;
use vstd::multiset::Multiset;

verus! {

/// `s[i]` is the first occurrence of a minimum of `s`.
pub open spec fn is_first_min(s: Seq<i32>, i: int) -> bool {
    &&& 0 <= i < s.len()
    &&& forall|j: int| 0 <= j < s.len() ==> s[i] <= #[trigger] s[j]
    &&& forall|j: int| 0 <= j < i ==> s[i] < #[trigger] s[j]
}

/// `s[i]` is the first occurrence of a maximum of `s`.
pub open spec fn is_first_max(s: Seq<i32>, i: int) -> bool {
    &&& 0 <= i < s.len()
    &&& forall|j: int| 0 <= j < s.len() ==> #[trigger] s[j] <= s[i]
    &&& forall|j: int| 0 <= j < i ==> #[trigger] s[j] < s[i]
}

/// Recursive worker on the half-open window `[lo, hi)`; indices are absolute.
fn find_min_max_range(arr: &[i32], lo: usize, hi: usize) -> (res: (usize, usize))
    requires
        lo < hi <= arr.len(),
    ensures
        lo <= res.0 < hi,
        lo <= res.1 < hi,
        forall|j: int| lo <= j < hi ==> arr[res.0 as int] <= #[trigger] arr[j],
        forall|j: int| lo <= j < res.0 ==> arr[res.0 as int] < #[trigger] arr[j],
        forall|j: int| lo <= j < hi ==> #[trigger] arr[j] <= arr[res.1 as int],
        forall|j: int| lo <= j < res.1 ==> #[trigger] arr[j] < arr[res.1 as int],
    decreases hi - lo,
{
    if hi - lo == 1 {
        return (lo, lo);
    }
    let mid = lo + (hi - lo) / 2;
    let (left_min, left_max) = find_min_max_range(arr, lo, mid);
    let (right_min, right_max) = find_min_max_range(arr, mid, hi);
    let min = if arr[left_min] <= arr[right_min] {
        left_min
    } else {
        right_min
    };
    let max = if arr[left_max] >= arr[right_max] {
        left_max
    } else {
        right_max
    };
    (min, max)
}

/// Divide-and-conquer search for the positions of the minimum and the maximum.
///
/// Returns `(min, max)`: the index of the first minimum and the index of the
/// first maximum of `arr`. The slice must not be empty.
pub fn find_min_max(arr: &[i32]) -> (res: (usize, usize))
    requires
        arr.len() > 0,
    ensures
        is_first_min(arr@, res.0 as int),
        is_first_max(arr@, res.1 as int),
{
    find_min_max_range(arr, 0, arr.len())
}

/// The values behind a sequence of references.
pub open spec fn vals(s: Seq<&i32>) -> Seq<i32> {
    s.map_values(|r: &i32| *r)
}

/// `s` is non-decreasing.
pub open spec fn sorted_seq(s: Seq<i32>) -> bool {
    forall|i: int, j: int| 0 <= i <= j < s.len() ==> s[i] <= s[j]
}

/// The window `[a, b)` of `s` is non-decreasing.
pub open spec fn sorted_range(s: Seq<i32>, a: int, b: int) -> bool {
    forall|i: int, j: int| a <= i <= j < b ==> s[i] <= s[j]
}

/// Every aligned run `[k*w, min((k+1)*w, n))` of `s` is sorted.
pub open spec fn runs_sorted(s: Seq<i32>, w: int) -> bool {
    forall|i: int, j: int|
        0 <= i <= j < s.len() && #[trigger] (i / w) == #[trigger] (j / w) ==> s[i] <= s[j]
}

proof fn lemma_split_multiset(s: Seq<i32>, a: int, b: int, c: int)
    requires
        0 <= a <= b <= c <= s.len(),
    ensures
        s.subrange(a, c).to_multiset() =~= s.subrange(a, b).to_multiset().add(
            s.subrange(b, c).to_multiset(),
        ),
{
    assert(s.subrange(a, c) =~= s.subrange(a, b) + s.subrange(b, c));
    vstd::seq_lib::lemma_multiset_commutative(s.subrange(a, b), s.subrange(b, c));
}

/// Merges the sorted windows `src[left..mid]` and `src[mid..right]` into `dst[left..right]`.
fn merge<'a>(src: &Vec<&'a i32>, left: usize, mid: usize, right: usize, dst: &mut Vec<&'a i32>)
    requires
        left <= mid <= right <= src.len(),
        old(dst).len() == src.len(),
        sorted_range(vals(src@), left as int, mid as int),
        sorted_range(vals(src@), mid as int, right as int),
    ensures
        final(dst).len() == old(dst).len(),
        forall|p: int| 0 <= p < left ==> final(dst)@[p] == old(dst)@[p],
        forall|p: int| right <= p < final(dst).len() ==> final(dst)@[p] == old(dst)@[p],
        sorted_range(vals(final(dst)@), left as int, right as int),
        vals(final(dst)@).subrange(left as int, right as int).to_multiset() =~= vals(
            src@,
        ).subrange(left as int, right as int).to_multiset(),
{
    let ghost s = vals(src@);
    let ghost d0 = dst@;
    let mut i = left;
    let mut j = mid;
    let mut k = left;
    proof {
        assert(vals(dst@).subrange(left as int, left as int) =~= Seq::<i32>::empty());
        assert(s.subrange(left as int, left as int) =~= Seq::<i32>::empty());
        assert(s.subrange(mid as int, mid as int) =~= Seq::<i32>::empty());
        Seq::<i32>::empty().to_multiset_ensures();
        vstd::multiset::lemma_multiset_empty_len(Seq::<i32>::empty().to_multiset());
    }
    while i < mid || j < right
        invariant
            left <= i <= mid <= j <= right <= src.len(),
            k == i + j - mid,
            s == vals(src@),
            dst.len() == src.len(),
            forall|p: int| 0 <= p < left ==> dst@[p] == d0[p],
            forall|p: int| right <= p < dst.len() ==> dst@[p] == d0[p],
            sorted_range(s, left as int, mid as int),
            sorted_range(s, mid as int, right as int),
            sorted_range(vals(dst@), left as int, k as int),
            k > left && i < mid ==> vals(dst@)[k - 1] <= s[i as int],
            k > left && j < right ==> vals(dst@)[k - 1] <= s[j as int],
            vals(dst@).subrange(left as int, k as int).to_multiset() =~= s.subrange(
                left as int,
                i as int,
            ).to_multiset().add(s.subrange(mid as int, j as int).to_multiset()),
        decreases (mid - i) + (right - j),
    {
        let ghost dv = vals(dst@);
        let take_left = i < mid && (j >= right || *src[i] <= *src[j]);
        if take_left {
            dst.set(k, src[i]);
            proof {
                assert(vals(dst@) =~= dv.update(k as int, s[i as int]));
                assert(vals(dst@).subrange(left as int, k + 1) =~= dv.subrange(
                    left as int,
                    k as int,
                ).push(s[i as int]));
                assert(s.subrange(left as int, i + 1) =~= s.subrange(left as int, i as int).push(
                    s[i as int],
                ));
                vstd::seq_lib::to_multiset_build(dv.subrange(left as int, k as int), s[i as int]);
                vstd::seq_lib::to_multiset_build(s.subrange(left as int, i as int), s[i as int]);
            }
            i = i + 1;
        } else {
            dst.set(k, src[j]);
            proof {
                assert(vals(dst@) =~= dv.update(k as int, s[j as int]));
                assert(vals(dst@).subrange(left as int, k + 1) =~= dv.subrange(
                    left as int,
                    k as int,
                ).push(s[j as int]));
                assert(s.subrange(mid as int, j + 1) =~= s.subrange(mid as int, j as int).push(
                    s[j as int],
                ));
                vstd::seq_lib::to_multiset_build(dv.subrange(left as int, k as int), s[j as int]);
                vstd::seq_lib::to_multiset_build(s.subrange(mid as int, j as int), s[j as int]);
            }
            j = j + 1;
        }
        k = k + 1;
    }
    proof {
        lemma_split_multiset(s, left as int, mid as int, right as int);
    }
}

/// Copies `src[left..right]` into `dst[left..right]`.
fn copy_range<'a>(src: &Vec<&'a i32>, left: usize, right: usize, dst: &mut Vec<&'a i32>)
    requires
        left <= right <= src.len(),
        old(dst).len() == src.len(),
    ensures
        final(dst).len() == old(dst).len(),
        forall|p: int| 0 <= p < left ==> final(dst)@[p] == old(dst)@[p],
        forall|p: int| right <= p < final(dst).len() ==> final(dst)@[p] == old(dst)@[p],
        forall|p: int| left <= p < right ==> final(dst)@[p] == src@[p],
{
    let mut k = left;
    while k < right
        invariant
            left <= k <= right <= src.len(),
            dst.len() == src.len(),
            forall|p: int| 0 <= p < left ==> dst@[p] == old(dst)@[p],
            forall|p: int| right <= p < dst.len() ==> dst@[p] == old(dst)@[p],
            forall|p: int| left <= p < k ==> dst@[p] == src@[p],
        decreases right - k,
    {
        dst.set(k, src[k]);
        k = k + 1;
    }
}

/// Bottom-up merge sort.
///
/// Returns references to the elements of `arr` in non-decreasing order; the
/// result holds every element of `arr` exactly as often as `arr` does.
pub fn sort<'a>(arr: &'a [i32]) -> (result: Vec<&'a i32>)
    ensures
        result.len() == arr.len(),
        sorted_seq(vals(result@)),
        vals(result@).to_multiset() =~= arr@.to_multiset(),
{
    if arr.len() == 0 {
        let empty: Vec<&'a i32> = Vec::new();
        proof {
            assert(vals(empty@) =~= arr@);
        }
        return empty;
    }
    let len = arr.len();
    let mut result: Vec<&'a i32> = Vec::new();
    let mut p: usize = 0;
    while p < len
        invariant
            p <= len == arr.len(),
            result.len() == p,
            forall|q: int| 0 <= q < p ==> *result@[q] == arr@[q],
        decreases len - p,
    {
        result.push(&arr[p]);
        p = p + 1;
    }
    assert(vals(result@) =~= arr@);
    let mut buf: Vec<&'a i32> = result.clone();
    let mut width: usize = 1;
    assert(runs_sorted(vals(result@), 1)) by {
        assert forall|i: int, j: int|
            0 <= i <= j < vals(result@).len() && #[trigger] (i / 1) == #[trigger] (j / 1) implies
            vals(result@)[i] <= vals(result@)[j] by {
            assert(i == j);
        }
    }
    while width < len
        invariant
            0 < width,
            len == arr.len(),
            result.len() == len,
            buf.len() == len,
            runs_sorted(vals(result@), width as int),
            vals(result@).to_multiset() =~= arr@.to_multiset(),
        decreases len - width,
    {
        let ghost r = vals(result@);
        let mut i: usize = 0;
        proof {
            assert(vals(buf@).subrange(0, 0) =~= Seq::<i32>::empty());
            assert(r.subrange(0, 0) =~= Seq::<i32>::empty());
            vstd::arithmetic::div_mod::lemma_basic_div(0, 2 * width as int);
            assert(0int % (2 * width as int) == 0);
        }
        while i < len
            invariant
                0 < width < len,
                i <= len,
                len == arr.len(),
                result.len() == len,
                buf.len() == len,
                r == vals(result@),
                runs_sorted(r, width as int),
                i as int % (2 * width as int) == 0 || i == len,
                forall|a: int, b: int|
                    0 <= a <= b < i && #[trigger] (a / (2 * width as int)) == #[trigger] (b / (2
                        * width as int)) ==> vals(buf@)[a] <= vals(buf@)[b],
                vals(buf@).subrange(0, i as int).to_multiset() =~= r.subrange(
                    0,
                    i as int,
                ).to_multiset(),
            decreases len - i,
        {
            let left = i;
            let mid = if width <= len - i {
                i + width
            } else {
                len
            };
            let right = if width <= len - mid {
                mid + width
            } else {
                len
            };
            let ghost w = width as int;
            let ghost b0 = vals(buf@);
            proof {
                lemma_half_aligned(left as int, w);
                assert forall|a: int, b: int| left <= a <= b < mid implies r[a] <= r[b] by {
                    lemma_div_window(a, b, left as int, w);
                }
                assert forall|a: int, b: int| mid <= a <= b < right implies r[a] <= r[b] by {
                    lemma_div_window(a, b, mid as int, w);
                }
            }
            if mid < right {
                merge(&result, left, mid, right, &mut buf);
            } else {
                copy_range(&result, left, right, &mut buf);
                proof {
                    assert(vals(buf@).subrange(left as int, right as int) =~= r.subrange(
                        left as int,
                        right as int,
                    ));
                    assert forall|a: int, b: int| left <= a <= b < right implies vals(buf@)[a]
                        <= vals(buf@)[b] by {
                        lemma_div_window(a, b, left as int, w);
                    }
                }
            }
            proof {
                let bv = vals(buf@);
                assert(bv.subrange(0, left as int) =~= b0.subrange(0, left as int));
                lemma_split_multiset(bv, 0, left as int, right as int);
                lemma_split_multiset(r, 0, left as int, right as int);
                assert(left as int % (2 * w) == 0);
                assert forall|a: int, b: int|
                    0 <= a <= b < right && #[trigger] (a / (2 * w)) == #[trigger] (b / (2 * w))
                    implies bv[a] <= bv[b] by {
                    lemma_run_cases(a, b, left as int, right as int, 2 * w);
                    if b < left {
                        assert(bv[a] == b0[a]);
                        assert(bv[b] == b0[b]);
                    }
                }
                if right < len {
                    assert(right as int == left + 2 * w);
                    vstd::arithmetic::div_mod::lemma_mod_add_multiples_vanish(left as int, 2 * w);
                }
            }
            i = right;
        }
        proof {
            assert(vals(buf@).subrange(0, len as int) =~= vals(buf@));
            assert(r.subrange(0, len as int) =~= r);
        }
        std::mem::swap(&mut result, &mut buf);
        if width >= len - width {
            proof {
                assert forall|a: int, b: int|
                    0 <= a <= b < vals(result@).len() implies vals(result@)[a] <= vals(
                        result@,
                    )[b] by {
                    lemma_single_run(a, b, len as int, 2 * (width as int));
                }
            }
            width = len;
        } else {
            width = width * 2;
        }
    }
    proof {
        assert forall|a: int, b: int| 0 <= a <= b < vals(result@).len() implies vals(result@)[a]
            <= vals(result@)[b] by {
            lemma_single_run(a, b, len as int, width as int);
        }
    }
    result
}

/// A multiple of `2w` is a multiple of `w`, and so is the next multiple of `w`.
proof fn lemma_half_aligned(x: int, w: int)
    requires
        0 < w,
        0 <= x,
        x % (2 * w) == 0,
    ensures
        x % w == 0,
        (x + w) % w == 0,
{
    vstd::arithmetic::div_mod::lemma_fundamental_div_mod(x, 2 * w);
    let q = x / (2 * w);
    assert(x == (2 * q) * w) by (nonlinear_arith)
        requires
            x == (2 * w) * q + 0,
    ;
    vstd::arithmetic::div_mod::lemma_mod_multiples_basic(2 * q, w);
    vstd::arithmetic::div_mod::lemma_mod_add_multiples_vanish(x, w);
}

/// Two positions inside one aligned window of width `w` starting at `start` share a run.
proof fn lemma_div_window(a: int, b: int, start: int, w: int)
    requires
        0 < w,
        0 <= start,
        start % w == 0,
        start <= a <= b < start + w,
    ensures
        a / w == b / w,
{
    vstd::arithmetic::div_mod::lemma_fundamental_div_mod(start, w);
    let q = start / w;
    vstd::arithmetic::div_mod::lemma_div_pos_is_pos(start, w);
    assert(start == q * w) by (nonlinear_arith)
        requires
            start == w * q + 0,
    ;
    vstd::arithmetic::div_mod::lemma_fundamental_div_mod_converse(a, w, q, a - q * w);
    vstd::arithmetic::div_mod::lemma_fundamental_div_mod_converse(b, w, q, b - q * w);
}

/// Positions in one run of width `w2` either both precede `left` or both lie in `[left, right)`.
proof fn lemma_run_cases(a: int, b: int, left: int, right: int, w2: int)
    requires
        0 < w2,
        0 <= left,
        left % w2 == 0,
        0 <= a <= b < right,
        right <= left + w2,
        a / w2 == b / w2,
    ensures
        b < left || (left <= a && a / w2 == left / w2),
{
    if b >= left {
        lemma_div_window(left, b, left, w2);
        if a < left {
            vstd::arithmetic::div_mod::lemma_fundamental_div_mod(left, w2);
            vstd::arithmetic::div_mod::lemma_fundamental_div_mod(a, w2);
            vstd::arithmetic::div_mod::lemma_fundamental_div_mod(b, w2);
            assert(a / w2 == left / w2);
            assert(false);
        }
    }
}

/// When the run width covers the whole sequence, every pair shares run 0.
proof fn lemma_single_run(a: int, b: int, n: int, w: int)
    requires
        0 <= a <= b < n <= w,
    ensures
        a / w == 0 && b / w == 0,
{
    vstd::arithmetic::div_mod::lemma_basic_div(a, w);
    vstd::arithmetic::div_mod::lemma_basic_div(b, w);
}

} // verus!
