//! Separator-free dictionaries: sets of words of length `k` over an alphabet of size
//! `n` such that no word of the set occurs as an overlap of two (not necessarily
//! distinct) words of the set.
use vstd::prelude::*;

verus! {

/// `b` raised to the power `e`.
pub open spec fn power(b: int, e: nat) -> int
    decreases e,
{
    if e == 0 {
        1
    } else {
        b * power(b, (e - 1) as nat)
    }
}

pub(crate) proof fn lemma_power_increases(b: int, e1: nat, e2: nat)
    requires
        b >= 1,
        e1 <= e2,
    ensures
        1 <= power(b, e1) <= power(b, e2),
    decreases e2,
{
    if e2 > e1 {
        lemma_power_increases(b, e1, (e2 - 1) as nat);
        assert(power(b, (e2 - 1) as nat) <= b * power(b, (e2 - 1) as nat)) by (nonlinear_arith)
            requires
                b >= 1,
                power(b, (e2 - 1) as nat) >= 1,
        ;
    } else {
        lemma_pow_pos(b, e1);
    }
}

/// The number a word denotes in base `n`, first letter most significant.
pub open spec fn pack_spec(s: Seq<usize>, n: int) -> int
    decreases s.len(),
{
    if s.len() == 0 {
        0
    } else {
        pack_spec(s.drop_last(), n) * n + s.last()
    }
}

/// The word of length `len` over base `n` that denotes `id` modulo `n^len`.
pub open spec fn unpack_spec(id: int, n: int, len: int) -> Seq<usize>
    decreases len,
{
    if len <= 0 {
        Seq::empty()
    } else {
        unpack_spec(id / n, n, len - 1).push((id % n) as usize)
    }
}

proof fn lemma_pow_pos(n: int, e: nat)
    requires
        n >= 1,
    ensures
        power(n, e) >= 1,
    decreases e,
{
    if e > 0 {
        lemma_pow_pos(n, (e - 1) as nat);
        assert(n * power(n, (e - 1) as nat) >= 1) by (nonlinear_arith)
            requires
                n >= 1,
                power(n, (e - 1) as nat) >= 1,
        ;
    }
}

/// A word whose letters are below `n` denotes a number below `n^len`.
proof fn lemma_pack_bound(s: Seq<usize>, n: int)
    requires
        n >= 1,
        forall|i: int| 0 <= i < s.len() ==> #[trigger] s[i] < n,
    ensures
        0 <= pack_spec(s, n) < power(n, s.len()),
    decreases s.len(),
{
    if s.len() > 0 {
        let t = s.drop_last();
        lemma_pack_bound(t, n);
        let p = pack_spec(t, n);
        assert(power(n, s.len()) == n * power(n, t.len()));
        assert(0 <= p * n + s.last() < n * power(n, t.len())) by (nonlinear_arith)
            requires
                0 <= p < power(n, t.len()),
                0 <= s.last() < n,
                n >= 1,
        ;
    }
}

proof fn lemma_unpack_props(id: int, n: int, len: int)
    requires
        1 <= n <= usize::MAX,
        id >= 0,
        len >= 0,
    ensures
        unpack_spec(id, n, len).len() == len,
        forall|i: int| 0 <= i < len ==> #[trigger] unpack_spec(id, n, len)[i] < n,
    decreases len,
{
    if len > 0 {
        vstd::arithmetic::div_mod::lemma_div_pos_is_pos(id, n);
        lemma_unpack_props(id / n, n, len - 1);
        vstd::arithmetic::div_mod::lemma_mod_pos_bound(id, n);
    }
}

/// Spelling out a number below `n^len` and reading it back gives the number.
pub proof fn lemma_pack_unpack(id: int, n: int, len: int)
    requires
        1 <= n <= usize::MAX,
        len >= 0,
        0 <= id < power(n, len as nat),
    ensures
        pack_spec(unpack_spec(id, n, len), n) == id,
    decreases len,
{
    if len > 0 {
        let q = id / n;
        vstd::arithmetic::div_mod::lemma_fundamental_div_mod(id, n);
        vstd::arithmetic::div_mod::lemma_div_pos_is_pos(id, n);
        vstd::arithmetic::div_mod::lemma_mod_pos_bound(id, n);
        assert(power(n, len as nat) == n * power(n, (len - 1) as nat));
        assert(q < power(n, (len - 1) as nat)) by (nonlinear_arith)
            requires
                id == n * q + id % n,
                0 <= id % n,
                id < n * power(n, (len - 1) as nat),
                n >= 1,
        ;
        lemma_pack_unpack(q, n, len - 1);
        let s = unpack_spec(id, n, len);
        assert(s.drop_last() =~= unpack_spec(q, n, len - 1));
        assert(q * n == n * q) by (nonlinear_arith);
    } else {
        assert(power(n, 0) == 1);
    }
}

/// Reading a word as a number and spelling that number out again, at the word's
/// length, gives the word back.
pub proof fn lemma_unpack_pack(s: Seq<usize>, n: int)
    requires
        1 <= n <= usize::MAX,
        forall|i: int| 0 <= i < s.len() ==> #[trigger] s[i] < n,
    ensures
        unpack_spec(pack_spec(s, n), n, s.len() as int) == s,
    decreases s.len(),
{
    if s.len() > 0 {
        let t = s.drop_last();
        assert forall|i: int| 0 <= i < t.len() implies #[trigger] t[i] < n by {
            assert(t[i] == s[i]);
        }
        lemma_unpack_pack(t, n);
        lemma_pack_bound(t, n);
        let p = pack_spec(t, n);
        vstd::arithmetic::div_mod::lemma_fundamental_div_mod_converse(p * n + s.last(), n, p, s.last() as int);
        assert(unpack_spec(pack_spec(s, n), n, s.len() as int) =~= t.push(s.last()));
        assert(t.push(s.last()) =~= s);
    }
}

/// Encodes a word (letters below `alphabet_size`) as a number in `[0, n^k)`.
pub fn pack_word(symbols: &[usize], alphabet_size: usize) -> (id: usize)
    requires
        forall|i: int| 0 <= i < symbols.len() ==> #[trigger] symbols[i] < alphabet_size,
        alphabet_size >= 1 ==> power(alphabet_size as int, symbols.len() as nat) <= usize::MAX + 1,
    ensures
        id == pack_spec(symbols@, alphabet_size as int),
{
    let ghost n = alphabet_size as int;
    let mut id: usize = 0;
    let mut i: usize = 0;
    while i < symbols.len()
        invariant
            i <= symbols.len(),
            n == alphabet_size,
            forall|j: int| 0 <= j < symbols.len() ==> #[trigger] symbols[j] < alphabet_size,
            alphabet_size >= 1 ==> power(n, symbols.len() as nat) <= usize::MAX + 1,
            id == pack_spec(symbols@.take(i as int), n),
        decreases symbols.len() - i,
    {
        let x = symbols[i];
        proof {
            let t = symbols@.take(i + 1);
            assert(t.drop_last() =~= symbols@.take(i as int));
            assert forall|j: int| 0 <= j < t.len() implies #[trigger] t[j] < n by {}
            lemma_pack_bound(t, n);
            lemma_power_increases(n, (i + 1) as nat, symbols.len() as nat);
        }
        id = id * alphabet_size + x;
        i = i + 1;
    }
    proof {
        assert(symbols@.take(symbols.len() as int) =~= symbols@);
    }
    id
}

/// Spells `id` as a word of `str_len` letters in base `alphabet_size` (the inverse of [`pack_word`]).
pub fn unpack_word(id: usize, alphabet_size: usize, str_len: usize) -> (v: Vec<usize>)
    requires
        alphabet_size >= 1,
    ensures
        v@ == unpack_spec(id as int, alphabet_size as int, str_len as int),
        v.len() == str_len,
        forall|i: int| 0 <= i < str_len ==> #[trigger] v[i] < alphabet_size,
{
    let ghost n = alphabet_size as int;
    let mut v: Vec<usize> = vec![0; str_len];
    let mut x = id;
    let mut i = str_len;
    proof {
        lemma_unpack_props(id as int, n, str_len as int);
        assert(power(n, 0) == 1);
    }
    while i > 0
        invariant
            n == alphabet_size >= 1,
            i <= str_len,
            v.len() == str_len,
            unpack_spec(id as int, n, str_len as int).len() == str_len,
            x == id as int / power(n, (str_len - i) as nat),
            v@.subrange(i as int, str_len as int) =~= unpack_spec(id as int, n, str_len as int).subrange(
                i as int,
                str_len as int,
            ),
        decreases i,
    {
        i = i - 1;
        let ghost prev = v@;
        v.set(i, x % alphabet_size);
        proof {
            let u = unpack_spec(id as int, n, str_len as int);
            lemma_unpack_suffix(id as int, n, str_len as int, i as int);
            assert forall|j: int| i <= j < str_len implies v@[j] == u[j] by {
                if j > i {
                    assert(prev.subrange(i + 1, str_len as int)[j - i - 1] == prev[j]);
                    assert(u.subrange(i + 1, str_len as int)[j - i - 1] == u[j]);
                }
            }
            assert(v@.subrange(i as int, str_len as int) =~= u.subrange(i as int, str_len as int));
            lemma_pow_pos(n, (str_len - i - 1) as nat);
            vstd::arithmetic::div_mod::lemma_div_denominator(id as int, power(n, (str_len - i - 1) as nat), n);
            assert(power(n, (str_len - i) as nat) == n * power(n, (str_len - i - 1) as nat));
            assert(power(n, (str_len - i - 1) as nat) * n == n * power(n, (str_len - i - 1) as nat)) by (nonlinear_arith);
        }
        x = x / alphabet_size;
    }
    proof {
        lemma_unpack_props(id as int, n, str_len as int);
        assert(v@ =~= v@.subrange(0, str_len as int));
        assert(unpack_spec(id as int, n, str_len as int) =~= unpack_spec(id as int, n, str_len as int).subrange(
            0,
            str_len as int,
        ));
    }
    v
}

/// Letter `i` of the spelled word is the digit of weight `n^(len - 1 - i)`.
proof fn lemma_unpack_suffix(id: int, n: int, len: int, i: int)
    requires
        1 <= n <= usize::MAX,
        id >= 0,
        0 <= i < len,
    ensures
        unpack_spec(id, n, len).len() == len,
        unpack_spec(id, n, len)[i] == (id / power(n, (len - 1 - i) as nat)) % n,
    decreases len,
{
    lemma_unpack_props(id, n, len);
    let u = unpack_spec(id, n, len);
    let r = unpack_spec(id / n, n, len - 1);
    assert(u == r.push((id % n) as usize));
    vstd::arithmetic::div_mod::lemma_mod_pos_bound(id, n);
    if i == len - 1 {
        assert(power(n, 0) == 1);
        assert(id / 1 == id);
    } else {
        vstd::arithmetic::div_mod::lemma_div_pos_is_pos(id, n);
        lemma_unpack_suffix(id / n, n, len - 1, i);
        assert(u[i] == r[i]);
        let p = power(n, (len - 2 - i) as nat);
        lemma_pow_pos(n, (len - 2 - i) as nat);
        vstd::arithmetic::div_mod::lemma_div_denominator(id, n, p);
        assert(power(n, (len - 1 - i) as nat) == n * p);
        assert(r[i] == (id / n / p) % n);
    }
}

/// The overlap of the ordered pair `(a, b)` at cut `r`: the last `k - r` letters of
/// word `a` followed by the first `r` letters of word `b`.
pub open spec fn overlap(a: int, b: int, r: int, n: int, k: int) -> int {
    pack_spec(unpack_spec(a, n, k).subrange(r, k) + unpack_spec(b, n, k).subrange(0, r), n)
}

/// Every overlap of two words of length `k` is itself a word of length `k`.
proof fn lemma_overlap_range(a: int, b: int, r: int, n: int, k: int)
    requires
        1 <= n <= usize::MAX,
        a >= 0,
        b >= 0,
        0 <= r <= k,
    ensures
        0 <= overlap(a, b, r, n, k) < power(n, k as nat),
{
    lemma_unpack_props(a, n, k);
    lemma_unpack_props(b, n, k);
    let s = unpack_spec(a, n, k).subrange(r, k) + unpack_spec(b, n, k).subrange(0, r);
    assert forall|i: int| 0 <= i < s.len() implies #[trigger] s[i] < n by {
        if i < k - r {
            assert(s[i] == unpack_spec(a, n, k)[r + i]);
        } else {
            assert(s[i] == unpack_spec(b, n, k)[i - (k - r)]);
        }
    }
    lemma_pack_bound(s, n);
}

/// The `k - 1` overlaps of the ordered pair `(a, b)`, for the cuts `1..k` in order.
fn overlap_ids(a: usize, b: usize, alphabet_size: usize, str_len: usize) -> (out: Vec<usize>)
    requires
        alphabet_size >= 1,
        str_len >= 1,
        power(alphabet_size as int, str_len as nat) <= usize::MAX,
    ensures
        out.len() == str_len - 1,
        forall|r: int|
            1 <= r < str_len ==> #[trigger] out[r - 1] == overlap(
                a as int,
                b as int,
                r,
                alphabet_size as int,
                str_len as int,
            ),
        forall|r: int|
            1 <= r < str_len ==> #[trigger] out[r - 1] < power(alphabet_size as int, str_len as nat),
{
    let ghost n = alphabet_size as int;
    let ghost kk = str_len as int;
    let xa = unpack_word(a, alphabet_size, str_len);
    let xb = unpack_word(b, alphabet_size, str_len);
    let k = str_len;
    let mut out: Vec<usize> = Vec::with_capacity(k - 1);
    let mut r: usize = 1;
    while r < k
        invariant
            1 <= r <= k,
            k == str_len == kk,
            n == alphabet_size >= 1,
            power(n, k as nat) <= usize::MAX,
            xa@ == unpack_spec(a as int, n, kk),
            xb@ == unpack_spec(b as int, n, kk),
            xa.len() == k,
            xb.len() == k,
            forall|i: int| 0 <= i < k ==> #[trigger] xa[i] < alphabet_size,
            forall|i: int| 0 <= i < k ==> #[trigger] xb[i] < alphabet_size,
            out.len() == r - 1,
            forall|q: int| 1 <= q < r ==> #[trigger] out[q - 1] == overlap(a as int, b as int, q, n, kk),
            forall|q: int| 1 <= q < r ==> #[trigger] out[q - 1] < power(n, kk as nat),
        decreases k - r,
    {
        let mut sym: Vec<usize> = Vec::with_capacity(k);
        sym.extend_from_slice(&xa[r..k]);
        sym.extend_from_slice(&xb[0..r]);
        proof {
            let want = xa@.subrange(r as int, kk) + xb@.subrange(0, r as int);
            assert(sym@ =~= want);
            assert forall|i: int| 0 <= i < sym.len() implies #[trigger] sym[i] < alphabet_size by {
                if i < k - r {
                    assert(sym[i] == xa[r + i]);
                } else {
                    assert(sym[i] == xb[i - (k - r)]);
                }
            }
            lemma_overlap_range(a as int, b as int, r as int, n, kk);
        }
        let id = pack_word(&sym, alphabet_size);
        out.push(id);
        r = r + 1;
    }
    out
}

/// How many words a selection (one flag per word, indexed by the word's number) holds.
pub open spec fn count_chosen(sel: Seq<bool>) -> int
    decreases sel.len(),
{
    if sel.len() == 0 {
        0
    } else {
        count_chosen(sel.drop_last()) + if sel.last() {
            1int
        } else {
            0int
        }
    }
}

/// No overlap of two chosen words (a word with itself included) is chosen.
pub open spec fn separator_free(sel: Seq<bool>, n: int, k: int) -> bool {
    forall|a: int, b: int, r: int|
        #![trigger overlap(a, b, r, n, k)]
        0 <= a < sel.len() && 0 <= b < sel.len() && 1 <= r < k && sel[a] && sel[b] ==> !sel[overlap(
            a,
            b,
            r,
            n,
            k,
        )]
}

/// A separator-free dictionary over all words of length `k` on `n` letters.
pub open spec fn is_dictionary(sel: Seq<bool>, n: int, k: int) -> bool {
    sel.len() == power(n, k as nat) && separator_free(sel, n, k)
}

/// `m` is the largest size of a separator-free dictionary of words of length `k`
/// on `n` letters.
pub open spec fn is_max_dictionary_size(n: int, k: int, m: int) -> bool {
    &&& exists|sel: Seq<bool>| #[trigger] is_dictionary(sel, n, k) && count_chosen(sel) == m
    &&& forall|sel: Seq<bool>| #[trigger] is_dictionary(sel, n, k) ==> count_chosen(sel) <= m
}

/// Word `o` is an overlap of two chosen words.
pub open spec fn excluded(sel: Seq<bool>, o: int, n: int, k: int) -> bool {
    exists|a: int, b: int, r: int|
        #![trigger overlap(a, b, r, n, k)]
        0 <= a < sel.len() && 0 <= b < sel.len() && 1 <= r < k && sel[a] && sel[b] && overlap(
            a,
            b,
            r,
            n,
            k,
        ) == o
}

/// Two chosen words with a chosen overlap make a selection not separator-free.
proof fn lemma_not_free(sel: Seq<bool>, a: int, b: int, r: int, n: int, k: int)
    requires
        0 <= a < sel.len(),
        0 <= b < sel.len(),
        1 <= r < k,
        sel[a],
        sel[b],
        0 <= overlap(a, b, r, n, k) < sel.len(),
        sel[overlap(a, b, r, n, k)],
    ensures
        !separator_free(sel, n, k),
{
}

/// Whether adding word `idx` (already flagged in `in_set` and listed in `cur`) to a
/// separator-free selection keeps it separator-free.
fn extension_is_valid(
    idx: usize,
    n: usize,
    k: usize,
    cur: &Vec<usize>,
    in_set: &[bool],
) -> (valid: bool)
    requires
        n >= 1,
        k >= 1,
        power(n as int, k as nat) <= usize::MAX,
        in_set.len() == power(n as int, k as nat),
        idx < in_set.len(),
        in_set[idx as int],
        forall|i: int| 0 <= i < cur.len() ==> #[trigger] cur[i] < in_set.len() && in_set[cur[i] as int],
        forall|j: int| 0 <= j < in_set.len() && #[trigger] in_set[j] ==> cur@.contains(j as usize),
        separator_free(in_set@.update(idx as int, false), n as int, k as int),
    ensures
        valid == separator_free(in_set@, n as int, k as int),
{
    let ghost nn = n as int;
    let ghost kk = k as int;
    let ghost sel = in_set@;
    let ghost total = power(nn, k as nat);
    let mut i: usize = 0;
    while i < cur.len()
        invariant
            i <= cur.len(),
            nn == n >= 1,
            kk == k >= 1,
            sel == in_set@,
            total == power(nn, k as nat) <= usize::MAX,
            in_set.len() == total,
            idx < in_set.len(),
            sel[idx as int],
            forall|i2: int| 0 <= i2 < cur.len() ==> #[trigger] cur[i2] < in_set.len() && in_set[cur[i2] as int],
            forall|i2: int, r: int|
                #![trigger overlap(idx as int, cur[i2] as int, r, nn, kk)]
                0 <= i2 < i && 1 <= r < kk ==> !sel[overlap(idx as int, cur[i2] as int, r, nn, kk)],
            forall|i2: int, r: int|
                #![trigger overlap(cur[i2] as int, idx as int, r, nn, kk)]
                0 <= i2 < i && 1 <= r < kk ==> !sel[overlap(cur[i2] as int, idx as int, r, nn, kk)],
        decreases cur.len() - i,
    {
        let y = cur[i];
        let ov = overlap_ids(idx, y, n, k);
        let mut j: usize = 0;
        while j < ov.len()
            invariant
                j <= ov.len(),
                ov.len() == k - 1,
                kk == k,
                nn == n,
                in_set.len() == total,
                idx < in_set.len(),
                sel[idx as int],
                sel[y as int],
                y < in_set.len(),
                sel == in_set@,
                forall|r: int| 1 <= r < kk ==> #[trigger] ov[r - 1] == overlap(idx as int, y as int, r, nn, kk),
                forall|r: int| 1 <= r < kk ==> #[trigger] ov[r - 1] < total,
                forall|r: int| 1 <= r <= j ==> !sel[overlap(idx as int, y as int, r, nn, kk)],
            decreases ov.len() - j,
        {
            assert(ov[(j + 1) - 1] < total);
            if in_set[ov[j]] {
                proof {
                    assert(ov[(j + 1) - 1] == overlap(idx as int, y as int, j + 1, nn, kk));
                    lemma_not_free(sel, idx as int, y as int, j + 1, nn, kk);
                }
                return false;
            }
            proof {
                assert(ov[(j + 1) - 1] == overlap(idx as int, y as int, j + 1, nn, kk));
            }
            j = j + 1;
        }
        let ov2 = overlap_ids(y, idx, n, k);
        let mut j: usize = 0;
        while j < ov2.len()
            invariant
                j <= ov2.len(),
                ov2.len() == k - 1,
                kk == k,
                nn == n,
                in_set.len() == total,
                idx < in_set.len(),
                sel[idx as int],
                sel[y as int],
                y < in_set.len(),
                sel == in_set@,
                forall|r: int| 1 <= r < kk ==> #[trigger] ov2[r - 1] == overlap(y as int, idx as int, r, nn, kk),
                forall|r: int| 1 <= r < kk ==> #[trigger] ov2[r - 1] < total,
                forall|r: int| 1 <= r <= j ==> !sel[overlap(y as int, idx as int, r, nn, kk)],
            decreases ov2.len() - j,
        {
            assert(ov2[(j + 1) - 1] < total);
            if in_set[ov2[j]] {
                proof {
                    assert(ov2[(j + 1) - 1] == overlap(y as int, idx as int, j + 1, nn, kk));
                    lemma_not_free(sel, y as int, idx as int, j + 1, nn, kk);
                }
                return false;
            }
            proof {
                assert(ov2[(j + 1) - 1] == overlap(y as int, idx as int, j + 1, nn, kk));
            }
            j = j + 1;
        }
        i = i + 1;
    }
    let mut i: usize = 0;
    while i < cur.len()
        invariant
            i <= cur.len(),
            nn == n >= 1,
            kk == k >= 1,
            sel == in_set@,
            total == power(nn, k as nat) <= usize::MAX,
            in_set.len() == total,
            idx < in_set.len(),
            sel[idx as int],
            forall|i2: int| 0 <= i2 < cur.len() ==> #[trigger] cur[i2] < in_set.len() && in_set[cur[i2] as int],
            forall|i2: int, j2: int, r: int|
                #![trigger overlap(cur[i2] as int, cur[j2] as int, r, nn, kk)]
                0 <= i2 < i && 0 <= j2 < cur.len() && 1 <= r < kk && cur[i2] != idx && cur[j2] != idx
                    ==> overlap(cur[i2] as int, cur[j2] as int, r, nn, kk) != idx,
        decreases cur.len() - i,
    {
        let x = cur[i];
        if x != idx {
            let mut j: usize = 0;
            while j < cur.len()
                invariant
                    j <= cur.len(),
                    i < cur.len(),
                    x == cur[i as int],
                    x != idx,
                    sel == in_set@,
                    in_set.len() == total,
                    idx < in_set.len(),
                    sel[idx as int],
                    x < sel.len(),
                    sel[x as int],
                    forall|i2: int| 0 <= i2 < cur.len() ==> #[trigger] cur[i2] < in_set.len() && in_set[cur[i2] as int],
                    nn == n >= 1,
                    kk == k >= 1,
                    total == power(nn, k as nat) <= usize::MAX,
                    forall|i2: int, j2: int, r: int|
                        #![trigger overlap(cur[i2] as int, cur[j2] as int, r, nn, kk)]
                        0 <= i2 < i && 0 <= j2 < cur.len() && 1 <= r < kk && cur[i2] != idx && cur[j2]
                            != idx ==> overlap(cur[i2] as int, cur[j2] as int, r, nn, kk)
                            != idx,
                    forall|j2: int, r: int|
                        #![trigger overlap(x as int, cur[j2] as int, r, nn, kk)]
                        0 <= j2 < j && 1 <= r < kk && cur[j2] != idx ==> overlap(
                            x as int,
                            cur[j2] as int,
                            r,
                            nn,
                            kk,
                        ) != idx,
                decreases cur.len() - j,
            {
                let y = cur[j];
                assert(sel[y as int]);
                if y != idx {
                    let ov = overlap_ids(x, y, n, k);
                    let mut q: usize = 0;
                    while q < ov.len()
                        invariant
                            q <= ov.len(),
                            ov.len() == k - 1,
                            kk == k,
                            nn == n,
                            sel.len() == total,
                            sel == in_set@,
                            x < sel.len(),
                            y < sel.len(),
                            idx < sel.len(),
                            sel[x as int],
                            sel[y as int],
                            sel[idx as int],
                            forall|r: int| 1 <= r < kk ==> #[trigger] ov[r - 1] == overlap(x as int, y as int, r, nn, kk),
                            forall|r: int| 1 <= r <= q ==> overlap(x as int, y as int, r, nn, kk) != idx,
                        decreases ov.len() - q,
                    {
                        assert(ov[(q + 1) - 1] == overlap(x as int, y as int, q + 1, nn, kk));
                        if ov[q] == idx {
                            proof {
                                lemma_not_free(sel, x as int, y as int, q + 1, nn, kk);
                            }
                            return false;
                        }
                        q = q + 1;
                    }
                }
                j = j + 1;
            }
        }
        i = i + 1;
    }
    proof {
        let upd = sel.update(idx as int, false);
        assert forall|a: int, b: int, r: int|
            0 <= a < sel.len() && 0 <= b < sel.len() && 1 <= r < kk && sel[a] && sel[b] implies !sel[
            #[trigger] overlap(a, b, r, nn, kk)] by {
            lemma_overlap_range(a, b, r, nn, kk);
            let o = overlap(a, b, r, nn, kk);
            assert(cur@.contains(a as usize));
            assert(cur@.contains(b as usize));
            let ia = choose|t: int| 0 <= t < cur.len() && cur@[t] == a as usize;
            let ib = choose|t: int| 0 <= t < cur.len() && cur@[t] == b as usize;
            if a == idx {
                assert(cur[ib] == b);
            } else if b == idx {
                assert(cur[ia] == a);
            } else {
                assert(cur[ia] == a && cur[ib] == b);
                assert(o != idx);
                assert(upd[a] && upd[b]);
                assert(!upd[o]);
            }
        }
    }
    true
}

/// Flagging one more word adds one to the count.
proof fn lemma_count_set(sel: Seq<bool>, i: int)
    requires
        0 <= i < sel.len(),
        !sel[i],
    ensures
        count_chosen(sel.update(i, true)) == count_chosen(sel) + 1,
    decreases sel.len(),
{
    let t = sel.update(i, true);
    if i < sel.len() - 1 {
        assert(t.drop_last() =~= sel.drop_last().update(i, true));
        lemma_count_set(sel.drop_last(), i);
    } else {
        assert(t.drop_last() =~= sel.drop_last());
    }
}

proof fn lemma_count_bounds(sel: Seq<bool>)
    ensures
        0 <= count_chosen(sel) <= sel.len(),
    decreases sel.len(),
{
    if sel.len() > 0 {
        lemma_count_bounds(sel.drop_last());
    }
}

proof fn lemma_count_none(sel: Seq<bool>)
    requires
        forall|j: int| 0 <= j < sel.len() ==> !sel[j],
    ensures
        count_chosen(sel) == 0,
    decreases sel.len(),
{
    if sel.len() > 0 {
        lemma_count_none(sel.drop_last());
    }
}

/// A selection that agrees with `base` below `idx`, where `base` flags nothing from
/// `idx` on, holds at most `len - idx` words more than `base`.
proof fn lemma_count_extension(sel: Seq<bool>, base: Seq<bool>, idx: int)
    requires
        sel.len() == base.len(),
        0 <= idx <= sel.len(),
        forall|j: int| 0 <= j < idx ==> sel[j] == base[j],
        forall|j: int| idx <= j < base.len() ==> !base[j],
    ensures
        count_chosen(sel) <= count_chosen(base) + (sel.len() - idx),
    decreases sel.len(),
{
    if idx == sel.len() {
        assert(sel =~= base);
    } else {
        lemma_count_extension(sel.drop_last(), base.drop_last(), idx);
    }
}

/// How many times `v` occurs in `s`.
spec fn occurrences(s: Seq<usize>, v: int) -> int
    decreases s.len(),
{
    if s.len() == 0 {
        0
    } else {
        occurrences(s.drop_last(), v) + if s.last() == v {
            1int
        } else {
            0int
        }
    }
}

proof fn lemma_occurrences_push(s: Seq<usize>, x: usize, v: int)
    ensures
        occurrences(s.push(x), v) == occurrences(s, v) + if x == v {
            1int
        } else {
            0int
        },
{
    assert(s.push(x).drop_last() =~= s);
}

proof fn lemma_occurrences_bounds(s: Seq<usize>, v: int)
    ensures
        0 <= occurrences(s, v) <= s.len(),
        occurrences(s, v) > 0 ==> exists|j: int| 0 <= j < s.len() && s[j] == v,
    decreases s.len(),
{
    if s.len() > 0 {
        lemma_occurrences_bounds(s.drop_last(), v);
        if occurrences(s.drop_last(), v) > 0 {
            let j = choose|j: int| 0 <= j < s.drop_last().len() && s.drop_last()[j] == v;
            assert(s[j] == v);
        }
    }
}

proof fn lemma_occurrences_empty(s: Seq<usize>, v: int)
    requires
        s.len() == 0,
    ensures
        occurrences(s, v) == 0,
{
}

proof fn lemma_power_one(k: nat)
    ensures
        power(1, k) == 1,
    decreases k,
{
    if k > 0 {
        lemma_power_one((k - 1) as nat);
    }
}

proof fn lemma_power_base_mono(a: int, b: int, e: nat)
    requires
        1 <= a <= b,
    ensures
        power(a, e) <= power(b, e),
    decreases e,
{
    if e > 0 {
        lemma_power_base_mono(a, b, (e - 1) as nat);
        lemma_pow_pos(a, (e - 1) as nat);
        assert(a * power(a, (e - 1) as nat) <= b * power(b, (e - 1) as nat)) by (nonlinear_arith)
            requires
                1 <= a <= b,
                1 <= power(a, (e - 1) as nat) <= power(b, (e - 1) as nat),
        ;
    }
}

/// With at least two words and at most `2^22` of them, the alphabet has at least two
/// letters and words are at most 22 letters long.
proof fn lemma_small_universe(n: int, k: nat)
    requires
        n >= 1,
        2 <= power(n, k) <= 4194304,
    ensures
        n >= 2,
        k <= 22,
{
    if n == 1 {
        lemma_power_one(k);
    }
    if k >= 23 {
        lemma_power_increases(n, 23, k);
        lemma_power_base_mono(2, n, 23);
        reveal_with_fuel(power, 24);
        assert(power(2, 23) == 8388608);
    }
}

/// An overlap of two chosen words is excluded, whatever else is chosen besides.
proof fn lemma_excluded_witness(sel: Seq<bool>, a: int, b: int, r: int, n: int, k: int)
    requires
        0 <= a < sel.len(),
        0 <= b < sel.len(),
        1 <= r < k,
        sel[a],
        sel[b],
    ensures
        excluded(sel, overlap(a, b, r, n, k), n, k),
{
}

proof fn lemma_excluded_mono(s: Seq<bool>, t: Seq<bool>, o: int, n: int, k: int)
    requires
        s.len() == t.len(),
        forall|j: int| 0 <= j < s.len() && s[j] ==> t[j],
        excluded(s, o, n, k),
    ensures
        excluded(t, o, n, k),
{
    let (a, b, r) = choose|a: int, b: int, r: int|
        #![trigger overlap(a, b, r, n, k)]
        0 <= a < s.len() && 0 <= b < s.len() && 1 <= r < k && s[a] && s[b] && overlap(a, b, r, n, k)
            == o;
    lemma_excluded_witness(t, a, b, r, n, k);
}

/// If a word is an overlap of two chosen words, no separator-free selection that
/// agrees below it with the chosen ones can hold it.
proof fn lemma_excluded_blocks(base: Seq<bool>, sel: Seq<bool>, idx: int, n: int, k: int)
    requires
        sel.len() == base.len(),
        0 <= idx < sel.len(),
        forall|j: int| 0 <= j < idx ==> sel[j] == base[j],
        forall|j: int| idx <= j < base.len() ==> !base[j],
        excluded(base, idx, n, k),
        sel[idx],
    ensures
        !separator_free(sel, n, k),
{
    let (a, b, r) = choose|a: int, b: int, r: int|
        #![trigger overlap(a, b, r, n, k)]
        0 <= a < base.len() && 0 <= b < base.len() && 1 <= r < k && base[a] && base[b] && overlap(
            a,
            b,
            r,
            n,
            k,
        ) == idx;
    lemma_not_free(sel, a, b, r, n, k);
}

/// A violation among the words chosen up to `idx` stays a violation in every
/// selection that agrees with them up to `idx`.
proof fn lemma_violation_persists(base: Seq<bool>, sel: Seq<bool>, idx: int, n: int, k: int)
    requires
        1 <= n <= usize::MAX,
        sel.len() == base.len() == power(n, k as nat),
        0 <= idx < sel.len(),
        forall|j: int| 0 <= j <= idx ==> sel[j] == base[j],
        forall|j: int| idx < j < base.len() ==> !base[j],
        !separator_free(base, n, k),
    ensures
        !separator_free(sel, n, k),
{
    let (a, b, r) = choose|a: int, b: int, r: int|
        #![trigger overlap(a, b, r, n, k)]
        !(0 <= a < base.len() && 0 <= b < base.len() && 1 <= r < k && base[a] && base[b] ==> !base[overlap(
            a,
            b,
            r,
            n,
            k,
        )]);
    lemma_overlap_range(a, b, r, n, k);
    lemma_not_free(sel, a, b, r, n, k);
}

/// `sel` is a selection of as many words as `base` that agrees with it below `idx`.
spec fn extends(sel: Seq<bool>, base: Seq<bool>, idx: int) -> bool {
    sel.len() == base.len() && forall|j: int| 0 <= j < idx ==> sel[j] == base[j]
}

/// What the search keeps while it stands at word `idx`: the chosen words are listed in
/// `cur`, lie below `idx` and are separator-free; a word from `idx` on with a positive
/// exclusion count is an overlap of two chosen words.
spec fn search_state(
    idx: int,
    n: int,
    k: int,
    total: int,
    cur: Seq<usize>,
    in_set: Seq<bool>,
    exclude_count: Seq<u64>,
) -> bool {
    &&& 1 <= n <= usize::MAX
    &&& k >= 1
    &&& total == power(n, k as nat) <= 4194304
    &&& 0 <= idx <= total
    &&& in_set.len() == total
    &&& exclude_count.len() == total
    &&& forall|j: int| idx <= j < total ==> !in_set[j]
    &&& forall|i: int| 0 <= i < cur.len() ==> #[trigger] cur[i] < idx && in_set[cur[i] as int]
    &&& forall|j: int| 0 <= j < total && #[trigger] in_set[j] ==> cur.contains(j as usize)
    &&& cur.len() == count_chosen(in_set)
    &&& separator_free(in_set, n, k)
    &&& forall|o: int| idx <= o < total && #[trigger] exclude_count[o] > 0 ==> excluded(in_set, o, n, k)
    &&& forall|o: int| 0 <= o < total ==> #[trigger] exclude_count[o] <= idx * 44 * total
}

/// Moving on to the next word without choosing keeps the search state.
proof fn lemma_state_skip(
    idx: int,
    n: int,
    k: int,
    total: int,
    cur: Seq<usize>,
    in_set: Seq<bool>,
    exclude_count: Seq<u64>,
)
    requires
        search_state(idx, n, k, total, cur, in_set, exclude_count),
        idx < total,
    ensures
        search_state(idx + 1, n, k, total, cur, in_set, exclude_count),
{
    assert(idx * 44 * total <= (idx + 1) * 44 * total) by (nonlinear_arith)
        requires
            0 <= idx,
            0 <= total,
    ;
}

/// Branch and bound over the words in increasing order: each word from `idx` on is
/// left out, or taken when it keeps the chosen words separator-free. `best` rises to
/// the largest separator-free selection that agrees with the chosen words below `idx`,
/// where that beats it.
fn dfs(
    idx: usize,
    n: usize,
    k: usize,
    total: usize,
    cur: &mut Vec<usize>,
    in_set: &mut Vec<bool>,
    exclude_count: &mut Vec<u64>,
    best: &mut usize,
)
    requires
        search_state(
            idx as int,
            n as int,
            k as int,
            total as int,
            old(cur)@,
            old(in_set)@,
            old(exclude_count)@,
        ),
    ensures
        final(cur)@ == old(cur)@,
        final(in_set)@ == old(in_set)@,
        final(exclude_count)@ == old(exclude_count)@,
        *final(best) >= *old(best),
        *final(best) == *old(best) || exists|sel: Seq<bool>|
            extends(sel, old(in_set)@, idx as int) && #[trigger] separator_free(sel, n as int, k as int)
                && count_chosen(sel) == *final(best),
        forall|sel: Seq<bool>|
            extends(sel, old(in_set)@, idx as int) && #[trigger] separator_free(sel, n as int, k as int)
                ==> count_chosen(sel) <= *final(best),
    decreases total - idx,
{
    let ghost nn = n as int;
    let ghost kk = k as int;
    let ghost base = in_set@;
    let ghost base_cur = cur@;
    let ghost base_ex = exclude_count@;
    let cur_len = cur.len();
    proof {
        lemma_count_bounds(base);
    }
    if cur_len + (total - idx) <= *best {
        proof {
            assert forall|sel: Seq<bool>|
                extends(sel, base, idx as int) && #[trigger] separator_free(sel, nn, kk) implies count_chosen(sel)
                <= *best by {
                lemma_count_extension(sel, base, idx as int);
            }
        }
        return;
    }
    if idx == total {
        if cur_len > *best {
            *best = cur_len;
            proof {
                assert(extends(base, base, idx as int));
            }
        }
        proof {
            assert forall|sel: Seq<bool>|
                extends(sel, base, idx as int) && #[trigger] separator_free(sel, nn, kk) implies count_chosen(sel)
                <= *best by {
                assert(sel =~= base);
            }
        }
        return;
    }
    proof {
        lemma_state_skip(idx as int, nn, kk, total as int, base_cur, base, base_ex);
    }
    if exclude_count[idx] > 0 {
        dfs(idx + 1, n, k, total, cur, in_set, exclude_count, best);
        proof {
            assert forall|sel: Seq<bool>|
                extends(sel, base, idx as int) && #[trigger] separator_free(sel, nn, kk) implies count_chosen(sel)
                <= *best by {
                if sel[idx as int] {
                    lemma_excluded_blocks(base, sel, idx as int, nn, kk);
                }
                assert(extends(sel, base, idx + 1));
            }
        }
        return;
    }
    // leave word `idx` out
    dfs(idx + 1, n, k, total, cur, in_set, exclude_count, best);
    let ghost best_skip = *best;

    // take word `idx`
    cur.push(idx);
    in_set.set(idx, true);
    let ghost new_sel = in_set@;
    proof {
        assert(base =~= new_sel.update(idx as int, false));
        lemma_count_set(base, idx as int);
        lemma_count_bounds(new_sel);
        assert forall|j: int| 0 <= j < total && #[trigger] new_sel[j] implies cur@.contains(j as usize) by {
            if j == idx {
                assert(cur@[cur@.len() - 1] == idx);
            } else {
                assert(base[j]);
                let t = choose|t: int| 0 <= t < base_cur.len() && base_cur[t] == j as usize;
                assert(cur@[t] == j as usize);
            }
        }
    }
    let valid = extension_is_valid(idx, n, k, cur, in_set);
    if valid {
        let ghost new_cur = cur@;
        let mut stack: Vec<usize> = Vec::new();
        let mut i: usize = 0;
        while i < cur.len()
            invariant
                i <= cur.len(),
                cur@ == new_cur,
                in_set@ == new_sel,
                nn == n,
                kk == k,
                search_state(idx as int, nn, kk, total as int, base_cur, base, base_ex),
                new_cur.len() == base_cur.len() + 1,
                new_cur.len() <= total,
                new_sel.len() == total,
                idx < total,
                new_sel[idx as int],
                forall|i2: int| 0 <= i2 < new_cur.len() ==> #[trigger] new_cur[i2] < total && new_sel[new_cur[i2] as int],
                exclude_count.len() == total,
                forall|o: int| 0 <= o < total ==> #[trigger] exclude_count[o] == base_ex[o] + occurrences(stack@, o),
                forall|j: int|
                    0 <= j < stack.len() ==> idx < #[trigger] stack[j] < total && excluded(new_sel, stack[j] as int, nn, kk),
                stack.len() <= i * (kk - 1),
            decreases cur.len() - i,
        {
            let y = cur[i];
            let ov = overlap_ids(idx, y, n, k);
            let mut j: usize = 0;
            while j < ov.len()
                invariant
                    j <= ov.len(),
                    ov.len() == k - 1,
                    i < cur.len(),
                    y == cur[i as int],
                    cur@ == new_cur,
                    in_set@ == new_sel,
                    nn == n,
                    kk == k,
                    search_state(idx as int, nn, kk, total as int, base_cur, base, base_ex),
                    new_cur.len() == base_cur.len() + 1,
                    new_cur.len() <= total,
                    new_sel.len() == total,
                    idx < total,
                    y < total,
                    new_sel[y as int],
                    new_sel[idx as int],
                    forall|r: int| 1 <= r < kk ==> #[trigger] ov[r - 1] == overlap(idx as int, y as int, r, nn, kk),
                    forall|r: int| 1 <= r < kk ==> #[trigger] ov[r - 1] < total,
                    exclude_count.len() == total,
                    forall|o: int| 0 <= o < total ==> #[trigger] exclude_count[o] == base_ex[o] + occurrences(stack@, o),
                    forall|j2: int|
                        0 <= j2 < stack.len() ==> idx < #[trigger] stack[j2] < total && excluded(
                            new_sel,
                            stack[j2] as int,
                            nn,
                            kk,
                        ),
                    stack.len() <= i * (kk - 1) + j,
                decreases ov.len() - j,
            {
                let o = ov[j];
                assert(ov[(j + 1) - 1] == overlap(idx as int, y as int, j + 1, nn, kk));
                assert(ov[(j + 1) - 1] < total);
                if o > idx {
                    proof {
                        lemma_small_universe(nn, k as nat);
                        lemma_count_bounds(base);
                        lemma_occurrences_bounds(stack@, o as int);
                        assert(base_ex[o as int] <= idx * 44 * total);
                        assert(stack.len() + 1 <= 44 * total) by (nonlinear_arith)
                            requires
                                stack.len() <= i * (kk - 1) + j,
                                i + 1 <= new_cur.len() <= total,
                                j + 1 <= kk - 1,
                                kk <= 22,
                        ;
                        assert(idx * 44 * total + 44 * total <= 44 * 4194304 * 4194304) by (nonlinear_arith)
                            requires
                                idx < total <= 4194304,
                        ;
                    }
                    exclude_count.set(o, exclude_count[o] + 1);
                    proof {
                        lemma_occurrences_push(stack@, o, o as int);
                        assert forall|o2: int| 0 <= o2 < total implies #[trigger] exclude_count[o2] == base_ex[o2]
                            + occurrences(stack@.push(o), o2) by {
                            lemma_occurrences_push(stack@, o, o2);
                        }
                        lemma_excluded_witness(new_sel, idx as int, y as int, j + 1, nn, kk);
                    }
                    stack.push(o);
                }
                j = j + 1;
            }
            assert(i * (kk - 1) + (kk - 1) == (i + 1) * (kk - 1)) by (nonlinear_arith);
            i = i + 1;
        }
        let mut i: usize = 0;
        while i < cur.len()
            invariant
                i <= cur.len(),
                cur@ == new_cur,
                in_set@ == new_sel,
                nn == n,
                kk == k,
                search_state(idx as int, nn, kk, total as int, base_cur, base, base_ex),
                new_cur.len() == base_cur.len() + 1,
                new_cur.len() <= total,
                new_sel.len() == total,
                idx < total,
                new_sel[idx as int],
                forall|i2: int| 0 <= i2 < new_cur.len() ==> #[trigger] new_cur[i2] < total && new_sel[new_cur[i2] as int],
                exclude_count.len() == total,
                forall|o: int| 0 <= o < total ==> #[trigger] exclude_count[o] == base_ex[o] + occurrences(stack@, o),
                forall|j: int|
                    0 <= j < stack.len() ==> idx < #[trigger] stack[j] < total && excluded(new_sel, stack[j] as int, nn, kk),
                stack.len() <= new_cur.len() * (kk - 1) + i * (kk - 1),
            decreases cur.len() - i,
        {
            let x = cur[i];
            if x != idx {
                let ov = overlap_ids(x, idx, n, k);
                let mut j: usize = 0;
                while j < ov.len()
                    invariant
                        j <= ov.len(),
                        ov.len() == k - 1,
                        i < cur.len(),
                        x == cur[i as int],
                        cur@ == new_cur,
                        in_set@ == new_sel,
                        nn == n,
                        kk == k,
                        search_state(idx as int, nn, kk, total as int, base_cur, base, base_ex),
                        new_cur.len() == base_cur.len() + 1,
                        new_cur.len() <= total,
                        new_sel.len() == total,
                        idx < total,
                        x < total,
                        new_sel[x as int],
                        new_sel[idx as int],
                        forall|r: int| 1 <= r < kk ==> #[trigger] ov[r - 1] == overlap(x as int, idx as int, r, nn, kk),
                        forall|r: int| 1 <= r < kk ==> #[trigger] ov[r - 1] < total,
                        exclude_count.len() == total,
                        forall|o: int|
                            0 <= o < total ==> #[trigger] exclude_count[o] == base_ex[o] + occurrences(stack@, o),
                        forall|j2: int|
                            0 <= j2 < stack.len() ==> idx < #[trigger] stack[j2] < total && excluded(
                                new_sel,
                                stack[j2] as int,
                                nn,
                                kk,
                            ),
                        stack.len() <= new_cur.len() * (kk - 1) + i * (kk - 1) + j,
                    decreases ov.len() - j,
                {
                    let o = ov[j];
                    assert(ov[(j + 1) - 1] == overlap(x as int, idx as int, j + 1, nn, kk));
                    assert(ov[(j + 1) - 1] < total);
                    if o > idx {
                        proof {
                            lemma_small_universe(nn, k as nat);
                            lemma_count_bounds(base);
                            lemma_occurrences_bounds(stack@, o as int);
                            assert(base_ex[o as int] <= idx * 44 * total);
                            assert(stack.len() + 1 <= 44 * total) by (nonlinear_arith)
                                requires
                                    stack.len() <= new_cur.len() * (kk - 1) + i * (kk - 1) + j,
                                    i + 1 <= new_cur.len() <= total,
                                    j + 1 <= kk - 1,
                                    kk <= 22,
                            ;
                            assert(idx * 44 * total + 44 * total <= 44 * 4194304 * 4194304) by (nonlinear_arith)
                                requires
                                    idx < total <= 4194304,
                            ;
                        }
                        exclude_count.set(o, exclude_count[o] + 1);
                        proof {
                            assert forall|o2: int| 0 <= o2 < total implies #[trigger] exclude_count[o2]
                                == base_ex[o2] + occurrences(stack@.push(o), o2) by {
                                lemma_occurrences_push(stack@, o, o2);
                            }
                            lemma_excluded_witness(new_sel, x as int, idx as int, j + 1, nn, kk);
                        }
                        stack.push(o);
                    }
                    j = j + 1;
                }
            }
            assert(i * (kk - 1) + (kk - 1) == (i + 1) * (kk - 1)) by (nonlinear_arith);
            assert(kk - 1 >= 0);
            i = i + 1;
        }
        proof {
            assert forall|o: int| idx + 1 <= o < total && #[trigger] exclude_count[o] > 0 implies excluded(
                new_sel,
                o,
                nn,
                kk,
            ) by {
                if base_ex[o] > 0 {
                    lemma_excluded_mono(base, new_sel, o, nn, kk);
                } else {
                    lemma_occurrences_bounds(stack@, o);
                    let j = choose|j: int| 0 <= j < stack.len() && stack@[j] == o;
                    assert(stack[j] == o);
                }
            }
            assert forall|o: int| 0 <= o < total implies #[trigger] exclude_count[o] <= (idx + 1) * 44 * total by {
                lemma_occurrences_bounds(stack@, o);
                if occurrences(stack@, o) > 0 {
                    let j = choose|j: int| 0 <= j < stack.len() && stack@[j] == o;
                    assert(stack[j] == o);
                    lemma_small_universe(nn, k as nat);
                    lemma_count_bounds(base);
                    assert(stack.len() <= 44 * total) by (nonlinear_arith)
                        requires
                            stack.len() <= new_cur.len() * (kk - 1) + new_cur.len() * (kk - 1),
                            new_cur.len() <= total,
                            kk <= 22,
                    ;
                }
                assert(idx * 44 * total + 44 * total == (idx + 1) * 44 * total) by (nonlinear_arith);
            }
        }
        dfs(idx + 1, n, k, total, cur, in_set, exclude_count, best);
        while stack.len() > 0
            invariant
                exclude_count.len() == total,
                forall|o: int| 0 <= o < total ==> #[trigger] exclude_count[o] == base_ex[o] + occurrences(stack@, o),
                forall|j: int| 0 <= j < stack.len() ==> #[trigger] stack[j] < total,
            decreases stack.len(),
        {
            let o = stack.pop().unwrap();
            proof {
                lemma_occurrences_push(stack@, o, o as int);
                lemma_occurrences_bounds(stack@, o as int);
                assert forall|o2: int| 0 <= o2 < total implies #[trigger] exclude_count[o2] == base_ex[o2]
                    + occurrences(stack@, o2) + if o2 == o {
                    1int
                } else {
                    0int
                } by {
                    lemma_occurrences_push(stack@, o, o2);
                }
            }
            exclude_count.set(o, exclude_count[o] - 1);
        }
        proof {
            assert forall|o: int| 0 <= o < total implies #[trigger] exclude_count[o] == base_ex[o] by {
                lemma_occurrences_empty(stack@, o);
            }
            assert(exclude_count@ =~= base_ex);
        }
    }
    in_set.set(idx, false);
    cur.pop();
    proof {
        assert(in_set@ =~= base);
        assert(cur@ =~= base_cur);
        assert forall|sel: Seq<bool>|
            extends(sel, base, idx as int) && #[trigger] separator_free(sel, nn, kk) implies count_chosen(sel)
            <= *best by {
            if sel[idx as int] {
                if !valid {
                    lemma_violation_persists(new_sel, sel, idx as int, nn, kk);
                }
                assert(extends(sel, new_sel, idx + 1));
            } else {
                assert(extends(sel, base, idx + 1));
            }
        }
    }
}

/// The largest number of words (`2^22`) for which [`max_sfd_size`] searches.
pub const MAX_SEPARATOR_SEARCH_STATES: usize = 4194304;

/// The largest size of a separator-free dictionary of words of length `str_len` over
/// an alphabet of `alphabet_size` letters; `0` when either is `0`.
///
/// A dictionary is separator-free when, for every ordered pair `(a, b)` of its words
/// (`a == b` included), none of the `str_len - 1` overlaps (a suffix of `a` followed by
/// a prefix of `b`, of total length `str_len`) is in the dictionary. The search runs
/// over at most [`MAX_SEPARATOR_SEARCH_STATES`] words.
pub fn max_sfd_size(alphabet_size: usize, str_len: usize) -> (best: usize)
    requires
        alphabet_size == 0 || str_len == 0 || power(alphabet_size as int, str_len as nat)
            <= MAX_SEPARATOR_SEARCH_STATES,
    ensures
        alphabet_size == 0 || str_len == 0 ==> best == 0,
        alphabet_size >= 1 && str_len >= 1 ==> is_max_dictionary_size(
            alphabet_size as int,
            str_len as int,
            best as int,
        ),
{
    let n = alphabet_size;
    let k = str_len;
    if n == 0 || k == 0 {
        return 0;
    }
    let ghost nn = n as int;
    let ghost kk = k as int;
    let mut total: usize = 1;
    if n == 1 {
        proof {
            lemma_power_one(k as nat);
        }
    } else {
        let mut i: usize = 0;
        while i < k
            invariant
                i <= k,
                n == nn >= 2,
                total == power(nn, i as nat),
                power(nn, k as nat) <= MAX_SEPARATOR_SEARCH_STATES,
            decreases k - i,
        {
            proof {
                lemma_power_increases(nn, (i + 1) as nat, k as nat);
                assert(power(nn, (i + 1) as nat) == nn * power(nn, i as nat));
                assert(total * n == nn * power(nn, i as nat)) by (nonlinear_arith)
                    requires
                        total == power(nn, i as nat),
                        n == nn,
                ;
            }
            total = total * n;
            i = i + 1;
        }
    }
    let mut exclude_count: Vec<u64> = vec![0u64; total];
    let mut in_set: Vec<bool> = vec![false; total];
    let mut cur: Vec<usize> = Vec::new();
    let mut best: usize = 0;
    proof {
        lemma_count_none(in_set@);
    }
    dfs(0, n, k, total, &mut cur, &mut in_set, &mut exclude_count, &mut best);
    proof {
        let none = in_set@;
        assert(extends(none, in_set@, 0));
        assert forall|sel: Seq<bool>| #[trigger] is_dictionary(sel, nn, kk) implies count_chosen(sel) <= best by {
            assert(extends(sel, in_set@, 0));
        }
        if best == 0 {
            assert(is_dictionary(none, nn, kk));
        } else {
            let sel = choose|sel: Seq<bool>|
                extends(sel, none, 0) && #[trigger] separator_free(sel, nn, kk) && count_chosen(sel) == best;
            assert(is_dictionary(sel, nn, kk));
        }
    }
    best
}

} // verus!
