//! Numbering the strictly increasing strings of lowercase letters: all strings of one
//! length come before the longer ones, and strings of one length are in dictionary
//! order (`a`, `b`, ..., `z`, `ab`, `ac`, ...). Letters are numbered 1 (`a`) to 26 (`z`).
use vstd::prelude::*;
use vstd::string::StringSliceAdditionalSpecFns;

verus! {

/// The longest string the table covers.
pub const LENGTH_MAX: usize = 6;

/// The strictly increasing strings of `i` letters whose first letter is `j`.
pub open spec fn count_from(i: int, j: int) -> int
    decreases i, 27 - j, 0int,
{
    if i <= 0 || j < 1 || j > 26 {
        0
    } else if i == 1 {
        1
    } else {
        count_from_at_least(i - 1, j + 1)
    }
}

/// The strictly increasing strings of `i` letters whose first letter is `j` or later.
pub open spec fn count_from_at_least(i: int, j: int) -> int
    decreases i, 27 - j, 1int,
{
    if j > 26 || i <= 0 {
        0
    } else if j < 1 {
        count_from_at_least(i, 1)
    } else {
        count_from(i, j) + count_from_at_least(i, j + 1)
    }
}

/// The strictly increasing strings of `i` letters whose first letter is at most `j`.
pub open spec fn count_up_to(i: int, j: int) -> int
    decreases j,
{
    if j <= 0 {
        0
    } else {
        count_up_to(i, j - 1) + count_from(i, j)
    }
}

/// The table of [`gen_pre`]: `LENGTH_MAX + 1` rows of 27 entries, entry `[i][j]` being
/// `count_up_to(i, j)`.
pub open spec fn is_pre_table(t: Seq<Vec<usize>>) -> bool {
    &&& t.len() == LENGTH_MAX + 1
    &&& forall|i: int| 0 <= i <= LENGTH_MAX ==> (#[trigger] t[i]).len() == 27
    &&& forall|i: int, j: int| 0 <= i <= LENGTH_MAX && 0 <= j <= 26 ==> #[trigger] t[i][j] == count_up_to(i, j)
}

/// A letter's number: 1 for `a` up to 26 for `z`.
pub open spec fn letter(b: u8) -> int {
    b - 97 + 1
}

/// `s` is a strictly increasing string of lowercase letters.
pub open spec fn increasing_word(s: Seq<u8>) -> bool {
    &&& forall|p: int| 0 <= p < s.len() ==> 97 <= #[trigger] s[p] <= 122
    &&& forall|p: int, q: int| 0 <= p < q < s.len() ==> #[trigger] s[p] < #[trigger] s[q]
}

/// The strings shorter than `len` letters.
pub open spec fn shorter_than(len: int) -> int
    decreases len,
{
    if len <= 1 {
        0
    } else {
        shorter_than(len - 1) + count_up_to(len - 1, 26)
    }
}

/// The strings of `s.len()` letters that agree with `s` before position `p` and have a
/// smaller letter at `p`, summed over the positions before `upto`.
pub open spec fn earlier_same_length(s: Seq<u8>, upto: int) -> int
    decreases upto,
{
    if upto <= 0 {
        0
    } else {
        let p = upto - 1;
        let low = if p == 0 {
            1
        } else {
            letter(s[p - 1]) + 1
        };
        earlier_same_length(s, p) + count_up_to(s.len() - p, letter(s[p]) - 1) - count_up_to(s.len() - p, low - 1)
    }
}

/// The character codes of `s`.
pub open spec fn codes(s: Seq<char>) -> Seq<u8> {
    Seq::new(s.len(), |i: int| s[i] as u8)
}

/// `s` is a strictly increasing string of the letters `a` to `z`.
pub open spec fn increasing_letters(s: Seq<char>) -> bool {
    &&& forall|p: int| 0 <= p < s.len() ==> 97 <= #[trigger] (s[p] as int) <= 122
    &&& forall|p: int, q: int| 0 <= p < q < s.len() ==> #[trigger] (s[p] as int) < #[trigger] (s[q] as int)
}

/// The number of `s` in the order: one more than the strings shorter than it and the
/// strings of its length that come before it in dictionary order.
pub open spec fn word_number(s: Seq<u8>) -> int {
    1 + shorter_than(s.len() as int) + earlier_same_length(s, s.len() as int)
}

/// `26^e`.
spec fn pow26(e: int) -> int
    decreases e,
{
    if e <= 0 {
        1
    } else {
        26 * pow26(e - 1)
    }
}

proof fn lemma_counts_bounded(i: int, j: int)
    requires
        1 <= i,
    ensures
        0 <= count_from(i, j) <= pow26(i - 1),
        0 <= count_from_at_least(i, j) <= 26 * pow26(i - 1),
        j >= 1 ==> count_from_at_least(i, j) <= (if j > 26 {
            0
        } else {
            27 - j
        }) * pow26(i - 1),
    decreases i, 27 - j,
{
    if j > 26 {
        if i > 1 {
            lemma_counts_bounded(i - 1, 1);
        }
    } else if j < 1 {
        lemma_counts_bounded(i, 1);
    } else {
        lemma_counts_bounded(i, j + 1);
        if i > 1 {
            lemma_counts_bounded(i - 1, j + 1);
            assert(pow26(i - 1) == 26 * pow26(i - 2));
        }
        let p = pow26(i - 1);
        assert(p >= 1) by {
            lemma_pow26_pos(i - 1);
        }
        let c = if j + 1 > 26 {
            0
        } else {
            27 - (j + 1)
        };
        assert(p + c * p == (27 - j) * p) by (nonlinear_arith)
            requires
                c == 26 - j || (j == 26 && c == 0),
        ;
        assert((27 - j) * p <= 26 * p) by (nonlinear_arith)
            requires
                j >= 1,
                p >= 1,
        ;
    }
}

proof fn lemma_pow26_pos(e: int)
    ensures
        pow26(e) >= 1,
    decreases e,
{
    if e > 0 {
        lemma_pow26_pos(e - 1);
    }
}

proof fn lemma_count_up_to_bounded(i: int, j: int)
    requires
        1 <= i,
        0 <= j <= 26,
    ensures
        0 <= count_up_to(i, j) <= j * pow26(i - 1),
    decreases j,
{
    if j == 0 {
        assert(0 * pow26(i - 1) == 0) by (nonlinear_arith);
    } else {
        lemma_count_up_to_bounded(i, j - 1);
        lemma_counts_bounded(i, j);
        let q = pow26(i - 1);
        assert((j - 1) * q + q == j * q) by (nonlinear_arith);
        assert(count_up_to(i, j) == count_up_to(i, j - 1) + count_from(i, j));
    }
}

proof fn lemma_count_up_to_mono(i: int, a: int, b: int)
    requires
        a <= b,
    ensures
        count_up_to(i, a) <= count_up_to(i, b),
    decreases b - a,
{
    if a < b {
        lemma_count_up_to_mono(i, a, b - 1);
        if b > 0 {
            if i >= 1 {
                lemma_counts_bounded(i, b);
            }
        }
    }
}

/// The largest entry of the table is below 2^32.
proof fn lemma_table_bounded(i: int, j: int)
    requires
        0 <= i <= LENGTH_MAX,
        0 <= j <= 26,
    ensures
        0 <= count_up_to(i, j) <= 308915776,
        0 <= count_from(i, j),
{
    if i == 0 {
        lemma_count_up_to_zero_length(j);
    } else {
        lemma_count_up_to_bounded(i, j);
        lemma_counts_bounded(i, j);
        assert(pow26(0) == 1);
        assert(pow26(5) == 11881376) by {
            reveal_with_fuel(pow26, 6);
        }
        lemma_pow26_mono(i - 1, 5);
        assert(j * pow26(i - 1) <= 26 * 11881376) by (nonlinear_arith)
            requires
                0 <= j <= 26,
                0 <= pow26(i - 1) <= 11881376,
        ;
    }
}

proof fn lemma_pow26_mono(a: int, b: int)
    requires
        0 <= a <= b,
    ensures
        pow26(a) <= pow26(b),
    decreases b - a,
{
    if a < b {
        lemma_pow26_mono(a, b - 1);
        lemma_pow26_pos(b - 1);
    }
}

proof fn lemma_count_up_to_zero_length(j: int)
    ensures
        count_up_to(0, j) == 0,
    decreases j,
{
    if j > 0 {
        lemma_count_up_to_zero_length(j - 1);
    }
}

/// The table of counts by length and first letter: entry `[i][j]` is the number of
/// strictly increasing strings of `i` letters whose first letter is at most the
/// `j`-th (`[0][*]` and `[*][0]` are zero).
pub fn gen_pre() -> (pre: Vec<Vec<usize>>)
    ensures
        is_pre_table(pre@),
{
    // dp[i][j]: strings of i letters starting with letter j.
    let mut dp: Vec<Vec<usize>> = Vec::new();
    let mut i: usize = 0;
    while i <= LENGTH_MAX
        invariant
            i <= LENGTH_MAX + 1,
            dp.len() == i,
            forall|a: int| 0 <= a < i ==> (#[trigger] dp[a]).len() == 27,
            forall|a: int, b: int| 0 <= a < i && 0 <= b < 27 ==> #[trigger] dp[a][b] == count_from(a, b),
        decreases LENGTH_MAX + 1 - i,
    {
        let mut row: Vec<usize> = Vec::new();
        let mut j: usize = 0;
        while j < 27
            invariant
                1 <= i <= LENGTH_MAX || i == 0,
                dp.len() == i,
                forall|a: int| 0 <= a < i ==> (#[trigger] dp[a]).len() == 27,
                forall|a: int, b: int| 0 <= a < i && 0 <= b < 27 ==> #[trigger] dp[a][b] == count_from(a, b),
                j <= 27,
                row.len() == j,
                forall|b: int| 0 <= b < j ==> #[trigger] row[b] == count_from(i as int, b),
            decreases 27 - j,
        {
            let mut value: usize = 0;
            if i == 1 && j >= 1 {
                value = 1;
            } else if i >= 2 && 1 <= j && j <= 25 {
                // The strings of i - 1 letters starting after letter j.
                let prev = &dp[i - 1];
                let mut k: usize = j + 1;
                proof {
                    lemma_table_bounded((i - 1) as int, 26);
                }
                while k < 27
                    invariant
                        2 <= i <= LENGTH_MAX,
                        1 <= j <= 25,
                        j + 1 <= k <= 27,
                        prev@.len() == 27,
                        forall|b: int| 0 <= b < 27 ==> #[trigger] prev@[b] == count_from(i - 1, b),
                        count_from_at_least(i - 1, j + 1) == value + count_from_at_least(i - 1, k as int),
                        value <= count_up_to(i - 1, k - 1) - count_up_to(i - 1, j as int),
                    decreases 27 - k,
                {
                    proof {
                        lemma_table_bounded((i - 1) as int, k as int);
                        lemma_table_bounded((i - 1) as int, j as int);
                        lemma_count_up_to_mono((i - 1) as int, k as int, 26);
                        lemma_count_up_to_mono((i - 1) as int, j as int, k - 1);
                    }
                    value = value + prev[k];
                    k = k + 1;
                }
            }
            proof {
                if i >= 2 && 1 <= j <= 25 {
                    assert(count_from(i as int, j as int) == count_from_at_least(i - 1, j + 1));
                } else if i >= 2 && j == 26 {
                    assert(count_from_at_least(i - 1, 27) == 0);
                }
            }
            row.push(value);
            j = j + 1;
        }
        dp.push(row);
        i = i + 1;
    }
    // pre[i][j]: strings of i letters starting with a letter at most j.
    let mut pre: Vec<Vec<usize>> = Vec::new();
    let mut i: usize = 0;
    while i <= LENGTH_MAX
        invariant
            i <= LENGTH_MAX + 1,
            dp.len() == LENGTH_MAX + 1,
            forall|a: int| 0 <= a <= LENGTH_MAX ==> (#[trigger] dp[a]).len() == 27,
            forall|a: int, b: int| 0 <= a <= LENGTH_MAX && 0 <= b < 27 ==> #[trigger] dp[a][b] == count_from(a, b),
            pre.len() == i,
            forall|a: int| 0 <= a < i ==> (#[trigger] pre[a]).len() == 27,
            forall|a: int, b: int| 0 <= a < i && 0 <= b < 27 ==> #[trigger] pre[a][b] == count_up_to(a, b),
        decreases LENGTH_MAX + 1 - i,
    {
        let mut row: Vec<usize> = Vec::new();
        row.push(0);
        let mut j: usize = 1;
        while j < 27
            invariant
                i <= LENGTH_MAX,
                dp.len() == LENGTH_MAX + 1,
                forall|a: int| 0 <= a <= LENGTH_MAX ==> (#[trigger] dp[a]).len() == 27,
                forall|a: int, b: int| 0 <= a <= LENGTH_MAX && 0 <= b < 27 ==> #[trigger] dp[a][b] == count_from(a, b),
                1 <= j <= 27,
                row.len() == j,
                forall|b: int| 0 <= b < j ==> #[trigger] row[b] == count_up_to(i as int, b),
            decreases 27 - j,
        {
            proof {
                lemma_table_bounded(i as int, j as int);
            }
            let value = row[j - 1] + dp[i][j];
            row.push(value);
            j = j + 1;
        }
        pre.push(row);
        i = i + 1;
    }
    pre
}

/// The number of `string` in the order (1 for `a`), from the table of [`gen_pre`].
pub fn solve(dp: &[Vec<usize>], string: String) -> (r: usize)
    requires
        is_pre_table(dp@),
        string@.len() <= LENGTH_MAX,
        increasing_letters(string@),
    ensures
        r == word_number(codes(string@)),
{
    let st = string.as_str();
    let bytes = st.as_bytes();
    let ghost s = codes(string@);
    proof {
        broadcast use vstd::string::is_ascii_spec_bytes;
        assert forall|i: int| 0 <= i < st@.len() implies '\0' <= #[trigger] st@[i] <= '\u{7f}' by {
            assert(97 <= (string@[i] as int) <= 122);
        }
        assert(vstd::string::is_ascii(st));
        assert(st.spec_bytes() =~= s);
        assert forall|p: int| 0 <= p < s.len() implies 97 <= #[trigger] s[p] <= 122 by {
            assert(97 <= (string@[p] as int) <= 122);
        }
        assert forall|p: int, q: int| 0 <= p < q < s.len() implies #[trigger] s[p] < #[trigger] s[q] by {
            assert((string@[p] as int) < (string@[q] as int));
            assert(97 <= (string@[p] as int) <= 122);
            assert(97 <= (string@[q] as int) <= 122);
        }
        assert(increasing_word(s));
    }
    let len = bytes.len();
    let mut low_bound: usize = 0;
    let mut i: usize = 1;
    while i < len
        invariant
            is_pre_table(dp@),
            bytes@ == s,
            len == s.len() <= LENGTH_MAX,
            1 <= i,
            i <= len || len == 0,
            len == 0 ==> i == 1,
            low_bound == shorter_than(i as int),
            0 <= shorter_than(i as int) <= i * 308915776,
        decreases len - i,
    {
        proof {
            lemma_table_bounded(i as int, 26);
        }
        low_bound = low_bound + dp[i][26];
        i = i + 1;
    }
    assert(low_bound == shorter_than(len as int)) by {
        if len == 0 {
            assert(shorter_than(1) == 0);
            assert(shorter_than(0) == 0);
        } else {
            assert(i == len);
        }
    }
    let mut last_base: usize = 0;
    let mut p: usize = 0;
    while p < len
        invariant
            is_pre_table(dp@),
            bytes@ == s,
            len == s.len() <= LENGTH_MAX,
            increasing_word(s),
            p <= len,
            last_base == (if p == 0 {
                0
            } else {
                letter(s[p - 1])
            }),
            low_bound == shorter_than(len as int) + earlier_same_length(s, p as int),
            0 <= shorter_than(len as int) <= len * 308915776,
            0 <= earlier_same_length(s, p as int) <= p * 308915776,
        decreases len - p,
    {
        let c = bytes[p];
        assert(97 <= s[p as int] <= 122);
        if p > 0 {
            assert(s[p - 1] < s[p as int]);
        }
        let l = last_base + 1;
        let r = (c - 97u8) as usize;
        proof {
            lemma_table_bounded((len - p) as int, r as int);
            lemma_table_bounded((len - p) as int, l - 1);
            lemma_count_up_to_mono((len - p) as int, l - 1, r as int);
        }
        low_bound = low_bound + (dp[len - p][r] - dp[len - p][l - 1]);
        last_base = (c - 97u8) as usize + 1;
        p = p + 1;
    }
    low_bound + 1
}

} // verus!
