//! Word frequencies of a text: the lines are cut into words by a Chinese word
//! segmenter, the words a filter keeps are counted, and the words come out by
//! decreasing count.
use vstd::prelude::*;
use jieba_rs::Jieba;

verus! {

/// A character of the Unicode property `White_Space`.
pub open spec fn is_white_space(c: char) -> bool {
    ||| '\t' <= c <= '\r'
    ||| c == ' '
    ||| c == '\u{85}'
    ||| c == '\u{a0}'
    ||| c == '\u{1680}'
    ||| '\u{2000}' <= c <= '\u{200a}'
    ||| c == '\u{2028}'
    ||| c == '\u{2029}'
    ||| c == '\u{202f}'
    ||| c == '\u{205f}'
    ||| c == '\u{3000}'
}

/// The line holds nothing but whitespace.
pub open spec fn is_blank(l: Seq<char>) -> bool {
    forall|i: int| 0 <= i < l.len() ==> is_white_space(#[trigger] l[i])
}

/// The pieces of `t` between the characters `sep` (as many as separators plus one).
pub open spec fn split_at_char(t: Seq<char>, sep: char) -> Seq<Seq<char>>
    decreases t.len(),
{
    if t.len() == 0 {
        seq![Seq::<char>::empty()]
    } else {
        let r = split_at_char(t.drop_last(), sep);
        if t.last() == sep {
            r.push(Seq::<char>::empty())
        } else {
            r.update(r.len() - 1, r.last().push(t.last()))
        }
    }
}

/// A piece without the carriage return that ends it, if it has one.
pub open spec fn strip_cr_char(l: Seq<char>) -> Seq<char> {
    if l.len() > 0 && l.last() == '\r' {
        l.drop_last()
    } else {
        l
    }
}

/// The lines of `t` as `str::lines` gives them: the pieces before each line feed,
/// without a carriage return just before it, then the rest when it is not empty.
pub open spec fn char_lines(t: Seq<char>) -> Seq<Seq<char>> {
    let p = split_at_char(t, '\n');
    let body = Seq::new((p.len() - 1) as nat, |k: int| strip_cr_char(p[k]));
    if p.last().len() == 0 {
        body
    } else {
        body.push(p.last())
    }
}

/// What the segmenter with its default dictionary, and the hidden Markov model on,
/// cuts one line into.
pub uninterp spec fn jieba_words(line: Seq<char>) -> Seq<Seq<char>>;

/// The lines of `text`, by `str::lines`; the contract restates its documentation: lines
/// end at a line feed or a carriage return and line feed, and a final line ending is
/// optional.
#[verifier::external_body]
fn str_lines<'a>(text: &'a str) -> (r: Vec<&'a str>)
    ensures
        r@.map_values(|l: &str| l@) == char_lines(text@),
{
    text.lines().collect()
}

/// `Jieba::cut` with the hidden Markov model on, by one segmenter made with
/// `Jieba::new` (the default dictionary), on each line. The contract claims that the
/// words of each line are a function of that line alone, named [`jieba_words`]; what
/// they are is left to the segmenter.
#[verifier::external_body]
fn jieba_cut_lines(lines: &Vec<&str>) -> (words: Vec<Vec<String>>)
    ensures
        words.len() == lines.len(),
        forall|i: int| 0 <= i < lines.len() ==> (#[trigger] words@[i])@.map_values(|w: String| w@) == jieba_words(lines@[i]@),
{
    let jieba = Jieba::new();
    lines.iter().map(|l| jieba.cut(l, true).into_iter().map(|t| t.word.to_string()).collect()).collect()
}

/// Whether `c` is a whitespace character.
fn white_space(c: char) -> (r: bool)
    ensures
        r == is_white_space(c),
{
    ('\t' <= c && c <= '\r') || c == ' ' || c == '\u{85}' || c == '\u{a0}' || c == '\u{1680}' || ('\u{2000}' <= c && c
        <= '\u{200a}') || c == '\u{2028}' || c == '\u{2029}' || c == '\u{202f}' || c == '\u{205f}' || c == '\u{3000}'
}

/// Whether the line holds nothing but whitespace (what `trim` leaves is empty).
fn blank(line: &str) -> (r: bool)
    ensures
        r == is_blank(line@),
{
    let mut all = true;
    for c in it: line.chars()
        invariant
            all == (forall|j: int| 0 <= j < it.index() ==> is_white_space(#[trigger] it.seq()[j])),
    {
        if !white_space(c) {
            all = false;
        }
    }
    all
}

/// The lines that are not blank, in order.
pub open spec fn non_blank(ls: Seq<Seq<char>>) -> Seq<Seq<char>>
    decreases ls.len(),
{
    if ls.len() == 0 {
        Seq::empty()
    } else if is_blank(ls.last()) {
        non_blank(ls.drop_last())
    } else {
        non_blank(ls.drop_last()).push(ls.last())
    }
}

/// The words of the lines, one line after the other.
pub open spec fn cut_concat(ls: Seq<Seq<char>>) -> Seq<Seq<char>>
    decreases ls.len(),
{
    if ls.len() == 0 {
        Seq::empty()
    } else {
        cut_concat(ls.drop_last()) + jieba_words(ls.last())
    }
}

/// The words of the text: those of its lines that are not blank.
pub open spec fn text_words(t: Seq<char>) -> Seq<Seq<char>> {
    cut_concat(non_blank(char_lines(t)))
}

/// The words at the positions that `keep` marks, in order.
pub open spec fn kept(ws: Seq<Seq<char>>, keep: Seq<bool>) -> Seq<Seq<char>>
    decreases ws.len(),
{
    if ws.len() == 0 || keep.len() != ws.len() {
        Seq::empty()
    } else if keep.last() {
        kept(ws.drop_last(), keep.drop_last()).push(ws.last())
    } else {
        kept(ws.drop_last(), keep.drop_last())
    }
}

/// How often `w` occurs in `ws`.
pub open spec fn occurrences(ws: Seq<Seq<char>>, w: Seq<char>) -> nat
    decreases ws.len(),
{
    if ws.len() == 0 {
        0
    } else {
        occurrences(ws.drop_last(), w) + if ws.last() == w {
            1nat
        } else {
            0nat
        }
    }
}

/// A count that stops at `usize::MAX`.
pub open spec fn capped(x: nat) -> int {
    if x < usize::MAX {
        x as int
    } else {
        usize::MAX as int
    }
}

/// The entries have distinct words.
pub open spec fn distinct_words(r: Seq<(String, usize)>) -> bool {
    forall|i: int, j: int| 0 <= i < j < r.len() ==> (#[trigger] r[i]).0@ != (#[trigger] r[j]).0@
}

/// Each entry counts its word in `ws` (up to `usize::MAX`), at least once.
pub open spec fn counts_in(r: Seq<(String, usize)>, ws: Seq<Seq<char>>) -> bool {
    forall|i: int| 0 <= i < r.len() ==> (#[trigger] r[i]).1 == capped(occurrences(ws, r[i].0@)) && r[i].1 >= 1
}

/// The words of the entries, in order.
pub open spec fn words_of(r: Seq<(String, usize)>) -> Seq<Seq<char>> {
    r.map_values(|e: (String, usize)| e.0@)
}

/// Every word of `ws` has an entry in `r`.
pub open spec fn covers(r: Seq<(String, usize)>, ws: Seq<Seq<char>>) -> bool {
    forall|p: int| 0 <= p < ws.len() ==> words_of(r).contains(#[trigger] ws[p])
}

/// The counts do not increase along `r`.
pub open spec fn by_decreasing_count(r: Seq<(String, usize)>) -> bool {
    forall|i: int, j: int| 0 <= i < j < r.len() ==> (#[trigger] r[i]).1 >= (#[trigger] r[j]).1
}

/// `r` is the frequency table of `ws`: one entry per distinct word, with its count,
/// by decreasing count.
pub open spec fn frequency_table(r: Seq<(String, usize)>, ws: Seq<Seq<char>>) -> bool {
    &&& distinct_words(r)
    &&& counts_in(r, ws)
    &&& covers(r, ws)
    &&& by_decreasing_count(r)
}

proof fn lemma_occurrences_push(ws: Seq<Seq<char>>, w: Seq<char>, u: Seq<char>)
    ensures
        occurrences(ws.push(w), u) == occurrences(ws, u) + if w == u {
            1nat
        } else {
            0nat
        },
{
    assert(ws.push(w).drop_last() =~= ws);
}

/// Counts one more occurrence of `w` in the table of the words `kw`.
#[verifier::loop_isolation(false)]
fn tally(entries: &mut Vec<(String, usize)>, w: &String, Ghost(kw): Ghost<Seq<Seq<char>>>)
    requires
        distinct_words(old(entries)@),
        counts_in(old(entries)@, kw),
        covers(old(entries)@, kw),
    ensures
        distinct_words(final(entries)@),
        counts_in(final(entries)@, kw.push(w@)),
        covers(final(entries)@, kw.push(w@)),
{
    let ghost kw2 = kw.push(w@);
    let ghost e0 = entries@;
    proof {
        assert forall|u: Seq<char>| #[trigger] occurrences(kw2, u) == occurrences(kw, u) + if w@ == u {
            1nat
        } else {
            0nat
        } by {
            lemma_occurrences_push(kw, w@, u);
        }
    }
    let mut q: usize = 0;
    while q < entries.len()
        invariant
            entries@ == e0,
            q <= entries.len(),
            forall|x: int| 0 <= x < q ==> (#[trigger] entries@[x]).0@ != w@,
        decreases entries.len() - q,
    {
        if entries[q].0 == *w {
            let name = entries[q].0.clone();
            let c = entries[q].1;
            let c2 = if c < usize::MAX {
                c + 1
            } else {
                c
            };
            entries.set(q, (name, c2));
            proof {
                assert forall|i: int| 0 <= i < entries.len() implies (#[trigger] entries@[i]).1 == capped(
                    occurrences(kw2, entries@[i].0@),
                ) && entries@[i].1 >= 1 by {
                    if i != q {
                        assert(entries@[i] == e0[i]);
                        assert(e0[i].0@ != e0[q as int].0@);
                    }
                }
                assert forall|i: int, j: int| 0 <= i < j < entries.len() implies (#[trigger] entries@[i]).0@
                    != (#[trigger] entries@[j]).0@ by {
                    assert(e0[i].0@ != e0[j].0@);
                }
                assert forall|p: int| 0 <= p < kw2.len() implies words_of(entries@).contains(#[trigger] kw2[p]) by {
                    if p < kw.len() {
                        assert(kw2[p] == kw[p]);
                        assert(words_of(e0).contains(kw[p]));
                        let x = choose|x: int| 0 <= x < e0.len() && words_of(e0)[x] == kw[p];
                        assert(words_of(entries@)[x] == kw2[p]);
                    } else {
                        assert(words_of(entries@)[q as int] == kw2[p]);
                    }
                }
            }
            return;
        }
        q = q + 1;
    }
    entries.push((w.clone(), 1));
    proof {
        assert(occurrences(kw, w@) == 0) by {
            if occurrences(kw, w@) > 0 {
                lemma_occurs_at(kw, w@);
                let p = choose|p: int| 0 <= p < kw.len() && kw[p] == w@;
                assert(words_of(e0).contains(kw[p]));
                let x = choose|x: int| 0 <= x < e0.len() && words_of(e0)[x] == kw[p];
                assert(e0[x].0@ == w@);
            }
        }
        assert forall|i: int| 0 <= i < entries.len() implies (#[trigger] entries@[i]).1 == capped(occurrences(kw2, entries@[i].0@))
            && entries@[i].1 >= 1 by {
            if i < e0.len() {
                assert(entries@[i] == e0[i]);
            }
        }
        assert forall|p: int| 0 <= p < kw2.len() implies words_of(entries@).contains(#[trigger] kw2[p]) by {
            if p < kw.len() {
                assert(kw2[p] == kw[p]);
                assert(words_of(e0).contains(kw[p]));
                let x = choose|x: int| 0 <= x < e0.len() && words_of(e0)[x] == kw[p];
                assert(entries@[x] == e0[x]);
                assert(words_of(entries@)[x] == kw2[p]);
            } else {
                assert(words_of(entries@)[e0.len() as int] == kw2[p]);
            }
        }
        assert forall|i: int, j: int| 0 <= i < j < entries.len() implies (#[trigger] entries@[i]).0@ != (#[trigger] entries@[j]).0@ by {
            if j < e0.len() {
                assert(e0[i].0@ != e0[j].0@);
            } else {
                assert(entries@[i] == e0[i]);
            }
        }
    }
}

/// A word that occurs in `ws` occurs at some position.
proof fn lemma_occurs_at(ws: Seq<Seq<char>>, w: Seq<char>)
    requires
        occurrences(ws, w) > 0,
    ensures
        exists|p: int| 0 <= p < ws.len() && ws[p] == w,
    decreases ws.len(),
{
    if ws.last() != w {
        lemma_occurs_at(ws.drop_last(), w);
        let p = choose|p: int| 0 <= p < ws.drop_last().len() && ws.drop_last()[p] == w;
        assert(ws[p] == w);
    } else {
        assert(ws[ws.len() - 1] == w);
    }
}

/// The entries by decreasing count: the one with the largest count first, then the
/// largest among the others, and so on.
fn by_count(entries: Vec<(String, usize)>, Ghost(kw): Ghost<Seq<Seq<char>>>) -> (r: Vec<(String, usize)>)
    requires
        distinct_words(entries@),
        counts_in(entries@, kw),
        covers(entries@, kw),
    ensures
        frequency_table(r@, kw),
{
    let mut rem = entries;
    let mut res: Vec<(String, usize)> = Vec::new();
    while rem.len() > 0
        invariant
            distinct_words(rem@),
            distinct_words(res@),
            forall|i: int, j: int| 0 <= i < rem.len() && 0 <= j < res.len() ==> (#[trigger] rem@[i]).0@ != (#[trigger] res@[j]).0@,
            counts_in(rem@, kw),
            counts_in(res@, kw),
            forall|p: int| 0 <= p < kw.len() ==> words_of(rem@).contains(#[trigger] kw[p]) || words_of(res@).contains(kw[p]),
            by_decreasing_count(res@),
            forall|i: int, j: int| 0 <= i < res.len() && 0 <= j < rem.len() ==> (#[trigger] res@[i]).1 >= (#[trigger] rem@[j]).1,
        decreases rem.len(),
    {
        let mut m: usize = 0;
        let mut i: usize = 1;
        while i < rem.len()
            invariant
                0 <= m < rem.len(),
                1 <= i <= rem.len(),
                forall|j: int| 0 <= j < i ==> rem@[m as int].1 >= (#[trigger] rem@[j]).1,
            decreases rem.len() - i,
        {
            if rem[i].1 > rem[m].1 {
                m = i;
            }
            i = i + 1;
        }
        let ghost r0 = rem@;
        let ghost s0 = res@;
        let x = rem.remove(m);
        res.push(x);
        proof {
            assert(x == r0[m as int]);
            assert forall|a: int, b: int| 0 <= a < rem.len() && 0 <= b < res.len() implies (#[trigger] rem@[a]).0@
                != (#[trigger] res@[b]).0@ by {
                let a0 = if a < m { a } else { a + 1 };
                assert(rem@[a] == r0[a0]);
                if b < s0.len() {
                    assert(res@[b] == s0[b]);
                } else {
                    assert(a0 != m);
                }
            }
            assert forall|a: int, b: int| 0 <= a < b < rem.len() implies (#[trigger] rem@[a]).0@ != (#[trigger] rem@[b]).0@ by {
                let a0 = if a < m { a } else { a + 1 };
                let b0 = if b < m { b } else { b + 1 };
                assert(rem@[a] == r0[a0] && rem@[b] == r0[b0]);
            }
            assert forall|a: int, b: int| 0 <= a < b < res.len() implies (#[trigger] res@[a]).0@ != (#[trigger] res@[b]).0@ by {
                if b < s0.len() {
                    assert(res@[a] == s0[a] && res@[b] == s0[b]);
                } else {
                    assert(res@[a] == s0[a]);
                }
            }
            assert forall|a: int| 0 <= a < rem.len() implies (#[trigger] rem@[a]).1 == capped(occurrences(kw, rem@[a].0@))
                && rem@[a].1 >= 1 by {
                let a0 = if a < m { a } else { a + 1 };
                assert(rem@[a] == r0[a0]);
            }
            assert forall|a: int| 0 <= a < res.len() implies (#[trigger] res@[a]).1 == capped(occurrences(kw, res@[a].0@))
                && res@[a].1 >= 1 by {
                if a < s0.len() {
                    assert(res@[a] == s0[a]);
                }
            }
            assert forall|p: int| 0 <= p < kw.len() implies words_of(rem@).contains(#[trigger] kw[p]) || words_of(
                res@,
            ).contains(kw[p]) by {
                if words_of(s0).contains(kw[p]) {
                    let q = choose|q: int| 0 <= q < s0.len() && words_of(s0)[q] == kw[p];
                    assert(words_of(res@)[q] == kw[p]);
                } else {
                    assert(words_of(r0).contains(kw[p]));
                    let q = choose|q: int| 0 <= q < r0.len() && words_of(r0)[q] == kw[p];
                    if q == m {
                        assert(words_of(res@)[s0.len() as int] == kw[p]);
                    } else {
                        let q1 = if q < m { q } else { q - 1 };
                        assert(rem@[q1] == r0[q]);
                        assert(words_of(rem@)[q1] == kw[p]);
                    }
                }
            }
            assert forall|a: int, b: int| 0 <= a < b < res.len() implies (#[trigger] res@[a]).1 >= (#[trigger] res@[b]).1 by {
                if b < s0.len() {
                    assert(res@[a] == s0[a] && res@[b] == s0[b]);
                } else {
                    assert(res@[a] == s0[a]);
                    assert(s0[a].1 >= r0[m as int].1);
                }
            }
            assert forall|a: int, b: int| 0 <= a < res.len() && 0 <= b < rem.len() implies (#[trigger] res@[a]).1 >= (
            #[trigger] rem@[b]).1 by {
                let b0 = if b < m { b } else { b + 1 };
                assert(rem@[b] == r0[b0]);
                if a < s0.len() {
                    assert(res@[a] == s0[a]);
                } else {
                    assert(r0[m as int].1 >= r0[b0].1);
                }
            }
        }
    }
    proof {
        assert forall|p: int| 0 <= p < kw.len() implies words_of(res@).contains(#[trigger] kw[p]) by {
            if words_of(rem@).contains(kw[p]) {
                let q = choose|q: int| 0 <= q < rem@.len() && words_of(rem@)[q] == kw[p];
            }
        }
    }
    res
}

/// `filter` can answer `b` for a string that reads `w`.
pub open spec fn filter_said<F: Fn(&str) -> bool>(filter: F, w: Seq<char>, b: bool) -> bool {
    exists|s: &str| s@ == w && #[trigger] filter.ensures((s,), b)
}

/// `keep` holds, for each word, an answer that `filter` can give on it.
pub open spec fn answers<F: Fn(&str) -> bool>(filter: F, words: Seq<Seq<char>>, keep: Seq<bool>) -> bool {
    &&& keep.len() == words.len()
    &&& forall|p: int| 0 <= p < words.len() ==> #[trigger] filter_said(filter, words[p], keep[p])
}

/// The lines of `text` that are not blank.
fn live_lines<'a>(text: &'a str) -> (live: Vec<&'a str>)
    ensures
        live@.map_values(|l: &str| l@) == non_blank(char_lines(text@)),
{
    let lines = str_lines(text);
    let ghost lv = char_lines(text@);
    let mut live: Vec<&'a str> = Vec::new();
    let mut i: usize = 0;
    while i < lines.len()
        invariant
            lines@.map_values(|l: &str| l@) == lv,
            i <= lines.len(),
            live@.map_values(|l: &str| l@) == non_blank(lv.take(i as int)),
        decreases lines.len() - i,
    {
        let line = lines[i];
        proof {
            assert(lv.take(i + 1).drop_last() =~= lv.take(i as int));
            assert(lv[i as int] == line@);
        }
        if !blank(line) {
            let ghost before = live@;
            live.push(line);
            proof {
                assert(live@.map_values(|l: &str| l@) =~= before.map_values(|l: &str| l@).push(line@));
            }
        }
        i = i + 1;
    }
    proof {
        assert(lv.take(lines.len() as int) =~= lv);
    }
    live
}

/// The words of `text`, cut line by line (blank lines skipped), that `filter` keeps,
/// in order.
pub fn cut_words(text: &str, filter: &impl Fn(&str) -> bool) -> (r: Vec<String>)
    requires
        forall|w: &str| filter.requires((w,)),
    ensures
        exists|keep: Seq<bool>|
            answers(*filter, text_words(text@), keep) && #[trigger] kept(text_words(text@), keep) == r@.map_values(
                |w: String| w@,
            ),
{
    let live = live_lines(text);
    let ghost lv = non_blank(char_lines(text@));
    let cut = jieba_cut_lines(&live);
    let mut out: Vec<String> = Vec::new();
    let ghost mut done: Seq<Seq<char>> = Seq::empty();
    let ghost mut keep: Seq<bool> = Seq::empty();
    let mut i: usize = 0;
    while i < cut.len()
        invariant
            live@.map_values(|l: &str| l@) == lv,
            cut.len() == live.len(),
            forall|x: int| 0 <= x < live.len() ==> (#[trigger] cut@[x])@.map_values(|w: String| w@) == jieba_words(live@[x]@),
            forall|w: &str| filter.requires((w,)),
            i <= cut.len(),
            done == cut_concat(lv.take(i as int)),
            answers(*filter, done, keep),
            out@.map_values(|w: String| w@) == kept(done, keep),
        decreases cut.len() - i,
    {
        let words = &cut[i];
        let ghost base = done;
        let ghost jw = jieba_words(lv[i as int]);
        proof {
            assert(live@[i as int]@ == lv[i as int]);
            assert(words@.map_values(|w: String| w@) == jw);
            assert(base + jw.take(0) =~= base);
        }
        let mut j: usize = 0;
        while j < words.len()
            invariant
                words@.map_values(|w: String| w@) == jw,
                forall|w: &str| filter.requires((w,)),
                j <= words.len(),
                done == base + jw.take(j as int),
                answers(*filter, done, keep),
                out@.map_values(|w: String| w@) == kept(done, keep),
            decreases words.len() - j,
        {
            let w = &words[j];
            let ws = w.as_str();
            let k = filter(ws);
            let ghost kw = kept(done, keep);
            let ghost o0 = out@;
            if k {
                out.push(w.clone());
            }
            proof {
                let d2 = done.push(w@);
                let k2 = keep.push(k);
                assert(d2.drop_last() =~= done);
                assert(k2.drop_last() =~= keep);
                assert(kept(d2, k2) == if k { kw.push(w@) } else { kw });
                if k {
                    assert(out@.map_values(|v: String| v@) =~= o0.map_values(|v: String| v@).push(w@));
                }
                assert(w@ == jw[j as int]);
                assert(d2 =~= base + jw.take(j + 1));
                assert forall|p: int| 0 <= p < d2.len() implies #[trigger] filter_said(*filter, d2[p], k2[p]) by {
                    if p < keep.len() {
                        assert(d2[p] == done[p] && k2[p] == keep[p]);
                    } else {
                        assert(ws@ == d2[p]);
                        assert(filter.ensures((ws,), k2[p]));
                    }
                }
                done = d2;
                keep = k2;
            }
            j = j + 1;
        }
        proof {
            assert(jw.take(words.len() as int) =~= jw);
            assert(lv.take(i + 1).drop_last() =~= lv.take(i as int));
        }
        i = i + 1;
    }
    proof {
        assert(lv.take(cut.len() as int) =~= lv);
        assert(done == text_words(text@));
    }
    out
}

/// The words of `text`, cut line by line (blank lines skipped), that `filter` keeps,
/// each once with the number of times it occurs (a count stops at `usize::MAX`), by
/// decreasing count. The order of words with equal counts is left open.
pub fn sort_words(text: &str, filter: impl Fn(&str) -> bool) -> (r: Vec<(String, usize)>)
    requires
        forall|w: &str| filter.requires((w,)),
    ensures
        exists|keep: Seq<bool>|
            answers(filter, text_words(text@), keep) && #[trigger] frequency_table(r@, kept(text_words(text@), keep)),
{
    let words = cut_words(text, &filter);
    let ghost ws = words@.map_values(|w: String| w@);
    let mut entries: Vec<(String, usize)> = Vec::new();
    let mut i: usize = 0;
    while i < words.len()
        invariant
            ws == words@.map_values(|w: String| w@),
            i <= words.len(),
            distinct_words(entries@),
            counts_in(entries@, ws.take(i as int)),
            covers(entries@, ws.take(i as int)),
        decreases words.len() - i,
    {
        proof {
            assert(ws.take(i + 1) =~= ws.take(i as int).push(words@[i as int]@));
        }
        tally(&mut entries, &words[i], Ghost(ws.take(i as int)));
        i = i + 1;
    }
    proof {
        assert(ws.take(words.len() as int) =~= ws);
    }
    let r = by_count(entries, Ghost(ws));
    proof {
        let keep = choose|keep: Seq<bool>|
            answers(filter, text_words(text@), keep) && #[trigger] kept(text_words(text@), keep) == ws;
        assert(frequency_table(r@, kept(text_words(text@), keep)));
    }
    r
}

} // verus!
