//! Plain-text input: lines, whitespace-separated tokens and decimal numbers, over
//! the bytes of the text.
use vstd::prelude::*;
use vstd::string::StringSliceAdditionalSpecFns;

verus! {

/// ASCII whitespace: space, tab, line feed, vertical tab, form feed, carriage return.
pub open spec fn is_space(b: u8) -> bool {
    b == 32 || (9 <= b && b <= 13)
}

/// The pieces of `t` between the bytes `sep` (as many as separators plus one).
pub open spec fn split_at_byte(t: Seq<u8>, sep: u8) -> Seq<Seq<u8>>
    decreases t.len(),
{
    if t.len() == 0 {
        seq![Seq::<u8>::empty()]
    } else {
        let r = split_at_byte(t.drop_last(), sep);
        if t.last() == sep {
            r.push(Seq::<u8>::empty())
        } else {
            r.update(r.len() - 1, r.last().push(t.last()))
        }
    }
}

/// The pieces of `t` between whitespace bytes.
pub open spec fn split_at_space(t: Seq<u8>) -> Seq<Seq<u8>>
    decreases t.len(),
{
    if t.len() == 0 {
        seq![Seq::<u8>::empty()]
    } else {
        let r = split_at_space(t.drop_last());
        if is_space(t.last()) {
            r.push(Seq::<u8>::empty())
        } else {
            r.update(r.len() - 1, r.last().push(t.last()))
        }
    }
}

/// The non-empty sequences of `s`, in order.
pub open spec fn non_empty<A>(s: Seq<Seq<A>>) -> Seq<Seq<A>>
    decreases s.len(),
{
    if s.len() == 0 {
        Seq::empty()
    } else if s.last().len() == 0 {
        non_empty(s.drop_last())
    } else {
        non_empty(s.drop_last()).push(s.last())
    }
}

/// The whitespace-separated tokens of a line.
pub open spec fn tokens(l: Seq<u8>) -> Seq<Seq<u8>> {
    non_empty(split_at_space(l))
}

/// The lines of `t` that hold a token, each as its tokens.
pub open spec fn token_lines(t: Seq<u8>) -> Seq<Seq<Seq<u8>>> {
    non_empty(split_at_byte(t, 10).map_values(|l: Seq<u8>| tokens(l)))
}

/// The number written by the decimal digits `d`.
pub open spec fn digits_value(d: Seq<u8>) -> int
    decreases d.len(),
{
    if d.len() == 0 {
        0
    } else {
        10 * digits_value(d.drop_last()) + (d.last() - 48)
    }
}

/// All bytes of `d` are decimal digits.
pub open spec fn all_digits(d: Seq<u8>) -> bool {
    forall|i: int| 0 <= i < d.len() ==> 48 <= #[trigger] d[i] <= 57
}

/// The digits of a token: without a leading `+`.
pub open spec fn unsigned_digits(tok: Seq<u8>) -> Seq<u8> {
    if tok.len() > 0 && tok[0] == 43 {
        tok.subrange(1, tok.len() as int)
    } else {
        tok
    }
}

/// A token reads as a `usize`: an optional `+`, then at least one digit, and a
/// value that fits.
pub open spec fn reads_usize(tok: Seq<u8>) -> bool {
    let d = unsigned_digits(tok);
    &&& d.len() > 0
    &&& all_digits(d)
    &&& digits_value(d) <= usize::MAX
}

/// The `usize` that a token reads as.
pub open spec fn usize_value(tok: Seq<u8>) -> int {
    digits_value(unsigned_digits(tok))
}

proof fn lemma_non_empty_push<A>(s: Seq<Seq<A>>, x: Seq<A>)
    ensures
        non_empty(s.push(x)) == if x.len() == 0 {
            non_empty(s)
        } else {
            non_empty(s).push(x)
        },
{
    assert(s.push(x).drop_last() =~= s);
}

proof fn lemma_digits_value_nonneg(d: Seq<u8>)
    requires
        all_digits(d),
    ensures
        digits_value(d) >= 0,
    decreases d.len(),
{
    if d.len() > 0 {
        assert(all_digits(d.drop_last()));
        lemma_digits_value_nonneg(d.drop_last());
    }
}

/// The pieces of `t` between whitespace bytes, as pairs of start and end positions.
fn space_pieces(t: &[u8], start: usize, end: usize) -> (r: Vec<Vec<u8>>)
    requires
        start <= end <= t.len(),
    ensures
        r@.map_values(|v: Vec<u8>| v@) == split_at_space(t@.subrange(start as int, end as int)),
{
    let mut r: Vec<Vec<u8>> = Vec::new();
    r.push(Vec::new());
    let mut i: usize = start;
    proof {
        assert(t@.subrange(start as int, start as int) =~= Seq::<u8>::empty());
        assert(r@.map_values(|v: Vec<u8>| v@) =~= seq![Seq::<u8>::empty()]);
    }
    while i < end
        invariant
            start <= i <= end <= t.len(),
            r.len() >= 1,
            r@.map_values(|v: Vec<u8>| v@) == split_at_space(t@.subrange(start as int, i as int)),
        decreases end - i,
    {
        let b = t[i];
        let ghost before = r@.map_values(|v: Vec<u8>| v@);
        proof {
            assert(t@.subrange(start as int, i + 1).drop_last() =~= t@.subrange(start as int, i as int));
            assert(t@.subrange(start as int, i + 1).last() == b);
        }
        if b == 32 || (9 <= b && b <= 13) {
            r.push(Vec::new());
            proof {
                assert(r@.map_values(|v: Vec<u8>| v@) =~= before.push(Seq::<u8>::empty()));
            }
        } else {
            let last = r.len() - 1;
            let mut piece = r.pop().unwrap();
            piece.push(b);
            r.push(piece);
            proof {
                assert(r@.map_values(|v: Vec<u8>| v@) =~= before.update(last as int, before[last as int].push(b)));
            }
        }
        i = i + 1;
    }
    r
}

/// The non-empty pieces, in order.
fn keep_non_empty(pieces: Vec<Vec<u8>>) -> (r: Vec<Vec<u8>>)
    ensures
        r@.map_values(|v: Vec<u8>| v@) == non_empty(pieces@.map_values(|v: Vec<u8>| v@)),
{
    let ghost all = pieces@.map_values(|v: Vec<u8>| v@);
    let ghost n = all.len();
    let mut r: Vec<Vec<u8>> = Vec::new();
    let mut rest = pieces;
    proof {
        assert(all.take(0) =~= Seq::<Seq<u8>>::empty());
        assert(r@.map_values(|v: Vec<u8>| v@) =~= non_empty(all.take(0)));
    }
    while rest.len() > 0
        invariant
            rest.len() <= n,
            n == all.len(),
            forall|j: int| 0 <= j < rest.len() ==> (#[trigger] rest@[j])@ == all[n - rest.len() + j],
            r@.map_values(|v: Vec<u8>| v@) == non_empty(all.take(n - rest.len())),
        decreases rest.len(),
    {
        let ghost k = n - rest.len();
        let ghost rest0 = rest@;
        let piece = rest.remove(0);
        let ghost before = r@.map_values(|v: Vec<u8>| v@);
        proof {
            assert(piece@ == all[k]);
            assert forall|j: int| 0 <= j < rest.len() implies (#[trigger] rest@[j])@ == all[n - rest.len() + j] by {
                assert(rest@[j] == rest0[j + 1]);
            }
            assert(all.take(k + 1) =~= all.take(k).push(all[k]));
            lemma_non_empty_push(all.take(k), all[k]);
        }
        if piece.len() > 0 {
            r.push(piece);
            proof {
                assert(r@.map_values(|v: Vec<u8>| v@) =~= before.push(all[k]));
            }
        }
    }
    proof {
        assert(all.take(n as int) =~= all);
    }
    r
}

/// The whitespace-separated tokens of `t[start..end]`.
pub fn tokens_of(t: &[u8], start: usize, end: usize) -> (r: Vec<Vec<u8>>)
    requires
        start <= end <= t.len(),
    ensures
        r@.map_values(|v: Vec<u8>| v@) == tokens(t@.subrange(start as int, end as int)),
{
    let pieces = space_pieces(t, start, end);
    keep_non_empty(pieces)
}

/// Where the lines of `t` start and end: line `k` is `t[starts[k]..ends[k]]`.
fn line_bounds(t: &[u8]) -> (r: (Vec<usize>, Vec<usize>))
    ensures
        r.0.len() == split_at_byte(t@, 10).len(),
        r.1.len() == r.0.len(),
        forall|k: int| 0 <= k < r.0.len() ==> r.0[k] <= #[trigger] r.1[k] <= t.len(),
        forall|k: int|
            0 <= k < r.0.len() ==> t@.subrange(r.0[k] as int, r.1[k] as int) == #[trigger] split_at_byte(t@, 10)[k],
{
    let mut starts: Vec<usize> = Vec::new();
    let mut ends: Vec<usize> = Vec::new();
    let mut i: usize = 0;
    let mut line_start: usize = 0;
    proof {
        assert(t@.take(0) =~= Seq::<u8>::empty());
        assert(t@.subrange(0, 0) =~= Seq::<u8>::empty());
    }
    while i < t.len()
        invariant
            line_start <= i <= t.len(),
            starts.len() == ends.len(),
            ends.len() + 1 == split_at_byte(t@.take(i as int), 10).len(),
            forall|k: int| 0 <= k < ends.len() ==> starts[k] <= #[trigger] ends[k] <= i,
            forall|k: int|
                0 <= k < ends.len() ==> t@.subrange(starts[k] as int, ends[k] as int) == #[trigger] split_at_byte(
                    t@.take(i as int),
                    10,
                )[k],
            t@.subrange(line_start as int, i as int) == split_at_byte(t@.take(i as int), 10).last(),
        decreases t.len() - i,
    {
        let ghost prev = split_at_byte(t@.take(i as int), 10);
        proof {
            assert(t@.take(i + 1).drop_last() =~= t@.take(i as int));
            assert(t@.take(i + 1).last() == t@[i as int]);
        }
        if t[i] == 10 {
            starts.push(line_start);
            ends.push(i);
            proof {
                let next = split_at_byte(t@.take(i + 1), 10);
                assert(next == prev.push(Seq::<u8>::empty()));
                assert forall|k: int|
                    0 <= k < ends.len() implies t@.subrange(starts[k] as int, ends[k] as int) == #[trigger] split_at_byte(
                        t@.take(i + 1),
                        10,
                    )[k] by {
                    assert(next[k] == prev[k]);
                }
                assert(t@.subrange(i + 1, i + 1) =~= Seq::<u8>::empty());
            }
            line_start = i + 1;
        } else {
            proof {
                let next = split_at_byte(t@.take(i + 1), 10);
                assert(next == prev.update(prev.len() - 1, prev.last().push(t@[i as int])));
                assert forall|k: int|
                    0 <= k < ends.len() implies t@.subrange(starts[k] as int, ends[k] as int) == #[trigger] split_at_byte(
                        t@.take(i + 1),
                        10,
                    )[k] by {
                    assert(next[k] == prev[k]);
                }
                assert(t@.subrange(line_start as int, i + 1) =~= t@.subrange(line_start as int, i as int).push(t@[i as int]));
            }
        }
        i = i + 1;
    }
    let ghost last = split_at_byte(t@, 10);
    proof {
        assert(t@.take(t.len() as int) =~= t@);
    }
    starts.push(line_start);
    ends.push(t.len());
    proof {
        assert forall|k: int|
            0 <= k < starts.len() implies t@.subrange(starts[k] as int, ends[k] as int) == #[trigger] split_at_byte(t@, 10)[k] by {
            if k < starts.len() - 1 {
                assert(split_at_byte(t@.take(t.len() as int), 10)[k] == last[k]);
            }
        }
    }
    (starts, ends)
}

/// The lines of `t` that hold a token, each as its tokens.
pub fn token_lines_of(t: &[u8]) -> (r: Vec<Vec<Vec<u8>>>)
    ensures
        r@.map_values(|l: Vec<Vec<u8>>| l@.map_values(|v: Vec<u8>| v@)) == token_lines(t@),
{
    let (starts, ends) = line_bounds(t);
    let ghost lines = split_at_byte(t@, 10);
    let ghost tl = lines.map_values(|l: Seq<u8>| tokens(l));
    let mut r: Vec<Vec<Vec<u8>>> = Vec::new();
    let mut k: usize = 0;
    proof {
        assert(tl.take(0) =~= Seq::<Seq<Seq<u8>>>::empty());
        assert(r@.map_values(|l: Vec<Vec<u8>>| l@.map_values(|v: Vec<u8>| v@)) =~= non_empty(tl.take(0)));
    }
    while k < ends.len()
        invariant
            k <= ends.len(),
            starts.len() == ends.len(),
            ends.len() == lines.len(),
            tl.len() == lines.len(),
            tl == lines.map_values(|l: Seq<u8>| tokens(l)),
            lines == split_at_byte(t@, 10),
            forall|j: int| 0 <= j < ends.len() ==> starts[j] <= #[trigger] ends[j] <= t.len(),
            forall|j: int|
                0 <= j < ends.len() ==> t@.subrange(starts[j] as int, ends[j] as int) == #[trigger] split_at_byte(t@, 10)[j],
            r@.map_values(|l: Vec<Vec<u8>>| l@.map_values(|v: Vec<u8>| v@)) == non_empty(tl.take(k as int)),
        decreases ends.len() - k,
    {
        proof {
            assert(starts[k as int] <= ends[k as int] <= t.len());
            assert(t@.subrange(starts[k as int] as int, ends[k as int] as int) == split_at_byte(t@, 10)[k as int]);
        }
        let toks = tokens_of(t, starts[k], ends[k]);
        let ghost before = r@.map_values(|l: Vec<Vec<u8>>| l@.map_values(|v: Vec<u8>| v@));
        proof {
            assert(toks@.map_values(|v: Vec<u8>| v@) == tl[k as int]);
            assert(tl.take(k + 1) =~= tl.take(k as int).push(tl[k as int]));
            lemma_non_empty_push(tl.take(k as int), tl[k as int]);
        }
        if toks.len() > 0 {
            r.push(toks);
            proof {
                assert(r@.map_values(|l: Vec<Vec<u8>>| l@.map_values(|v: Vec<u8>| v@)) =~= before.push(tl[k as int]));
            }
        }
        k = k + 1;
    }
    proof {
        assert(tl.take(ends.len() as int) =~= tl);
    }
    r
}

/// The `usize` that a token reads as, if it reads as one.
pub fn parse_usize(tok: &Vec<u8>) -> (r: Option<usize>)
    ensures
        r == if reads_usize(tok@) {
            Some(usize_value(tok@) as usize)
        } else {
            None::<usize>
        },
        r matches Some(v) ==> v == usize_value(tok@),
{
    let start: usize = if tok.len() > 0 && tok[0] == 43 { 1 } else { 0 };
    let ghost d = unsigned_digits(tok@);
    proof {
        assert(d =~= tok@.subrange(start as int, tok.len() as int));
        assert(reads_usize(tok@) ==> d.len() > 0);
        assert(d.len() == 0 ==> !reads_usize(tok@));
    }
    if start >= tok.len() {
        proof {
            assert(d.len() == 0);
        }
        return None;
    }
    let mut v: usize = 0;
    let mut i: usize = start;
    proof {
        assert(tok@.subrange(start as int, start as int) =~= Seq::<u8>::empty());
    }
    while i < tok.len()
        invariant
            start <= i <= tok.len(),
            d == tok@.subrange(start as int, tok.len() as int),
            d == unsigned_digits(tok@),
            all_digits(tok@.subrange(start as int, i as int)),
            v == digits_value(tok@.subrange(start as int, i as int)),
        decreases tok.len() - i,
    {
        let b = tok[i];
        let ghost pre = tok@.subrange(start as int, i as int);
        proof {
            assert(tok@.subrange(start as int, i + 1) =~= pre.push(b));
            assert(tok@.subrange(start as int, i + 1).drop_last() =~= pre);
        }
        if b < 48 || b > 57 {
            proof {
                assert(d[i - start] == b);
                assert(!all_digits(d));
            }
            return None;
        }
        proof {
            assert(d.take(i + 1 - start) =~= tok@.subrange(start as int, i + 1));
        }
        let dv = (b - 48) as usize;
        match v.checked_mul(10) {
            Some(m) => match m.checked_add(dv) {
                Some(nv) => {
                    v = nv;
                },
                None => {
                    proof {
                        lemma_digits_rest_large(tok@.subrange(start as int, tok.len() as int), i + 1 - start, usize::MAX as int);
                    }
                    return None;
                },
            },
            None => {
                proof {
                    lemma_digits_value_nonneg(pre);
                    lemma_digits_rest_large(tok@.subrange(start as int, tok.len() as int), i + 1 - start, usize::MAX as int);
                }
                return None;
            },
        }
        i = i + 1;
    }
    proof {
        lemma_digits_value_nonneg(d);
    }
    Some(v)
}

/// A line without the carriage return that ends it, if it has one.
pub open spec fn strip_cr(l: Seq<u8>) -> Seq<u8> {
    if l.len() > 0 && l.last() == 13 {
        l.drop_last()
    } else {
        l
    }
}

/// The lines of `t` as `str::lines` gives them: the pieces before each line feed,
/// without a carriage return just before it, then the rest when it is not empty.
pub open spec fn text_lines(t: Seq<u8>) -> Seq<Seq<u8>> {
    let p = split_at_byte(t, 10);
    let body = Seq::new((p.len() - 1) as nat, |k: int| strip_cr(p[k]));
    if p.last().len() == 0 {
        body
    } else {
        body.push(p.last())
    }
}

proof fn lemma_split_len(t: Seq<u8>, sep: u8)
    ensures
        split_at_byte(t, sep).len() >= 1,
    decreases t.len(),
{
    if t.len() > 0 {
        lemma_split_len(t.drop_last(), sep);
    }
}

/// A copy of `t[start..end]`.
fn copy_range(t: &[u8], start: usize, end: usize) -> (r: Vec<u8>)
    requires
        start <= end <= t.len(),
    ensures
        r@ == t@.subrange(start as int, end as int),
{
    let mut r: Vec<u8> = Vec::new();
    let mut i: usize = start;
    while i < end
        invariant
            start <= i <= end <= t.len(),
            r@ == t@.subrange(start as int, i as int),
        decreases end - i,
    {
        r.push(t[i]);
        i = i + 1;
        proof {
            assert(r@ =~= t@.subrange(start as int, i as int));
        }
    }
    r
}

/// The lines of `t`, as `str::lines` gives them.
pub fn lines_of(t: &[u8]) -> (r: Vec<Vec<u8>>)
    ensures
        r@.map_values(|v: Vec<u8>| v@) == text_lines(t@),
{
    let (starts, ends) = line_bounds(t);
    let ghost p = split_at_byte(t@, 10);
    proof {
        lemma_split_len(t@, 10);
    }
    let count = ends.len();
    let ghost body = Seq::new((p.len() - 1) as nat, |k: int| strip_cr(p[k]));
    let mut r: Vec<Vec<u8>> = Vec::new();
    let mut k: usize = 0;
    while k + 1 < count
        invariant
            count == ends.len() == starts.len() == p.len() >= 1,
            p == split_at_byte(t@, 10),
            body == Seq::new((p.len() - 1) as nat, |k: int| strip_cr(p[k])),
            forall|j: int| 0 <= j < ends.len() ==> starts[j] <= #[trigger] ends[j] <= t.len(),
            forall|j: int| 0 <= j < ends.len() ==> t@.subrange(starts[j] as int, ends[j] as int) == #[trigger] p[j],
            k + 1 <= count,
            r@.map_values(|v: Vec<u8>| v@) == body.take(k as int),
        decreases count - k,
    {
        let s = starts[k];
        let mut e = ends[k];
        proof {
            assert(t@.subrange(s as int, e as int) == p[k as int]);
        }
        if e > s && t[e - 1] == 13 {
            e = e - 1;
            proof {
                assert(p[k as int].last() == t@[e as int]);
                assert(t@.subrange(s as int, e as int) =~= p[k as int].drop_last());
            }
        } else {
            proof {
                if p[k as int].len() > 0 {
                    assert(p[k as int].last() == t@[e - 1]);
                }
            }
        }
        let line = copy_range(t, s, e);
        let ghost before = r@.map_values(|v: Vec<u8>| v@);
        r.push(line);
        proof {
            assert(line@ == strip_cr(p[k as int]));
            assert(body.take(k + 1) =~= body.take(k as int).push(body[k as int]));
            assert(r@.map_values(|v: Vec<u8>| v@) =~= before.push(line@));
        }
        k = k + 1;
    }
    proof {
        assert(body.take(k as int) =~= body);
    }
    let s = starts[count - 1];
    let e = ends[count - 1];
    proof {
        assert(t@.subrange(s as int, e as int) == p.last());
    }
    if e > s {
        let line = copy_range(t, s, e);
        let ghost before = r@.map_values(|v: Vec<u8>| v@);
        r.push(line);
        proof {
            assert(r@.map_values(|v: Vec<u8>| v@) =~= before.push(line@));
        }
    }
    r
}

/// The pieces of `t[start..end]` between the bytes `sep`.
pub fn pieces_of(t: &[u8], start: usize, end: usize, sep: u8) -> (r: Vec<Vec<u8>>)
    requires
        start <= end <= t.len(),
    ensures
        r@.map_values(|v: Vec<u8>| v@) == split_at_byte(t@.subrange(start as int, end as int), sep),
{
    let mut r: Vec<Vec<u8>> = Vec::new();
    r.push(Vec::new());
    let mut i: usize = start;
    proof {
        assert(t@.subrange(start as int, start as int) =~= Seq::<u8>::empty());
        assert(r@.map_values(|v: Vec<u8>| v@) =~= seq![Seq::<u8>::empty()]);
    }
    while i < end
        invariant
            start <= i <= end <= t.len(),
            r.len() >= 1,
            r@.map_values(|v: Vec<u8>| v@) == split_at_byte(t@.subrange(start as int, i as int), sep),
        decreases end - i,
    {
        let b = t[i];
        let ghost before = r@.map_values(|v: Vec<u8>| v@);
        proof {
            assert(t@.subrange(start as int, i + 1).drop_last() =~= t@.subrange(start as int, i as int));
            assert(t@.subrange(start as int, i + 1).last() == b);
        }
        if b == sep {
            r.push(Vec::new());
            proof {
                assert(r@.map_values(|v: Vec<u8>| v@) =~= before.push(Seq::<u8>::empty()));
            }
        } else {
            let last = r.len() - 1;
            let mut piece = r.pop().unwrap();
            piece.push(b);
            r.push(piece);
            proof {
                assert(r@.map_values(|v: Vec<u8>| v@) =~= before.update(last as int, before[last as int].push(b)));
            }
        }
        i = i + 1;
    }
    r
}

/// A token reads as a `u128`: an optional `+`, then at least one digit, and a value
/// that fits.
pub open spec fn reads_u128(tok: Seq<u8>) -> bool {
    let d = unsigned_digits(tok);
    &&& d.len() > 0
    &&& all_digits(d)
    &&& digits_value(d) <= u128::MAX
}

/// The `u128` that a token reads as, if it reads as one.
pub fn parse_u128(tok: &Vec<u8>) -> (r: Option<u128>)
    ensures
        r == if reads_u128(tok@) {
            Some(usize_value(tok@) as u128)
        } else {
            None::<u128>
        },
        r matches Some(v) ==> v == usize_value(tok@),
{
    let start: usize = if tok.len() > 0 && tok[0] == 43 { 1 } else { 0 };
    let ghost d = unsigned_digits(tok@);
    proof {
        assert(d =~= tok@.subrange(start as int, tok.len() as int));
    }
    if start >= tok.len() {
        proof {
            assert(d.len() == 0);
        }
        return None;
    }
    let mut v: u128 = 0;
    let mut i: usize = start;
    proof {
        assert(tok@.subrange(start as int, start as int) =~= Seq::<u8>::empty());
    }
    while i < tok.len()
        invariant
            start <= i <= tok.len(),
            d == tok@.subrange(start as int, tok.len() as int),
            d == unsigned_digits(tok@),
            all_digits(tok@.subrange(start as int, i as int)),
            v == digits_value(tok@.subrange(start as int, i as int)),
        decreases tok.len() - i,
    {
        let b = tok[i];
        let ghost pre = tok@.subrange(start as int, i as int);
        proof {
            assert(tok@.subrange(start as int, i + 1) =~= pre.push(b));
            assert(tok@.subrange(start as int, i + 1).drop_last() =~= pre);
        }
        if b < 48 || b > 57 {
            proof {
                assert(d[i - start] == b);
                assert(!all_digits(d));
            }
            return None;
        }
        proof {
            assert(d.take(i + 1 - start) =~= tok@.subrange(start as int, i + 1));
        }
        let dv = (b - 48) as u128;
        match v.checked_mul(10) {
            Some(m) => match m.checked_add(dv) {
                Some(nv) => {
                    v = nv;
                },
                None => {
                    proof {
                        lemma_digits_rest_large(
                            tok@.subrange(start as int, tok.len() as int),
                            i + 1 - start,
                            u128::MAX as int,
                        );
                    }
                    return None;
                },
            },
            None => {
                proof {
                    lemma_digits_value_nonneg(pre);
                    lemma_digits_rest_large(
                        tok@.subrange(start as int, tok.len() as int),
                        i + 1 - start,
                        u128::MAX as int,
                    );
                }
                return None;
            },
        }
        i = i + 1;
    }
    proof {
        lemma_digits_value_nonneg(d);
    }
    Some(v)
}

/// The number a text holds as its only token (an answer file): `None` unless the text
/// is one token that reads as a `usize`.
pub fn parse_single_usize(s: &str) -> (r: Option<usize>)
    ensures
        r is Some <==> tokens(s.spec_bytes()).len() == 1 && reads_usize(tokens(s.spec_bytes())[0]),
        r matches Some(v) ==> v == usize_value(tokens(s.spec_bytes())[0]),
{
    let t = s.as_bytes();
    let toks = tokens_of(t, 0, t.len());
    proof {
        assert(t@.subrange(0, t@.len() as int) =~= t@);
    }
    if toks.len() != 1 {
        return None;
    }
    proof {
        assert(toks@.map_values(|v: Vec<u8>| v@)[0] == toks@[0]@);
    }
    parse_usize(&toks[0])
}

/// The number a text holds as its only token: `None` unless the text is one token that
/// reads as a `u128`.
pub fn parse_single_u128(s: &str) -> (r: Option<u128>)
    ensures
        r is Some <==> tokens(s.spec_bytes()).len() == 1 && reads_u128(tokens(s.spec_bytes())[0]),
        r matches Some(v) ==> v == usize_value(tokens(s.spec_bytes())[0]),
{
    let t = s.as_bytes();
    let toks = tokens_of(t, 0, t.len());
    proof {
        assert(t@.subrange(0, t@.len() as int) =~= t@);
    }
    if toks.len() != 1 {
        return None;
    }
    proof {
        assert(toks@.map_values(|v: Vec<u8>| v@)[0] == toks@[0]@);
    }
    parse_u128(&toks[0])
}

/// Once a prefix of a string of digits is too large, the whole is too.
proof fn lemma_digits_rest_large(d: Seq<u8>, j: int, bound: int)
    requires
        0 <= j <= d.len(),
        0 <= bound,
        all_digits(d.take(j)),
        digits_value(d.take(j)) > bound,
    ensures
        !all_digits(d) || digits_value(d) > bound,
    decreases d.len() - j,
{
    if j < d.len() && all_digits(d) {
        assert(d.take(j + 1).drop_last() =~= d.take(j));
        assert(all_digits(d.take(j + 1)));
        lemma_digits_value_nonneg(d.take(j));
        lemma_digits_rest_large(d, j + 1, bound);
    } else if j == d.len() {
        assert(d.take(j) =~= d);
    }
}

} // verus!
