//! The text formats of the edge-list data sets: one edge per line.
use vstd::prelude::*;
use vstd::string::StringSliceAdditionalSpecFns;
use super::text::{lines_of, parse_usize, pieces_of, reads_usize, split_at_byte, text_lines, usize_value};

verus! {

/// A line that holds no edge: an empty one, or, where comments are allowed, one that
/// starts with `#`.
pub open spec fn skipped_line(l: Seq<u8>, comments: bool) -> bool {
    l.len() == 0 || (comments && l[0] == 35)
}

/// A line of exactly two numbers separated by the byte `sep`.
pub open spec fn pair_line(l: Seq<u8>, sep: u8) -> bool {
    let p = split_at_byte(l, sep);
    &&& p.len() == 2
    &&& reads_usize(p[0])
    &&& reads_usize(p[1])
}

/// The two numbers of a pair line.
pub open spec fn pair_of(l: Seq<u8>, sep: u8) -> (usize, usize) {
    let p = split_at_byte(l, sep);
    (usize_value(p[0]) as usize, usize_value(p[1]) as usize)
}

/// Every line is skipped or is a pair line.
pub open spec fn pair_lines_ok(ls: Seq<Seq<u8>>, sep: u8, comments: bool) -> bool {
    forall|k: int| 0 <= k < ls.len() ==> skipped_line(#[trigger] ls[k], comments) || pair_line(ls[k], sep)
}

/// The pairs of the lines that are not skipped, in order.
pub open spec fn pairs_of(ls: Seq<Seq<u8>>, sep: u8, comments: bool) -> Seq<(usize, usize)>
    decreases ls.len(),
{
    if ls.len() == 0 {
        Seq::empty()
    } else {
        let r = pairs_of(ls.drop_last(), sep, comments);
        if skipped_line(ls.last(), comments) {
            r
        } else {
            r.push(pair_of(ls.last(), sep))
        }
    }
}

/// The pairs of numbers of the lines of `t` that are not skipped.
fn parse_pairs(t: &[u8], sep: u8, comments: bool) -> (r: Option<Vec<(usize, usize)>>)
    ensures
        r is Some <==> pair_lines_ok(text_lines(t@), sep, comments),
        r matches Some(v) ==> v@ == pairs_of(text_lines(t@), sep, comments),
{
    let lines = lines_of(t);
    let ghost ls = text_lines(t@);
    let mut out: Vec<(usize, usize)> = Vec::new();
    let mut k: usize = 0;
    while k < lines.len()
        invariant
            lines@.map_values(|v: Vec<u8>| v@) == ls,
            ls == text_lines(t@),
            k <= lines.len(),
            pair_lines_ok(ls.take(k as int), sep, comments),
            out@ == pairs_of(ls.take(k as int), sep, comments),
        decreases lines.len() - k,
    {
        let line = &lines[k];
        proof {
            assert(line@ == ls[k as int]);
            assert(ls.take(k + 1).drop_last() =~= ls.take(k as int));
            assert(ls.take(k + 1).last() == ls[k as int]);
        }
        if line.len() == 0 || (comments && line[0] == 35) {
            proof {
                assert forall|j: int| 0 <= j < k + 1 implies skipped_line(#[trigger] ls.take(k + 1)[j], comments)
                    || pair_line(ls.take(k + 1)[j], sep) by {
                    if j < k {
                        assert(ls.take(k + 1)[j] == ls.take(k as int)[j]);
                    }
                }
            }
        } else {
            let p = pieces_of(line.as_slice(), 0, line.len(), sep);
            proof {
                assert(line@.subrange(0, line@.len() as int) =~= line@);
                assert(p@.map_values(|v: Vec<u8>| v@) == split_at_byte(ls[k as int], sep));
            }
            if p.len() != 2 {
                proof {
                    assert(!pair_line(ls[k as int], sep));
                    assert(!pair_lines_ok(ls, sep, comments)) by {
                        assert(!skipped_line(ls[k as int], comments));
                    }
                }
                return None;
            }
            proof {
                assert(p@[0]@ == split_at_byte(ls[k as int], sep)[0]);
                assert(p@[1]@ == split_at_byte(ls[k as int], sep)[1]);
            }
            let a = parse_usize(&p[0]);
            let b = parse_usize(&p[1]);
            match (a, b) {
                (Some(x), Some(y)) => {
                    out.push((x, y));
                    proof {
                        assert forall|j: int| 0 <= j < k + 1 implies skipped_line(#[trigger] ls.take(k + 1)[j], comments)
                            || pair_line(ls.take(k + 1)[j], sep) by {
                            if j < k {
                                assert(ls.take(k + 1)[j] == ls.take(k as int)[j]);
                            }
                        }
                    }
                },
                _ => {
                    proof {
                        assert(!pair_line(ls[k as int], sep));
                        assert(!skipped_line(ls[k as int], comments));
                    }
                    return None;
                },
            }
        }
        k = k + 1;
    }
    proof {
        assert(ls.take(lines.len() as int) =~= ls);
    }
    Some(out)
}

/// The edges of the Google web graph file: one edge `from<TAB>to` per line; empty lines
/// and lines that start with `#` hold none. `None` when a line is malformed.
pub fn parse_google_dataset(s: &str) -> (r: Option<Vec<(usize, usize)>>)
    ensures
        r is Some <==> pair_lines_ok(text_lines(s.spec_bytes()), 9, true),
        r matches Some(v) ==> v@ == pairs_of(text_lines(s.spec_bytes()), 9, true),
{
    parse_pairs(s.as_bytes(), 9, true)
}

/// The edges of the Twitter graph file: one edge `from to` per line; empty lines hold
/// none. `None` when a line is malformed.
pub fn parse_twitter_dataset(s: &str) -> (r: Option<Vec<(usize, usize)>>)
    ensures
        r is Some <==> pair_lines_ok(text_lines(s.spec_bytes()), 32, false),
        r matches Some(v) ==> v@ == pairs_of(text_lines(s.spec_bytes()), 32, false),
{
    parse_pairs(s.as_bytes(), 32, false)
}

/// A line of exactly three fields separated by commas.
pub open spec fn csv3_line(l: Seq<u8>) -> bool {
    split_at_byte(l, 44).len() == 3
}

/// The relations of the lines after the header that are not empty: their first two
/// fields.
pub open spec fn relations_of(ls: Seq<Seq<u8>>) -> Seq<(Seq<u8>, Seq<u8>)>
    decreases ls.len(),
{
    if ls.len() <= 1 {
        Seq::empty()
    } else {
        let r = relations_of(ls.drop_last());
        if ls.last().len() == 0 {
            r
        } else {
            r.push((split_at_byte(ls.last(), 44)[0], split_at_byte(ls.last(), 44)[1]))
        }
    }
}

/// The character relations of the Three-Body file, as the bytes of the two names: a
/// header line, then one `source,target,kind` line per relation; empty lines hold
/// none. `None` when a line after the header does not have three fields.
pub fn parse_three_body_dataset(s: &str) -> (r: Option<Vec<(Vec<u8>, Vec<u8>)>>)
    ensures
        r is Some <==> forall|k: int|
            1 <= k < text_lines(s.spec_bytes()).len() ==> #[trigger] text_lines(s.spec_bytes())[k].len() == 0
                || csv3_line(text_lines(s.spec_bytes())[k]),
        r matches Some(v) ==> v@.map_values(|x: (Vec<u8>, Vec<u8>)| (x.0@, x.1@)) == relations_of(
            text_lines(s.spec_bytes()),
        ),
{
    let t = s.as_bytes();
    let lines = lines_of(t);
    let ghost ls = text_lines(s.spec_bytes());
    let mut out: Vec<(Vec<u8>, Vec<u8>)> = Vec::new();
    if lines.len() == 0 {
        return Some(out);
    }
    let mut k: usize = 1;
    proof {
        assert(out@.map_values(|x: (Vec<u8>, Vec<u8>)| (x.0@, x.1@)) =~= relations_of(ls.take(1)));
    }
    while k < lines.len()
        invariant
            lines@.map_values(|v: Vec<u8>| v@) == ls,
            ls == text_lines(s.spec_bytes()),
            1 <= k <= lines.len(),
            forall|j: int| 1 <= j < k ==> #[trigger] ls[j].len() == 0 || csv3_line(ls[j]),
            out@.map_values(|x: (Vec<u8>, Vec<u8>)| (x.0@, x.1@)) == relations_of(ls.take(k as int)),
        decreases lines.len() - k,
    {
        let line = &lines[k];
        let ghost before = out@.map_values(|x: (Vec<u8>, Vec<u8>)| (x.0@, x.1@));
        proof {
            assert(line@ == ls[k as int]);
            assert(ls.take(k + 1).drop_last() =~= ls.take(k as int));
            assert(ls.take(k + 1).last() == ls[k as int]);
        }
        if line.len() > 0 {
            let mut p = pieces_of(line.as_slice(), 0, line.len(), 44);
            proof {
                assert(line@.subrange(0, line@.len() as int) =~= line@);
                assert(p@.map_values(|v: Vec<u8>| v@) == split_at_byte(ls[k as int], 44));
            }
            if p.len() != 3 {
                return None;
            }
            let ghost p0 = p@[0]@;
            let ghost p1 = p@[1]@;
            proof {
                assert(p0 == split_at_byte(ls[k as int], 44)[0]);
                assert(p1 == split_at_byte(ls[k as int], 44)[1]);
            }
            let _kind = p.pop();
            let target = p.pop().unwrap();
            let source = p.pop().unwrap();
            out.push((source, target));
            proof {
                assert(out@.map_values(|x: (Vec<u8>, Vec<u8>)| (x.0@, x.1@)) =~= before.push((p0, p1)));
            }
        }
        k = k + 1;
    }
    proof {
        assert(ls.take(lines.len() as int) =~= ls);
    }
    Some(out)
}

} // verus!
