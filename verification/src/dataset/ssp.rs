//! The text formats of shortest path instances and their answers.
use vstd::prelude::*;
use vstd::string::StringSliceAdditionalSpecFns;
use super::dfs::reads_u64;
use super::text::{parse_u128, parse_usize, reads_usize, tokens, tokens_of, usize_value};

verus! {

/// The adjacency list built from the first `count` edges of an instance whose tokens
/// are `ts` (vertices `0..=n`): edge `e` is the triple of tokens `3 + 3e`, `4 + 3e`,
/// `5 + 3e`, its source, target and weight, appended to the row of its source.
pub open spec fn ssp_rows(ts: Seq<Seq<u8>>, n: int, count: int) -> Seq<Seq<(usize, usize)>>
    decreases count,
{
    if count <= 0 {
        Seq::new((n + 1) as nat, |u: int| Seq::<(usize, usize)>::empty())
    } else {
        let r = ssp_rows(ts, n, count - 1);
        let b = 3 + 3 * (count - 1);
        let u = usize_value(ts[b]);
        r.update(u, r[u].push((usize_value(ts[b + 1]) as usize, usize_value(ts[b + 2]) as usize)))
    }
}

/// The text holds a shortest path instance: its tokens begin with the vertex count
/// `n`, the edge count `m`, the source and `m` triples of source, target and weight,
/// all numbers, with sources at most `n`.
pub open spec fn ssp_text_ok(t: Seq<u8>) -> bool {
    let ts = tokens(t);
    let n = usize_value(ts[0]);
    let m = usize_value(ts[1]);
    &&& ts.len() >= 3
    &&& reads_usize(ts[0])
    &&& reads_usize(ts[1])
    &&& reads_usize(ts[2])
    &&& n < usize::MAX
    &&& ts.len() >= 3 + 3 * m
    &&& forall|i: int| 3 <= i < 3 + 3 * m ==> reads_usize(#[trigger] ts[i])
    &&& forall|e: int| 0 <= e < m ==> usize_value(#[trigger] ts[3 + 3 * e]) <= n
}

/// Reads a shortest path instance: the vertex count `n`, the edge count `m`, the
/// source, then `m` edges as source, target and weight, all whitespace-separated
/// (anything after them is ignored). The result is the source and the adjacency list
/// of vertices `0..=n`. `None` when the text holds no such instance.
pub fn parse_ssp_input(s: &str) -> (r: Option<(usize, Vec<Vec<(usize, usize)>>)>)
    ensures
        r is Some <==> ssp_text_ok(s.spec_bytes()),
        r matches Some(x) ==> {
            let ts = tokens(s.spec_bytes());
            &&& x.0 == usize_value(ts[2])
            &&& x.1@.map_values(|row: Vec<(usize, usize)>| row@) == ssp_rows(
                ts,
                usize_value(ts[0]),
                usize_value(ts[1]),
            )
        },
{
    let t = s.as_bytes();
    let toks = tokens_of(t, 0, t.len());
    let ghost ts = tokens(s.spec_bytes());
    proof {
        assert(t@.subrange(0, t@.len() as int) =~= t@);
        assert forall|i: int| 0 <= i < toks@.len() implies (#[trigger] toks@[i])@ == ts[i] by {
            assert(toks@.map_values(|v: Vec<u8>| v@)[i] == ts[i]);
        }
    }
    if toks.len() < 3 {
        return None;
    }
    let n = match parse_usize(&toks[0]) {
        Some(x) => x,
        None => {
            return None;
        },
    };
    let m = match parse_usize(&toks[1]) {
        Some(x) => x,
        None => {
            return None;
        },
    };
    let source = match parse_usize(&toks[2]) {
        Some(x) => x,
        None => {
            return None;
        },
    };
    proof {
        assert(reads_usize(ts[0]) && reads_usize(ts[1]) && reads_usize(ts[2]));
    }
    if n == usize::MAX {
        return None;
    }
    if (toks.len() - 3) / 3 < m {
        proof {
            assert(toks.len() < 3 + 3 * m);
        }
        return None;
    }
    let mut rows: Vec<Vec<(usize, usize)>> = Vec::with_capacity(n + 1);
    let mut u: usize = 0;
    while u <= n
        invariant
            n < usize::MAX,
            u <= n + 1,
            rows.len() == u,
            forall|x: int| 0 <= x < u ==> (#[trigger] rows@[x])@ == Seq::<(usize, usize)>::empty(),
        decreases n + 1 - u,
    {
        rows.push(Vec::new());
        proof {
            assert(rows@[u as int]@ =~= Seq::<(usize, usize)>::empty());
        }
        u = u + 1;
    }
    proof {
        assert(rows@.map_values(|row: Vec<(usize, usize)>| row@) =~= ssp_rows(ts, n as int, 0));
    }
    let mut e: usize = 0;
    while e < m
        invariant
            ts == tokens(s.spec_bytes()),
            toks@.len() == ts.len(),
            forall|j: int| 0 <= j < toks@.len() ==> (#[trigger] toks@[j])@ == ts[j],
            n == usize_value(ts[0]),
            m == usize_value(ts[1]),
            reads_usize(ts[0]),
            toks.len() >= 3 + 3 * m,
            n < usize::MAX,
            rows.len() == n + 1,
            e <= m,
            forall|j: int| 3 <= j < 3 + 3 * e ==> reads_usize(#[trigger] ts[j]),
            forall|j: int| 0 <= j < e ==> usize_value(#[trigger] ts[3 + 3 * j]) <= n,
            rows@.map_values(|row: Vec<(usize, usize)>| row@) == ssp_rows(ts, n as int, e as int),
        decreases m - e,
    {
        let b = 3 + 3 * e;
        proof {
            assert(toks@[b as int]@ == ts[b as int]);
            assert(toks@[b + 1]@ == ts[b + 1]);
            assert(toks@[b + 2]@ == ts[b + 2]);
        }
        let a = parse_usize(&toks[b]);
        let c = parse_usize(&toks[b + 1]);
        let w = parse_usize(&toks[b + 2]);
        match (a, c, w) {
            (Some(from), Some(to), Some(weight)) => {
                if from > n {
                    proof {
                        assert(usize_value(ts[3 + 3 * e]) > n);
                        assert(!ssp_text_ok(s.spec_bytes()));
                    }
                    return None;
                }
                let ghost before = rows@.map_values(|row: Vec<(usize, usize)>| row@);
                rows[from].push((to, weight));
                proof {
                    assert(rows@.map_values(|row: Vec<(usize, usize)>| row@) =~= before.update(
                        from as int,
                        before[from as int].push((to, weight)),
                    ));
                }
            },
            _ => {
                proof {
                    let j: int = if !reads_usize(ts[b as int]) {
                        b as int
                    } else if !reads_usize(ts[b + 1]) {
                        b + 1
                    } else {
                        b + 2
                    };
                    assert(!reads_usize(ts[j]));
                    assert(!ssp_text_ok(s.spec_bytes()));
                }
                return None;
            },
        }
        e = e + 1;
    }
    Some((source, rows))
}

/// A token of an answer file: a distance, or `-1` for an unreachable vertex.
pub open spec fn distance_token(tok: Seq<u8>) -> bool {
    tok == seq![45u8, 49u8] || reads_u64(tok)
}

/// The distance a token stands for (`u64::MAX` for `-1`).
pub open spec fn distance_value(tok: Seq<u8>) -> u64 {
    if tok == seq![45u8, 49u8] {
        u64::MAX
    } else {
        usize_value(tok) as u64
    }
}

/// Reads the distances of vertices `1..=n` (the first `n` whitespace-separated
/// tokens, `-1` for an unreachable vertex); the result has vertex 0 first, at
/// distance 0. `None` when there are too few tokens or one is not a distance.
pub fn parse_ssp_output(s: &str, n: usize) -> (r: Option<Vec<u64>>)
    ensures
        r is Some <==> n < usize::MAX && tokens(s.spec_bytes()).len() >= n && forall|i: int|
            0 <= i < n ==> distance_token(#[trigger] tokens(s.spec_bytes())[i]),
        r matches Some(v) ==> v@ == seq![0u64] + Seq::new(
            n as nat,
            |i: int| distance_value(tokens(s.spec_bytes())[i]),
        ),
{
    let t = s.as_bytes();
    let toks = tokens_of(t, 0, t.len());
    let ghost ts = tokens(s.spec_bytes());
    proof {
        assert(t@.subrange(0, t@.len() as int) =~= t@);
        assert forall|i: int| 0 <= i < toks@.len() implies (#[trigger] toks@[i])@ == ts[i] by {
            assert(toks@.map_values(|v: Vec<u8>| v@)[i] == ts[i]);
        }
    }
    if n == usize::MAX || toks.len() < n {
        return None;
    }
    let mut dist: Vec<u64> = Vec::with_capacity(n + 1);
    dist.push(0);
    let mut i: usize = 0;
    while i < n
        invariant
            ts == tokens(s.spec_bytes()),
            toks@.len() == ts.len(),
            forall|j: int| 0 <= j < toks@.len() ==> (#[trigger] toks@[j])@ == ts[j],
            toks.len() >= n,
            i <= n,
            forall|j: int| 0 <= j < i ==> distance_token(#[trigger] ts[j]),
            dist@ == seq![0u64] + Seq::new(i as nat, |j: int| distance_value(ts[j])),
        decreases n - i,
    {
        let tok = &toks[i];
        proof {
            assert(tok@ == ts[i as int]);
        }
        let d: u64;
        if tok.len() == 2 && tok[0] == 45 && tok[1] == 49 {
            proof {
                assert(tok@ =~= seq![45u8, 49u8]);
            }
            d = u64::MAX;
        } else {
            proof {
                assert(tok@ != seq![45u8, 49u8]) by {
                    if tok@ == seq![45u8, 49u8] {
                        assert(tok@.len() == 2 && tok@[0] == 45 && tok@[1] == 49);
                    }
                }
            }
            match parse_u128(tok) {
                Some(x) => {
                    if x > u64::MAX as u128 {
                        return None;
                    }
                    d = x as u64;
                },
                None => {
                    return None;
                },
            }
        }
        dist.push(d);
        proof {
            assert(dist@ =~= seq![0u64] + Seq::new((i + 1) as nat, |j: int| distance_value(ts[j])));
        }
        i = i + 1;
    }
    Some(dist)
}

} // verus!
