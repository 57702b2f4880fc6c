//! The text formats of separator-free dictionary and weighted vertex cover instances.
use vstd::prelude::*;
use vstd::string::StringSliceAdditionalSpecFns;
use crate::algorithms::dfs::sfd::{
    is_max_dictionary_size, lemma_power_increases, max_sfd_size, power, MAX_SEPARATOR_SEARCH_STATES,
};
use crate::algorithms::dfs::vertex_cover::{covers, mask_weight, vertex_mask, WeightedVertexCover};
use super::dp::number_line;
use super::text::{parse_u128, parse_usize, reads_u128, reads_usize, token_lines, token_lines_of, usize_value};

verus! {

/// The search for the largest dictionary over `n` letters and words of length `k`
/// stays within [`MAX_SEPARATOR_SEARCH_STATES`] words.
pub open spec fn search_fits(n: int, k: int) -> bool {
    n == 0 || k == 0 || power(n, k as nat) <= MAX_SEPARATOR_SEARCH_STATES
}

/// The text holds a separator-free dictionary instance: among its lines that hold a
/// token, a first line whose first two tokens read as the alphabet size `n` and the
/// word length `k`; then either a line with the expected largest size, or an instance
/// small enough to search.
pub open spec fn sfd_text_ok(t: Seq<u8>) -> bool {
    let ls = token_lines(t);
    &&& ls.len() >= 1
    &&& ls[0].len() >= 2
    &&& reads_usize(ls[0][0])
    &&& reads_usize(ls[0][1])
    &&& if ls.len() >= 2 {
        number_line(ls[1])
    } else {
        search_fits(usize_value(ls[0][0]), usize_value(ls[0][1]))
    }
}

/// Whether the search for `n` letters and words of length `k` stays within
/// [`MAX_SEPARATOR_SEARCH_STATES`] words.
fn fits_search(n: usize, k: usize) -> (r: bool)
    ensures
        r == search_fits(n as int, k as int),
{
    if n == 0 || k == 0 {
        return true;
    }
    let mut states: usize = 1;
    let mut i: usize = 0;
    while i < k
        invariant
            n >= 1,
            i <= k,
            states == power(n as int, i as nat),
            states <= MAX_SEPARATOR_SEARCH_STATES,
        decreases k - i,
    {
        proof {
            lemma_power_increases(n as int, (i + 1) as nat, k as nat);
            assert(power(n as int, (i + 1) as nat) == n * power(n as int, i as nat));
        }
        match states.checked_mul(n) {
            Some(next) => {
                if next > MAX_SEPARATOR_SEARCH_STATES {
                    return false;
                }
                states = next;
            },
            None => {
                return false;
            },
        }
        i = i + 1;
    }
    true
}

/// Reads a separator-free dictionary instance from text: among the lines that hold a
/// token, the first gives the alphabet size `n` and the word length `k` (its first two
/// tokens), and a second, when there is one, gives the expected largest size, which is
/// searched for otherwise. `None` when the text holds no such instance.
pub fn parse_separator_free_dictionary(s: &str) -> (r: Option<(usize, usize, usize)>)
    ensures
        r is Some <==> sfd_text_ok(s.spec_bytes()),
        r matches Some(x) ==> {
            let ls = token_lines(s.spec_bytes());
            &&& x.0 == usize_value(ls[0][0])
            &&& x.1 == usize_value(ls[0][1])
            &&& if ls.len() >= 2 {
                x.2 == usize_value(ls[1][0])
            } else if x.0 == 0 || x.1 == 0 {
                x.2 == 0
            } else {
                is_max_dictionary_size(x.0 as int, x.1 as int, x.2 as int)
            }
        },
{
    let bytes = s.as_bytes();
    let lines = token_lines_of(bytes);
    let ghost ls = token_lines(s.spec_bytes());
    proof {
        assert(lines@.len() == ls.len());
        assert forall|q: int| 0 <= q < lines@.len() implies (#[trigger] lines@[q])@.map_values(|v: Vec<u8>| v@) == ls[q] by {
            assert(lines@.map_values(|l: Vec<Vec<u8>>| l@.map_values(|v: Vec<u8>| v@))[q] == ls[q]);
        }
    }
    if lines.len() < 1 || lines[0].len() < 2 {
        return None;
    }
    proof {
        assert(ls[0][0] == lines@[0]@[0]@);
        assert(ls[0][1] == lines@[0]@[1]@);
    }
    let n = match parse_usize(&lines[0][0]) {
        Some(x) => x,
        None => {
            return None;
        },
    };
    let k = match parse_usize(&lines[0][1]) {
        Some(x) => x,
        None => {
            return None;
        },
    };
    if lines.len() >= 2 {
        if lines[1].len() != 1 {
            return None;
        }
        proof {
            assert(lines@[1]@.map_values(|v: Vec<u8>| v@) == ls[1]);
            assert(ls[1][0] == lines@[1]@[0]@);
        }
        let exp = match parse_usize(&lines[1][0]) {
            Some(x) => x,
            None => {
                return None;
            },
        };
        Some((n, k, exp))
    } else {
        if !fits_search(n, k) {
            return None;
        }
        let exp = max_sfd_size(n, k);
        Some((n, k, exp))
    }
}

/// A token reads as a `u64`.
pub open spec fn reads_u64(tok: Seq<u8>) -> bool {
    reads_u128(tok) && usize_value(tok) <= u64::MAX
}

/// A line whose first two tokens read as vertex numbers `1..=n`.
pub open spec fn edge_line(l: Seq<Seq<u8>>, n: int) -> bool {
    &&& l.len() >= 2
    &&& reads_usize(l[0])
    &&& reads_usize(l[1])
    &&& 1 <= usize_value(l[0]) <= n
    &&& 1 <= usize_value(l[1]) <= n
}

/// The text holds a weighted vertex cover instance: among its lines that hold a
/// token, a first line whose first two tokens read as the vertex count `n` and the
/// edge count `m`; `m` edge lines (the first two tokens of each, vertices numbered from
/// 1); a line of `n` weights; and, when there is a further line, the expected least
/// weight. At least three such lines, and sizes the solver can index.
pub open spec fn vertex_cover_text_ok(t: Seq<u8>) -> bool {
    let ls = token_lines(t);
    let n = usize_value(ls[0][0]);
    let m = usize_value(ls[0][1]);
    &&& ls.len() >= 3
    &&& ls[0].len() >= 2
    &&& reads_usize(ls[0][0])
    &&& reads_usize(ls[0][1])
    &&& ls.len() >= 2 + m
    &&& forall|e: int| 0 <= e < m ==> edge_line(#[trigger] ls[1 + e], n)
    &&& ls[1 + m].len() == n
    &&& forall|i: int| 0 <= i < n ==> reads_u64(#[trigger] ls[1 + m][i])
    &&& n <= usize::MAX / 8
    &&& m <= usize::MAX / 4
    &&& ls.len() >= 3 + m ==> ls[2 + m].len() == 1 && reads_u128(ls[2 + m][0])
}

/// `w` is the least weight of a vertex cover of `edges` over `n` vertices.
pub open spec fn is_least_cover_weight(edges: Seq<(usize, usize)>, weight: Seq<u64>, n: int, w: int) -> bool {
    &&& exists|x: Seq<bool>| x.len() == n && covers(edges, x) && mask_weight(weight, x) == w
    &&& forall|x: Seq<bool>| x.len() == n && covers(edges, x) ==> w <= #[trigger] mask_weight(weight, x)
}

/// Reads a weighted vertex cover instance and its least weight from text: among the
/// lines that hold a token, the first gives `n` and `m`, the next `m` give the edges
/// (vertices numbered from 1), the next the `n` weights, and the one after, when there
/// is one, the least weight, which is computed otherwise. `None` when the text holds
/// no such instance.
pub fn parse_vertex_cover(s: &str) -> (r: Option<(WeightedVertexCover, u128)>)
    ensures
        r is Some <==> vertex_cover_text_ok(s.spec_bytes()),
        r matches Some(x) ==> {
            let ls = token_lines(s.spec_bytes());
            let n = usize_value(ls[0][0]);
            let m = usize_value(ls[0][1]);
            &&& x.0.vertices_n() == n
            &&& x.0.edge_list() == Seq::new(
                m as nat,
                |e: int| ((usize_value(ls[1 + e][0]) - 1) as usize, (usize_value(ls[1 + e][1]) - 1) as usize),
            )
            &&& x.0.weights() == Seq::new(n as nat, |i: int| usize_value(ls[1 + m][i]) as u64)
            &&& if ls.len() >= 3 + m {
                x.1 == usize_value(ls[2 + m][0])
            } else {
                is_least_cover_weight(x.0.edge_list(), x.0.weights(), n, x.1 as int)
            }
        },
{
    let bytes = s.as_bytes();
    let lines = token_lines_of(bytes);
    let ghost ls = token_lines(s.spec_bytes());
    proof {
        assert(lines@.len() == ls.len());
        assert forall|q: int| 0 <= q < lines@.len() implies (#[trigger] lines@[q])@.map_values(|v: Vec<u8>| v@) == ls[q] by {
            assert(lines@.map_values(|l: Vec<Vec<u8>>| l@.map_values(|v: Vec<u8>| v@))[q] == ls[q]);
        }
    }
    if lines.len() < 3 || lines[0].len() < 2 {
        return None;
    }
    proof {
        assert(ls[0][0] == lines@[0]@[0]@);
        assert(ls[0][1] == lines@[0]@[1]@);
    }
    let n = match parse_usize(&lines[0][0]) {
        Some(x) => x,
        None => {
            return None;
        },
    };
    let m = match parse_usize(&lines[0][1]) {
        Some(x) => x,
        None => {
            return None;
        },
    };
    if m > usize::MAX / 4 || n > usize::MAX / 8 || lines.len() < 2 + m {
        return None;
    }
    let mut edges: Vec<(usize, usize)> = Vec::with_capacity(m);
    let mut e: usize = 0;
    while e < m
        invariant
            ls == token_lines(s.spec_bytes()),
            lines@.len() == ls.len(),
            forall|q: int| 0 <= q < lines@.len() ==> (#[trigger] lines@[q])@.map_values(|v: Vec<u8>| v@) == ls[q],
            n == usize_value(ls[0][0]),
            m == usize_value(ls[0][1]),
            m <= usize::MAX / 4,
            lines@.len() >= 2 + m,
            e <= m,
            edges.len() == e,
            forall|q: int| 0 <= q < e ==> edge_line(#[trigger] ls[1 + q], n as int),
            forall|q: int|
                0 <= q < e ==> #[trigger] edges@[q] == (
                    (usize_value(ls[1 + q][0]) - 1) as usize,
                    (usize_value(ls[1 + q][1]) - 1) as usize,
                ),
            forall|q: int| 0 <= q < e ==> #[trigger] edges@[q].0 < n && edges@[q].1 < n,
        decreases m - e,
    {
        let line = &lines[1 + e];
        proof {
            assert(line@.map_values(|v: Vec<u8>| v@) == ls[1 + e]);
        }
        if line.len() < 2 {
            return None;
        }
        proof {
            assert(ls[1 + e][0] == line@[0]@);
            assert(ls[1 + e][1] == line@[1]@);
        }
        let u1 = match parse_usize(&line[0]) {
            Some(x) => x,
            None => {
                return None;
            },
        };
        let v1 = match parse_usize(&line[1]) {
            Some(x) => x,
            None => {
                return None;
            },
        };
        if u1 < 1 || u1 > n || v1 < 1 || v1 > n {
            return None;
        }
        edges.push((u1 - 1, v1 - 1));
        e = e + 1;
    }
    let wline = &lines[1 + m];
    proof {
        assert(wline@.map_values(|v: Vec<u8>| v@) == ls[1 + m]);
    }
    if wline.len() != n {
        return None;
    }
    let mut weight: Vec<u64> = Vec::with_capacity(n);
    let mut i: usize = 0;
    while i < n
        invariant
            ls == token_lines(s.spec_bytes()),
            wline@.map_values(|v: Vec<u8>| v@) == ls[1 + m],
            n == usize_value(ls[0][0]),
            m == usize_value(ls[0][1]),
            wline.len() == n,
            i <= n,
            weight.len() == i,
            forall|q: int| 0 <= q < i ==> reads_u64(#[trigger] ls[1 + m][q]),
            forall|q: int| 0 <= q < i ==> #[trigger] weight@[q] == usize_value(ls[1 + m][q]),
        decreases n - i,
    {
        proof {
            assert(ls[1 + m][i as int] == wline@[i as int]@);
        }
        let x = match parse_u128(&wline[i]) {
            Some(x) => x,
            None => {
                return None;
            },
        };
        if x > u64::MAX as u128 {
            return None;
        }
        weight.push(x as u64);
        i = i + 1;
    }
    let ghost es = edges@;
    let ghost ws = weight@;
    proof {
        assert(es =~= Seq::new(
            m as nat,
            |q: int| ((usize_value(ls[1 + q][0]) - 1) as usize, (usize_value(ls[1 + q][1]) - 1) as usize),
        ));
        assert(ws =~= Seq::new(n as nat, |q: int| usize_value(ls[1 + m][q]) as u64));
    }
    let g = WeightedVertexCover::new(n, edges, weight);
    if lines.len() >= 3 + m {
        let last = &lines[2 + m];
        proof {
            assert(last@.map_values(|v: Vec<u8>| v@) == ls[2 + m]);
        }
        if last.len() != 1 {
            return None;
        }
        proof {
            assert(ls[2 + m][0] == last@[0]@);
        }
        let exp = match parse_u128(&last[0]) {
            Some(x) => x,
            None => {
                return None;
            },
        };
        Some((g, exp))
    } else {
        let sol = g.min_weight_vertex_cover_branch_bound();
        proof {
            let x = vertex_mask(sol.vertices@, n as int);
            assert(x.len() == n);
        }
        Some((g, sol.total_weight))
    }
}

} // verus!
