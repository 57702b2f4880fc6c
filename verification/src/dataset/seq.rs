//! The text format of the sequence data sets: one number per line.
use vstd::prelude::*;
use vstd::string::StringSliceAdditionalSpecFns;
use super::text::{lines_of, parse_usize, reads_usize, text_lines, usize_value};

verus! {

/// Reads one number per line (every line, as `str::lines` gives them). `None` when a
/// line does not read as a `usize`.
pub fn parse_number_lines(s: &str) -> (r: Option<Vec<usize>>)
    ensures
        r is Some <==> forall|k: int|
            0 <= k < text_lines(s.spec_bytes()).len() ==> reads_usize(#[trigger] text_lines(s.spec_bytes())[k]),
        r matches Some(v) ==> v@ == text_lines(s.spec_bytes()).map_values(|l: Seq<u8>| usize_value(l) as usize),
{
    let lines = lines_of(s.as_bytes());
    let ghost ls = text_lines(s.spec_bytes());
    let mut out: Vec<usize> = Vec::new();
    let mut k: usize = 0;
    while k < lines.len()
        invariant
            lines@.map_values(|v: Vec<u8>| v@) == ls,
            ls == text_lines(s.spec_bytes()),
            k <= lines.len(),
            forall|j: int| 0 <= j < k ==> reads_usize(#[trigger] ls[j]),
            out@ == ls.take(k as int).map_values(|l: Seq<u8>| usize_value(l) as usize),
        decreases lines.len() - k,
    {
        proof {
            assert(lines@[k as int]@ == ls[k as int]);
        }
        match parse_usize(&lines[k]) {
            Some(x) => {
                out.push(x);
                proof {
                    assert(out@ =~= ls.take(k + 1).map_values(|l: Seq<u8>| usize_value(l) as usize));
                }
            },
            None => {
                return None;
            },
        }
        k = k + 1;
    }
    proof {
        assert(ls.take(lines.len() as int) =~= ls);
    }
    Some(out)
}

} // verus!
