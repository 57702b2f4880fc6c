//! The text format of batch scheduling instances.
use vstd::prelude::*;
use vstd::string::StringSliceAdditionalSpecFns;
use crate::algorithms::dp::{BatchScheduling, batch_fits, is_optimal_batch_cost};
use super::text::{token_lines, token_lines_of, parse_usize, reads_usize, usize_value};

verus! {

/// A line of a single token that reads as a `usize`.
pub open spec fn number_line(l: Seq<Seq<u8>>) -> bool {
    l.len() == 1 && reads_usize(l[0])
}

/// Every token of a line reads as a `usize`.
pub open spec fn numbers_line(l: Seq<Seq<u8>>) -> bool {
    forall|i: int| 0 <= i < l.len() ==> reads_usize(#[trigger] l[i])
}

/// The values of the tokens of a line.
pub open spec fn line_values(l: Seq<Seq<u8>>) -> Seq<usize> {
    l.map_values(|tok: Seq<u8>| usize_value(tok) as usize)
}

/// The text holds an instance: among its lines that hold a token, the startup time,
/// the number of jobs `n`, the `n` durations and the `n` fees, each line of numbers;
/// and then either a line with the expected cost or an instance small enough to
/// compute it.
pub open spec fn batch_text_ok(t: Seq<u8>) -> bool {
    let ls = token_lines(t);
    &&& ls.len() >= 4
    &&& number_line(ls[0])
    &&& number_line(ls[1])
    &&& numbers_line(ls[2])
    &&& numbers_line(ls[3])
    &&& ls[2].len() == usize_value(ls[1][0])
    &&& ls[3].len() == usize_value(ls[1][0])
    &&& if ls.len() >= 5 {
        number_line(ls[4])
    } else {
        batch_fits(usize_value(ls[0][0]) as int, line_values(ls[2]), line_values(ls[3]))
    }
}


/// The values of the tokens of a line of numbers.
fn values_of(l: &Vec<Vec<u8>>) -> (r: Vec<usize>)
    requires
        numbers_line(l@.map_values(|v: Vec<u8>| v@)),
    ensures
        r@ == line_values(l@.map_values(|v: Vec<u8>| v@)),
{
    let ghost ls = l@.map_values(|v: Vec<u8>| v@);
    let mut r: Vec<usize> = Vec::new();
    let mut i: usize = 0;
    while i < l.len()
        invariant
            i <= l.len(),
            ls == l@.map_values(|v: Vec<u8>| v@),
            numbers_line(ls),
            r@ == line_values(ls).take(i as int),
        decreases l.len() - i,
    {
        proof {
            assert(ls[i as int] == l@[i as int]@);
            assert(reads_usize(ls[i as int]));
        }
        let x = parse_usize(&l[i]);
        r.push(x.unwrap());
        i = i + 1;
        proof {
            assert(r@ =~= line_values(ls).take(i as int));
        }
    }
    proof {
        assert(line_values(ls).take(l.len() as int) =~= line_values(ls));
    }
    r
}

/// Reads a batch scheduling instance and its least total cost from text: the lines
/// that hold a token give the startup time, the number of jobs `n`, the `n`
/// durations and the `n` fees; a fifth such line, when there is one, gives the cost,
/// which is computed otherwise. `None` when the text holds no such instance.
pub fn parse_batch_scheduling(s: &str) -> (r: Option<(BatchScheduling, usize)>)
    ensures
        r is Some <==> batch_text_ok(s.spec_bytes()),
        r matches Some(x) ==> {
            let ls = token_lines(s.spec_bytes());
            &&& x.0.startup_time() == usize_value(ls[0][0])
            &&& x.0.durations() == line_values(ls[2])
            &&& x.0.fees() == line_values(ls[3])
            &&& if ls.len() >= 5 {
                x.1 == usize_value(ls[4][0])
            } else {
                is_optimal_batch_cost(x.0.startup_time(), x.0.durations(), x.0.fees(), x.1 as int)
            }
        },
{
    let bytes = s.as_bytes();
    let lines = token_lines_of(bytes);
    let ghost ls = token_lines(s.spec_bytes());
    proof {
        assert(lines@.len() == ls.len());
        assert forall|k: int| 0 <= k < lines@.len() implies (#[trigger] lines@[k])@.map_values(|v: Vec<u8>| v@) == ls[k] by {
            assert(lines@.map_values(|l: Vec<Vec<u8>>| l@.map_values(|v: Vec<u8>| v@))[k] == ls[k]);
        }
    }
    if lines.len() < 4 {
        return None;
    }
    if lines[0].len() != 1 || lines[1].len() != 1 {
        return None;
    }
    let startup = match parse_usize(&lines[0][0]) {
        Some(x) => x,
        None => {
            return None;
        },
    };
    let n = match parse_usize(&lines[1][0]) {
        Some(x) => x,
        None => {
            return None;
        },
    };
    proof {
        assert(ls[0][0] == lines@[0]@[0]@);
        assert(ls[1][0] == lines@[1]@[0]@);
    }
    if lines[2].len() != n || lines[3].len() != n {
        return None;
    }
    let mut j: usize = 0;
    while j < n
        invariant
            j <= n,
            ls == token_lines(s.spec_bytes()),
            lines@.len() == ls.len(),
            forall|k: int| 0 <= k < lines@.len() ==> (#[trigger] lines@[k])@.map_values(|v: Vec<u8>| v@) == ls[k],
            lines@.len() >= 4,
            lines[2].len() == n,
            lines[3].len() == n,
            forall|q: int| 0 <= q < j ==> reads_usize(#[trigger] lines@[2]@[q]@),
            forall|q: int| 0 <= q < j ==> reads_usize(#[trigger] lines@[3]@[q]@),
        decreases n - j,
    {
        let a = parse_usize(&lines[2][j]);
        let b = parse_usize(&lines[3][j]);
        if a.is_none() || b.is_none() {
            proof {
                assert(lines@[2]@.map_values(|v: Vec<u8>| v@) == ls[2]);
                assert(lines@[3]@.map_values(|v: Vec<u8>| v@) == ls[3]);
                assert(ls[2][j as int] == lines@[2]@[j as int]@);
                assert(ls[3][j as int] == lines@[3]@[j as int]@);
                assert(!numbers_line(ls[2]) || !numbers_line(ls[3]));
            }
            return None;
        }
        proof {
            assert(reads_usize(lines@[2]@[j as int]@) && reads_usize(lines@[3]@[j as int]@));
        }
        j = j + 1;
    }
    proof {
        assert(lines@[2]@.map_values(|v: Vec<u8>| v@) == ls[2]);
        assert(lines@[3]@.map_values(|v: Vec<u8>| v@) == ls[3]);
        assert forall|q: int| 0 <= q < ls[2].len() implies reads_usize(#[trigger] ls[2][q]) by {
            assert(ls[2][q] == lines@[2]@[q]@);
        }
        assert forall|q: int| 0 <= q < ls[3].len() implies reads_usize(#[trigger] ls[3][q]) by {
            assert(lines@[3]@.map_values(|v: Vec<u8>| v@)[q] == ls[3][q]);
            assert(ls[3][q] == lines@[3]@[q]@);
            assert(reads_usize(lines@[3]@[q]@));
        }
    }
    let duration = values_of(&lines[2]);
    let fee = values_of(&lines[3]);
    proof {
        assert(duration@ == line_values(ls[2]));
        assert(fee@ == line_values(ls[3]));
        assert(usize_value(ls[1][0]) == n);
        assert(number_line(ls[0]) && number_line(ls[1]));
    }
    if lines.len() >= 5 {
        if lines[4].len() != 1 {
            return None;
        }
        proof {
            assert(lines@[4]@.map_values(|v: Vec<u8>| v@) == ls[4]);
            assert(ls[4][0] == lines@[4]@[0]@);
        }
        let exp = match parse_usize(&lines[4][0]) {
            Some(x) => x,
            None => {
                return None;
            },
        };
        Some((BatchScheduling::new(startup, duration, fee), exp))
    } else {
        let p = BatchScheduling::new(startup, duration, fee);
        match p.solve_checked() {
            Some(exp) => Some((p, exp)),
            None => None,
        }
    }
}

} // verus!
