//! The text format of knapsack instances: whitespace-separated numbers.
use vstd::prelude::*;
use vstd::string::StringSliceAdditionalSpecFns;
use crate::algorithms::dp::SimpleKnapsackItem;
use super::text::{parse_usize, reads_usize, tokens, tokens_of, usize_value};

verus! {

/// The text holds a knapsack instance: its tokens begin with the item count `n`, the
/// capacity and `n` pairs of weight and value, all numbers.
pub open spec fn knapsack_text_ok(t: Seq<u8>) -> bool {
    let toks = tokens(t);
    &&& toks.len() >= 2
    &&& reads_usize(toks[0])
    &&& reads_usize(toks[1])
    &&& toks.len() >= 2 + 2 * usize_value(toks[0])
    &&& forall|i: int| 2 <= i < 2 + 2 * usize_value(toks[0]) ==> reads_usize(#[trigger] toks[i])
}

/// Reads a knapsack instance: the item count `n`, the capacity, then the weight and
/// the value of each item, as whitespace-separated numbers (anything after them is
/// ignored). `None` when the text holds no such instance.
pub fn parse_knapsack(s: &str) -> (r: Option<(usize, Vec<SimpleKnapsackItem>)>)
    ensures
        r is Some <==> knapsack_text_ok(s.spec_bytes()),
        r matches Some(x) ==> {
            let toks = tokens(s.spec_bytes());
            &&& x.0 == usize_value(toks[1])
            &&& x.1@.len() == usize_value(toks[0])
            &&& forall|i: int|
                0 <= i < x.1@.len() ==> (#[trigger] x.1@[i]).weight == usize_value(toks[2 + 2 * i])
                    && x.1@[i].value == usize_value(toks[3 + 2 * i])
        },
{
    let t = s.as_bytes();
    let toks = tokens_of(t, 0, t.len());
    let ghost ts = tokens(s.spec_bytes());
    proof {
        assert(t@.subrange(0, t@.len() as int) =~= t@);
        assert forall|i: int| 0 <= i < toks@.len() implies (#[trigger] toks@[i])@ == ts[i] by {
            assert(toks@.map_values(|v: Vec<u8>| v@)[i] == ts[i]);
        }
    }
    if toks.len() < 2 {
        return None;
    }
    let n = match parse_usize(&toks[0]) {
        Some(x) => x,
        None => {
            return None;
        },
    };
    proof {
        assert(reads_usize(ts[0]));
    }
    let capacity = match parse_usize(&toks[1]) {
        Some(x) => x,
        None => {
            return None;
        },
    };
    if (toks.len() - 2) / 2 < n {
        proof {
            assert(toks.len() < 2 + 2 * n);
        }
        return None;
    }
    assert(toks.len() >= 2 + 2 * n);
    let mut items: Vec<SimpleKnapsackItem> = Vec::with_capacity(n);
    let mut i: usize = 0;
    while i < n
        invariant
            ts == tokens(s.spec_bytes()),
            toks@.len() == ts.len(),
            forall|j: int| 0 <= j < toks@.len() ==> (#[trigger] toks@[j])@ == ts[j],
            n == usize_value(ts[0]),
            ts.len() >= 2 + 2 * n,
            toks.len() >= 2 + 2 * n,
            reads_usize(ts[0]),
            i <= n,
            items.len() == i,
            forall|j: int| 2 <= j < 2 + 2 * i ==> reads_usize(#[trigger] ts[j]),
            forall|j: int|
                0 <= j < i ==> (#[trigger] items@[j]).weight == usize_value(ts[2 + 2 * j]) && items@[j].value
                    == usize_value(ts[3 + 2 * j]),
        decreases n - i,
    {
        assert(3 + 2 * i < toks.len());
        proof {
            assert(toks@[2 + 2 * i]@ == ts[2 + 2 * i]);
            assert(toks@[3 + 2 * i]@ == ts[3 + 2 * i]);
        }
        let w = parse_usize(&toks[2 + 2 * i]);
        let v = parse_usize(&toks[3 + 2 * i]);
        match (w, v) {
            (Some(weight), Some(value)) => {
                items.push(SimpleKnapsackItem { weight, value });
            },
            _ => {
                proof {
                    assert(!reads_usize(ts[2 + 2 * i]) || !reads_usize(ts[3 + 2 * i]));
                    let j: int = if !reads_usize(ts[2 + 2 * i]) {
                        2 + 2 * i
                    } else {
                        3 + 2 * i
                    };
                    assert(2 <= j < 2 + 2 * usize_value(ts[0]));
                    assert(!reads_usize(ts[j]));
                    assert(!knapsack_text_ok(s.spec_bytes()));
                }
                return None;
            },
        }
        i = i + 1;
    }
    Some((capacity, items))
}

} // verus!
