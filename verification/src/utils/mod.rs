//! Small helpers shared by the programs around the library.
use vstd::prelude::*;
use std::collections::HashSet;

verus! {

broadcast use vstd::std_specs::hash::group_hash_axioms;

/// The vertices that occur as an endpoint of some edge among the first `k` edges.
pub open spec fn endpoints(data: Seq<(usize, usize)>, k: int) -> Set<usize> {
    Set::new(|x: usize| exists|i: int| 0 <= i < k && (data[i].0 == x || data[i].1 == x))
}

/// The number of distinct vertices that occur in a list of edges.
pub fn count_nodes(data: &Vec<(usize, usize)>) -> (count: usize)
    ensures
        count == endpoints(data@, data.len() as int).len(),
{
    let mut nodes: HashSet<usize> = HashSet::new();
    let mut i: usize = 0;
    while i < data.len()
        invariant
            i <= data.len(),
            nodes@ == endpoints(data@, i as int),
            nodes@.finite(),
        decreases data.len() - i,
    {
        let (source, target) = data[i];
        nodes.insert(source);
        nodes.insert(target);
        proof {
            assert(nodes@ =~= endpoints(data@, i + 1)) by {
                assert forall|x: usize| #[trigger] endpoints(data@, i + 1).contains(x) implies nodes@.contains(x) by {
                    let j = choose|j: int| 0 <= j < i + 1 && (data@[j].0 == x || data@[j].1 == x);
                    if j < i {
                        assert(endpoints(data@, i as int).contains(x));
                    }
                }
                assert forall|x: usize| nodes@.contains(x) implies #[trigger] endpoints(data@, i + 1).contains(x) by {
                    if x == source || x == target {
                        assert(data@[i as int].0 == x || data@[i as int].1 == x);
                    } else {
                        let j = choose|j: int| 0 <= j < i && (data@[j].0 == x || data@[j].1 == x);
                    }
                }
            }
        }
        i = i + 1;
    }
    nodes.len()
}

} // verus!
