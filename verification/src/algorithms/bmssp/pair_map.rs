//! Maps from pairs of vertices to vertex numbers, kept in rustc-hash's `FxHashMap`.
use vstd::prelude::*;
use rustc_hash::FxHashMap;

verus! {

/// Declares rustc-hash's hasher builder, so that maps hashed with it can stand in
/// signatures. Nothing inside it is visible.
#[verifier::external_type_specification]
#[verifier::external_body]
pub struct ExFxBuildHasher(rustc_hash::FxBuildHasher);

/// `HashMap::insert` on a map hashed with rustc-hash's Fx hasher.
///
/// Trusted: afterwards `k` maps to `v` and every other key keeps its value, which is
/// what std documents of `insert` for a key type whose `Eq` and `Hash` agree, as they
/// do for pairs of integers; the value it hands back is dropped.
#[verifier::external_body]
pub(crate) fn pair_map_insert(m: &mut FxHashMap<(usize, usize), u32>, k: (usize, usize), v: u32)
    ensures
        final(m)@ == old(m)@.insert(k, v),
{
    m.insert(k, v);
}

/// `HashMap::get` on a map hashed with rustc-hash's Fx hasher, with the value copied out.
///
/// Trusted: the value of `k` when the map has one, else `None`, as std documents
/// of `get`.
#[verifier::external_body]
pub(crate) fn pair_map_get(m: &FxHashMap<(usize, usize), u32>, k: (usize, usize)) -> (r: Option<u32>)
    ensures
        r == (if m@.contains_key(k) {
            Some(m@[k])
        } else {
            None::<u32>
        }),
{
    m.get(&k).copied()
}

} // verus!
