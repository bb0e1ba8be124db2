//! A hash index from 64-bit keys to positions, on `rustc_hash::FxHashMap`.

use rustc_hash::FxHashMap;
use vstd::prelude::*;

verus! {

#[verifier::external_type_specification]
#[verifier::external_body]
pub struct ExFxBuildHasher(rustc_hash::FxBuildHasher);

/// The entries of an index.
pub uninterp spec fn entries(m: FxHashMap<u64, usize>) -> Map<u64, usize>;

/// `FxHashMap::default`: an empty map.
#[verifier::external_body]
pub(crate) fn index_new() -> (m: FxHashMap<u64, usize>)
    ensures
        entries(m).dom() == Set::<u64>::empty(),
{
    FxHashMap::default()
}

/// `HashMap::get` with the Fx hasher: the value under `key`, if there is one.
#[verifier::external_body]
pub(crate) fn index_get(m: &FxHashMap<u64, usize>, key: u64) -> (r: Option<usize>)
    ensures
        r == (if entries(*m).contains_key(key) {
            Some(entries(*m)[key])
        } else {
            None
        }),
{
    m.get(&key).copied()
}

/// `HashMap::insert` with the Fx hasher: `key` now maps to `value`, every
/// other entry is unchanged.
#[verifier::external_body]
pub(crate) fn index_insert(m: &mut FxHashMap<u64, usize>, key: u64, value: usize)
    ensures
        entries(*final(m)) == entries(*old(m)).insert(key, value),
{
    m.insert(key, value);
}

} // verus!
