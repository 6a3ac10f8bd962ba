//! The hash maps in which a miner files blocks under their identities.
//!
//! The maps are `ahash::AHashMap`s from a 32-byte identity to a position in
//! the ledger. Contracts speak of what a map holds, never of how it is laid
//! out or walked.

use ahash::AHashMap;
use ahash::RandomState;
use vstd::prelude::*;

verus! {

/// The hasher state of `ahash`.
#[verifier::external_type_specification]
#[verifier::external_body]
pub struct ExRandomState(RandomState);

/// The hash map of `ahash`.
#[verifier::external_type_specification]
#[verifier::external_body]
#[verifier::reject_recursive_types(K)]
#[verifier::reject_recursive_types(V)]
#[verifier::reject_recursive_types(S)]
pub struct ExAHashMap<K, V, S>(AHashMap<K, V, S>);

/// What a map holds: for each identity filed in it, the position filed
/// under that identity.
pub uninterp spec fn entries(m: AHashMap<[u8; 32], usize, RandomState>) -> Map<Seq<u8>, usize>;

/// The map that holds nothing.
pub open spec fn no_entries() -> Map<Seq<u8>, usize> {
    Map::empty()
}

/// Whether `list` names every entry of `m` and nothing else.
pub open spec fn lists_entries(list: Seq<([u8; 32], usize)>, m: Map<Seq<u8>, usize>) -> bool {
    &&& forall|i: int| 0 <= i < list.len() ==> #[trigger] m.contains_pair(list[i].0@, list[i].1)
    &&& forall|k: Seq<u8>|
        m.dom().contains(k) ==> exists|i: int| 0 <= i < list.len() && #[trigger] list[i].0@ == k
}

/// Calls `AHashMap::default`: the new map holds nothing.
#[verifier::external_body]
pub(crate) fn map_new() -> (m: AHashMap<[u8; 32], usize, RandomState>)
    ensures
        entries(m) == no_entries(),
{
    AHashMap::default()
}

/// Calls `AHashMap::insert`: afterwards the map files `value` under `key`
/// and is otherwise as before; the result is what was filed under `key`
/// before, if anything.
#[verifier::external_body]
pub(crate) fn map_insert(
    m: &mut AHashMap<[u8; 32], usize, RandomState>,
    key: [u8; 32],
    value: usize,
) -> (prev: Option<usize>)
    ensures
        entries(*final(m)) == entries(*old(m)).insert(key@, value),
        prev == (if entries(*old(m)).dom().contains(key@) {
            Some(entries(*old(m))[key@])
        } else {
            None
        }),
{
    m.insert(key, value)
}

/// Calls `AHashMap::remove`: afterwards nothing is filed under `key` and the
/// map is otherwise as before; the result is what was filed under `key`
/// before, if anything.
#[verifier::external_body]
pub(crate) fn map_remove(
    m: &mut AHashMap<[u8; 32], usize, RandomState>,
    key: &[u8; 32],
) -> (prev: Option<usize>)
    ensures
        entries(*final(m)) == entries(*old(m)).remove(key@),
        prev == (if entries(*old(m)).dom().contains(key@) {
            Some(entries(*old(m))[key@])
        } else {
            None
        }),
{
    m.remove(key)
}

/// Calls `HashMap::contains_key` on the map that the `AHashMap` wraps:
/// whether something is filed under `key`.
#[verifier::external_body]
pub(crate) fn map_contains(m: &AHashMap<[u8; 32], usize, RandomState>, key: &[u8; 32]) -> (found: bool)
    ensures
        found == entries(*m).dom().contains(key@),
{
    m.contains_key(key)
}

/// Calls `HashMap::len` on the map that the `AHashMap` wraps: the number of
/// identities under which something is filed.
#[verifier::external_body]
pub(crate) fn map_len(m: &AHashMap<[u8; 32], usize, RandomState>) -> (n: usize)
    ensures
        n == entries(*m).dom().len(),
{
    m.len()
}

/// Calls `HashMap::iter` on the map that the `AHashMap` wraps and copies out
/// each entry. The list names every entry of the map and nothing else; the
/// order in which the entries come is not stated.
#[verifier::external_body]
pub(crate) fn map_list(m: &AHashMap<[u8; 32], usize, RandomState>) -> (list: Vec<([u8; 32], usize)>)
    ensures
        lists_entries(list@, entries(*m)),
{
    m.iter().map(|(key, value)| (*key, *value)).collect()
}

} // verus!
