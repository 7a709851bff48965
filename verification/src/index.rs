//! A map from type identifiers to numbers, kept in an `fnv` hash map.
//!
//! The map is opaque to the verifier: `index_entries` names what it holds,
//! and the three operations used by this crate are stated over that name and
//! taken on trust.

use fnv::{FnvHashMap, FnvHasher};
use std::hash::BuildHasherDefault;
use vstd::prelude::*;

verus! {

/// `fnv::FnvHasher`, the hasher's state.
#[verifier::external_type_specification]
#[verifier::external_body]
pub struct ExFnvHasher(FnvHasher);

/// `std::hash::BuildHasherDefault`, which makes a hasher by `Default`.
#[verifier::external_type_specification]
#[verifier::external_body]
#[verifier::reject_recursive_types(H)]
pub struct ExBuildHasherDefault<H>(BuildHasherDefault<H>);

/// The entries of the map: each key, as its sequence of characters, with
/// the number stored under it.
pub uninterp spec fn index_entries(m: FnvHashMap<String, usize>) -> Map<
    Seq<char>,
    usize,
>;

/// `FnvHashMap::default`: a map without entries.
#[verifier::external_body]
pub(crate) fn index_new() -> (m: FnvHashMap<String, usize>)
    ensures
        index_entries(m).dom() == Set::<Seq<char>>::empty(),
{
    FnvHashMap::default()
}

/// `HashMap::insert`: stores `value` under `key`, over an earlier entry of
/// that key if there is one; the other entries stay.
#[verifier::external_body]
pub(crate) fn index_insert(
    m: &mut FnvHashMap<String, usize>,
    key: String,
    value: usize,
)
    ensures
        index_entries(*final(m)) == index_entries(*old(m)).insert(key@, value),
{
    m.insert(key, value);
}

/// `HashMap::get`: the number stored under `key`, if there is one.
#[verifier::external_body]
pub(crate) fn index_get(m: &FnvHashMap<String, usize>, key: &str) -> (r: Option<usize>)
    ensures
        r == (if index_entries(*m).dom().contains(key@) {
            Some(index_entries(*m)[key@])
        } else {
            None::<usize>
        }),
{
    m.get(key).copied()
}

} // verus!
